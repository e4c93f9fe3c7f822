//! Swipe typing prediction engine.
//!
//! Recognises an intended word from the character sequence implied by a
//! continuous gesture across a virtual keyboard.  A query path is built
//! from the keyboard geometry, simplified, aligned against every
//! dictionary word with windowed Dynamic Time Warping, and the surviving
//! candidates are ranked by a fusion of geometric cost and word
//! frequency.
//!
//! All geometry is exact integer arithmetic in scaled key-grid units
//! (10 units between adjacent key centres); the popularity weight is
//! kept in thousandths.

use vstd::prelude::*;

pub mod types;
pub mod keyboard;
pub mod dtw;
pub mod ranking;

use crate::types::{Point, Prediction, Dictionary, apply_records, parse_text};
use crate::keyboard::{
    KeyboardLayout, get_keyboard_layout, get_word_path, simplify_path, to_lower, euclidean_dist,
    key_point, lower_spec, path_of, simplify_spec, dist_spec, lemma_dist_bound,
    lemma_simplify_preserves_anchors,
};
use crate::dtw::{INF_COST, min_cost, dtw_spec, dtw_distance_fast, lemma_dtw_spec_bounds};
use crate::ranking::{
    Candidate, CandView, combined_key, cand_before, sort_spec, sort_candidates,
    lemma_sort_spec_len, lemma_sort_spec_sorted,
};

verus! {

/// Default popularity weight, in thousandths (a quarter).
pub const DEFAULT_POP_WEIGHT: u32 = 250;

/// Edge penalty for a candidate word whose first or last character has
/// no key at all.
pub const MISSING_KEY_PENALTY: u64 = 500;

/// Smallest DTW window half-width `predict` ever uses.
pub const MIN_WINDOW: usize = 10;

/// The penalty for a mismatched start or end key: zero when the word's
/// edge character equals the swipe's, five times their key distance when
/// it has a key, and a fixed penalty when it has none.
pub open spec fn edge_penalty(input_c: char, input_pt: Point, word_c: char) -> int {
    if word_c == input_c {
        0
    } else {
        match key_point(word_c) {
            Some(p) => 5 * dist_spec(input_pt, p),
            None => MISSING_KEY_PENALTY as int,
        }
    }
}

/// The key centre of a case-folded edge character, or the origin
/// sentinel for characters outside the layout.
pub open spec fn edge_point(c: char) -> Point {
    match key_point(c) {
        Some(p) => p,
        None => Point { x: 0, y: 0 },
    }
}

/// The surviving candidates from dictionary position `i` on, given the
/// best length-normalised score `best` seen so far.  Each candidate's
/// DTW cost is cut off at `best * input_len`; candidates cut off (or
/// without a valid alignment) are dropped, the rest carry their
/// length-normalised score, their frequency and their dictionary index.
pub open spec fn scan_spec(
    words: Seq<Seq<char>>,
    freqs: Seq<u64>,
    simp: Seq<Point>,
    window: int,
    input_len: int,
    first_c: char,
    last_c: char,
    first_pt: Point,
    last_pt: Point,
    i: int,
    best: int,
) -> Seq<CandView>
    decreases words.len() - i,
        when 0 <= i <= words.len()
{
    if i >= words.len() {
        Seq::empty()
    } else {
        let w = words[i];
        if w.len() == 0 {
            scan_spec(
                words, freqs, simp, window, input_len, first_c, last_c, first_pt, last_pt,
                i + 1, best,
            )
        } else {
            let sp = edge_penalty(first_c, first_pt, w[0]);
            let ep = edge_penalty(last_c, last_pt, w.last());
            let cutoff = min_cost(best * input_len, INF_COST as int);
            let d0 = dtw_spec(simp, path_of(w), window);
            let d = if d0 <= cutoff {
                d0
            } else {
                INF_COST as int
            };
            if d == INF_COST as int {
                scan_spec(
                    words, freqs, simp, window, input_len, first_c, last_c, first_pt, last_pt,
                    i + 1, best,
                )
            } else {
                let score = (d + sp + ep) / input_len;
                seq![(w, score, freqs[i] as int, i)] + scan_spec(
                    words, freqs, simp, window, input_len, first_c, last_c, first_pt, last_pt,
                    i + 1, min_cost(best, score),
                )
            }
        }
    }
}

/// Everything `predict` returns, as a function of the engine state and
/// the arguments: build the raw swipe path, simplify it, scan the
/// dictionary for surviving candidates, rank them by the fused key and
/// keep the first `limit`.
pub open spec fn predict_view(
    words: Seq<Seq<char>>,
    freqs: Seq<u64>,
    pop_weight: int,
    input: Seq<char>,
    limit: int,
) -> Seq<(Seq<char>, int, int)> {
    let raw = path_of(input);
    if raw.len() == 0 {
        Seq::empty()
    } else {
        let simp = simplify_spec(raw);
        let il = simp.len() as int;
        let window = if il / 2 >= MIN_WINDOW as int {
            il / 2
        } else {
            MIN_WINDOW as int
        };
        let fc = lower_spec(input[0]);
        let lc = lower_spec(input[input.len() - 1]);
        let cands = scan_spec(
            words, freqs, simp, window, il, fc, lc, edge_point(fc), edge_point(lc),
            0, INF_COST as int,
        );
        let ranked = sort_spec(cands, pop_weight);
        let taken = if limit < ranked.len() {
            ranked.take(limit)
        } else {
            ranked
        };
        taken.map(|k: int, c: CandView| (c.0, c.1, c.2))
    }
}

/// The swipe typing prediction engine: one dictionary, one keyboard
/// layout and one popularity weight.
pub struct SwipeEngine {
    pub dictionary: Dictionary,
    pub layout: KeyboardLayout,
    pub pop_weight: u32,
}

impl SwipeEngine {
    /// The engine's internal invariant: its dictionary columns line up.
    pub open spec fn wf(self) -> bool {
        self.dictionary.wf()
    }

    /// A new engine: empty dictionary, QWERTY layout, default
    /// popularity weight.
    pub fn new() -> (e: SwipeEngine)
        ensures
            e.wf(),
            e.dictionary.words@.len() == 0,
            e.dictionary.freqs@.len() == 0,
            e.pop_weight == DEFAULT_POP_WEIGHT,
    {
        SwipeEngine {
            dictionary: Dictionary::new(),
            layout: get_keyboard_layout(),
            pop_weight: DEFAULT_POP_WEIGHT,
        }
    }

    /// Set the popularity weight, in thousandths (250 means a quarter):
    /// higher values let word frequency offset more geometric mismatch.
    pub fn set_pop_weight(&mut self, weight: u32)
        ensures
            final(self).pop_weight == weight,
            final(self).dictionary == old(self).dictionary,
            final(self).layout == old(self).layout,
    {
        self.pop_weight = weight;
    }

    /// Load a dictionary from frequency text (`word<TAB>count` per
    /// line); loads are additive and repeated words accumulate.
    pub fn load_dictionary(&mut self, freq_text: &str)
        requires
            old(self).wf(),
        ensures
            final(self).wf(),
            (final(self).dictionary.words.deep_view(), final(self).dictionary.freqs@)
                == apply_records(
                old(self).dictionary.words.deep_view(),
                old(self).dictionary.freqs@,
                parse_text(freq_text@),
            ),
            final(self).pop_weight == old(self).pop_weight,
            final(self).layout == old(self).layout,
    {
        self.dictionary.load_from_text(freq_text);
    }

    /// The number of words in the loaded dictionary.
    pub fn word_count(&self) -> (n: usize)
        ensures
            n == self.dictionary.words@.len(),
    {
        self.dictionary.words.len()
    }

    /// Predict the words a swipe most likely meant: at most `limit`
    /// predictions, best first.  A swipe with no usable geometry yields
    /// an empty list.
    pub fn predict(&self, swipe_input: &str, limit: usize) -> (r: Vec<Prediction>)
        requires
            self.wf(),
        ensures
            r.deep_view() == predict_view(
                self.dictionary.words.deep_view(),
                self.dictionary.freqs@,
                self.pop_weight as int,
                swipe_input@,
                limit as int,
            ),
    {
        let ghost wdv = self.dictionary.words.deep_view();
        let ghost fseq = self.dictionary.freqs@;
        let raw = get_word_path(swipe_input, &self.layout);
        if raw.len() == 0 {
            let r: Vec<Prediction> = Vec::new();
            proof {
                assert(r.deep_view() =~= Seq::<(Seq<char>, int, int)>::empty());
            }
            return r;
        }
        proof {
            lemma_simplify_preserves_anchors(raw@);
            if swipe_input@.len() == 0 {
                assert(raw@.len() == 0);
            }
        }
        let simp = simplify_path(&raw);
        let il: usize = simp.len();
        let n_in = swipe_input.unicode_len();
        let fc = to_lower(swipe_input.get_char(0));
        let lc = to_lower(swipe_input.get_char(n_in - 1));
        let fpt: Point = match self.layout.lookup(fc) {
            Some(p) => p,
            None => Point { x: 0, y: 0 },
        };
        let lpt: Point = match self.layout.lookup(lc) {
            Some(p) => p,
            None => Point { x: 0, y: 0 },
        };
        let window: usize = if il / 2 >= MIN_WINDOW {
            il / 2
        } else {
            MIN_WINDOW
        };
        let ghost full = scan_spec(
            wdv, fseq, simp@, window as int, il as int, fc, lc, fpt, lpt, 0, INF_COST as int,
        );
        let nw = self.dictionary.words.len();
        let mut best: u64 = INF_COST;
        let mut cands: Vec<Candidate> = Vec::new();
        let mut i: usize = 0;
        proof {
            assert(cands.deep_view() =~= Seq::<CandView>::empty());
        }
        while i < nw
            invariant
                i <= nw,
                self.wf(),
                nw == self.dictionary.words@.len(),
                wdv == self.dictionary.words.deep_view(),
                fseq == self.dictionary.freqs@,
                wdv.len() == nw,
                fseq.len() == nw,
                il == simp@.len(),
                1 <= il,
                best <= INF_COST,
                full == cands.deep_view() + scan_spec(
                    wdv, fseq, simp@, window as int, il as int, fc, lc, fpt, lpt,
                    i as int, best as int,
                ),
            decreases nw - i,
        {
            let ghost tail = scan_spec(
                wdv, fseq, simp@, window as int, il as int, fc, lc, fpt, lpt,
                i as int, best as int,
            );
            let w: &String = &self.dictionary.words[i];
            assert(wdv[i as int] == w@);
            let wlen = w.as_str().unicode_len();
            if wlen > 0 {
                let wfirst = w.as_str().get_char(0);
                let wlast = w.as_str().get_char(wlen - 1);
                let sp: u64 = if wfirst == fc {
                    0
                } else {
                    match self.layout.lookup(wfirst) {
                        Some(p) => {
                            proof {
                                lemma_dist_bound(fpt, p);
                            }
                            5 * euclidean_dist(&fpt, &p)
                        },
                        None => MISSING_KEY_PENALTY,
                    }
                };
                let ep: u64 = if wlast == lc {
                    0
                } else {
                    match self.layout.lookup(wlast) {
                        Some(p) => {
                            proof {
                                lemma_dist_bound(lpt, p);
                            }
                            5 * euclidean_dist(&lpt, &p)
                        },
                        None => MISSING_KEY_PENALTY,
                    }
                };
                assert(sp == edge_penalty(fc, fpt, w@[0]));
                assert(ep == edge_penalty(lc, lpt, w@.last()));
                assert(sp <= 500000 && ep <= 500000);
                proof {
                    assert((best as u128) * (il as u128) < 0x100000000000000000000000000000000)
                        by (nonlinear_arith)
                        requires
                            best as int <= 0xFFFF_FFFF_FFFF_FFFF,
                            il as int <= 0xFFFF_FFFF_FFFF_FFFF,
                    ;
                }
                let prod: u128 = best as u128 * il as u128;
                let cutoff: u64 = if prod >= INF_COST as u128 {
                    INF_COST
                } else {
                    prod as u64
                };
                assert(cutoff as int == min_cost(best as int * il as int, INF_COST as int));
                let wpath = get_word_path(w.as_str(), &self.layout);
                let d = dtw_distance_fast(&simp, &wpath, window, cutoff);
                proof {
                    lemma_dtw_spec_bounds(simp@, wpath@, window as int);
                }
                if d < INF_COST {
                    let score: u64 = (d + sp + ep) / (il as u64);
                    let freq = self.dictionary.freqs[i];
                    let cand = Candidate { word: w.clone(), score, freq, idx: i };
                    let ghost cv = cand.deep_view();
                    let ghost cdv_old = cands.deep_view();
                    cands.push(cand);
                    proof {
                        assert(cands.deep_view() =~= cdv_old.push(cv));
                        assert(cdv_old.push(cv) =~= cdv_old + seq![cv]);
                        let nbest: u64 = if score < best {
                            score
                        } else {
                            best
                        };
                        assert(nbest as int == min_cost(best as int, score as int));
                        assert(tail == seq![cv] + scan_spec(
                            wdv, fseq, simp@, window as int, il as int, fc, lc, fpt, lpt,
                            i + 1 as int, nbest as int,
                        ));
                        assert(full == (cdv_old + seq![cv]) + scan_spec(
                            wdv, fseq, simp@, window as int, il as int, fc, lc, fpt, lpt,
                            i + 1 as int, nbest as int,
                        )) by {
                            assert(cdv_old + (seq![cv] + scan_spec(
                                wdv, fseq, simp@, window as int, il as int, fc, lc, fpt, lpt,
                                i + 1 as int, nbest as int,
                            )) =~= (cdv_old + seq![cv]) + scan_spec(
                                wdv, fseq, simp@, window as int, il as int, fc, lc, fpt, lpt,
                                i + 1 as int, nbest as int,
                            ));
                        }
                    }
                    if score < best {
                        best = score;
                    }
                } else {
                    proof {
                        assert(d == INF_COST);
                        assert(tail == scan_spec(
                            wdv, fseq, simp@, window as int, il as int, fc, lc, fpt, lpt,
                            i + 1 as int, best as int,
                        ));
                    }
                }
            } else {
                proof {
                    assert(w@.len() == 0);
                    assert(tail == scan_spec(
                        wdv, fseq, simp@, window as int, il as int, fc, lc, fpt, lpt,
                        i + 1 as int, best as int,
                    ));
                }
            }
            i = i + 1;
        }
        proof {
            assert(scan_spec(
                wdv, fseq, simp@, window as int, il as int, fc, lc, fpt, lpt,
                nw as int, best as int,
            ) =~= Seq::<CandView>::empty());
            assert(full =~= cands.deep_view());
        }
        let ranked = sort_candidates(&cands, self.pop_weight);
        proof {
            lemma_sort_spec_len(cands.deep_view(), self.pop_weight as int);
        }
        let ghost rdv = ranked.deep_view();
        let take_n: usize = if limit < ranked.len() {
            limit
        } else {
            ranked.len()
        };
        let mut out: Vec<Prediction> = Vec::new();
        let mut k: usize = 0;
        while k < take_n
            invariant
                k <= take_n,
                take_n <= ranked@.len(),
                rdv == ranked.deep_view(),
                rdv.len() == ranked@.len(),
                out.deep_view().len() == k,
                forall|j: int| 0 <= j < k ==> out.deep_view()[j]
                    == (rdv[j].0, rdv[j].1, rdv[j].2),
            decreases take_n - k,
        {
            let c: &Candidate = &ranked[k];
            let ghost odv = out.deep_view();
            let p = Prediction { word: c.word.clone(), score: c.score, freq: c.freq };
            let ghost pv = p.deep_view();
            out.push(p);
            proof {
                assert(pv == (rdv[k as int].0, rdv[k as int].1, rdv[k as int].2));
                assert(out.deep_view() =~= odv.push(pv));
            }
            k = k + 1;
        }
        proof {
            let taken = if (limit as int) < rdv.len() {
                rdv.take(limit as int)
            } else {
                rdv
            };
            assert(out.deep_view() =~= taken.map(|k2: int, c: CandView| (c.0, c.1, c.2)));
        }
        out
    }
}

impl Default for SwipeEngine {
    /// Same as `new`.
    fn default() -> (e: SwipeEngine)
        ensures
            e.wf(),
            e.dictionary.words@.len() == 0,
            e.pop_weight == DEFAULT_POP_WEIGHT,
    {
        SwipeEngine::new()
    }
}

/// A character sequence none of whose characters has a key traces no
/// path at all.
pub proof fn lemma_path_of_unmapped(s: Seq<char>)
    requires
        forall|i: int| 0 <= i < s.len() ==> key_point(s[i]) is None,
    ensures
        path_of(s).len() == 0,
    decreases s.len(),
{
    if s.len() > 0 {
        assert(forall|i: int| 0 <= i < s.len() - 1 ==> s.drop_last()[i] == s[i]);
        lemma_path_of_unmapped(s.drop_last());
        assert(key_point(s.last()) is None);
    }
}

/// A swipe whose every character is absent from the layout yields an
/// empty prediction list, whatever the dictionary, weight and limit.
pub proof fn lemma_unmapped_input_empty(
    words: Seq<Seq<char>>,
    freqs: Seq<u64>,
    pop_weight: int,
    input: Seq<char>,
    limit: int,
)
    requires
        forall|i: int| 0 <= i < input.len() ==> key_point(input[i]) is None,
    ensures
        predict_view(words, freqs, pop_weight, input, limit)
            == Seq::<(Seq<char>, int, int)>::empty(),
{
    lemma_path_of_unmapped(input);
}

/// Predictions come best-first: never more than `limit` of them, and
/// ascending in the fused ranking key, so the head of the list is the
/// strongest candidate.
pub proof fn lemma_predict_view_best_first(
    words: Seq<Seq<char>>,
    freqs: Seq<u64>,
    pop_weight: int,
    input: Seq<char>,
    limit: int,
)
    requires
        limit >= 0,
    ensures
        predict_view(words, freqs, pop_weight, input, limit).len() <= limit,
        forall|i: int, j: int|
            0 <= i < j < predict_view(words, freqs, pop_weight, input, limit).len()
                ==> combined_key(
                #[trigger] predict_view(words, freqs, pop_weight, input, limit)[i].1,
                predict_view(words, freqs, pop_weight, input, limit)[i].2,
                pop_weight,
            ) <= combined_key(
                #[trigger] predict_view(words, freqs, pop_weight, input, limit)[j].1,
                predict_view(words, freqs, pop_weight, input, limit)[j].2,
                pop_weight,
            ),
{
    let r = predict_view(words, freqs, pop_weight, input, limit);
    let raw = path_of(input);
    if raw.len() == 0 {
    } else {
        let simp = simplify_spec(raw);
        let il = simp.len() as int;
        let window = if il / 2 >= MIN_WINDOW as int {
            il / 2
        } else {
            MIN_WINDOW as int
        };
        let fc = lower_spec(input[0]);
        let lc = lower_spec(input[input.len() - 1]);
        let cands = scan_spec(
            words, freqs, simp, window, il, fc, lc, edge_point(fc), edge_point(lc),
            0, INF_COST as int,
        );
        let ranked = sort_spec(cands, pop_weight);
        lemma_sort_spec_sorted(cands, pop_weight);
        let taken = if limit < ranked.len() {
            ranked.take(limit)
        } else {
            ranked
        };
        assert forall|i: int, j: int| 0 <= i < j < r.len() implies combined_key(
            r[i].1,
            r[i].2,
            pop_weight,
        ) <= combined_key(r[j].1, r[j].2, pop_weight) by {
            assert(taken[i] == ranked[i] && taken[j] == ranked[j]);
            assert(!cand_before(ranked[j], ranked[i], pop_weight));
            assert(r[i] == (taken[i].0, taken[i].1, taken[i].2));
            assert(r[j] == (taken[j].0, taken[j].1, taken[j].2));
        }
    }
}

/// A prediction limit of zero yields an empty list for any swipe and
/// any engine state.
pub proof fn lemma_limit_zero_empty(
    words: Seq<Seq<char>>,
    freqs: Seq<u64>,
    pop_weight: int,
    input: Seq<char>,
)
    ensures
        predict_view(words, freqs, pop_weight, input, 0)
            == Seq::<(Seq<char>, int, int)>::empty(),
{
    let r = predict_view(words, freqs, pop_weight, input, 0);
    if path_of(input).len() == 0 {
    } else {
        assert(r.len() == 0);
        assert(r =~= Seq::<(Seq<char>, int, int)>::empty());
    }
}

} // verus!
