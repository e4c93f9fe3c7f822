//! Core value types of the swipe engine: keyboard coordinates, dictionary
//! entries and ranked predictions.
//!
//! All geometry lives in a scaled integer unit space: neighbouring key
//! centres are 10 units apart, so half a key is 5 units.  Working in
//! integers keeps every distance and score an exact, verifiable value.

use vstd::prelude::*;

verus! {

/// A 2-D coordinate on the keyboard surface, in scaled key-grid units
/// (10 units between the centres of horizontally adjacent keys).
#[derive(Clone, Copy, PartialEq, Eq, Structural, Debug)]
pub struct Point {
    pub x: u16,
    pub y: u16,
}

/// One ranked prediction: the candidate word, its length-normalised
/// geometric cost (lower is better) and the dictionary frequency weight
/// that was fused into the ranking.
pub struct Prediction {
    pub word: String,
    pub score: u64,
    pub freq: u64,
}

impl DeepView for Prediction {
    type V = (Seq<char>, int, int);

    open spec fn deep_view(&self) -> (Seq<char>, int, int) {
        (self.word@, self.score as int, self.freq as int)
    }
}

/// Index of the first occurrence of `c` in `s`, or `-1`.
pub open spec fn find_char(s: Seq<char>, c: char) -> int
    decreases s.len(),
{
    if s.len() == 0 {
        -1
    } else if s[0] == c {
        0
    } else {
        let r = find_char(s.drop_first(), c);
        if r < 0 {
            -1
        } else {
            r + 1
        }
    }
}

pub proof fn lemma_find_char_props(s: Seq<char>, c: char)
    ensures
        find_char(s, c) == -1 ==> forall|i: int| 0 <= i < s.len() ==> s[i] != c,
        find_char(s, c) != -1 ==> 0 <= find_char(s, c) < s.len() && s[find_char(s, c)] == c
            && forall|i: int| 0 <= i < find_char(s, c) ==> s[i] != c,
    decreases s.len(),
{
    if s.len() > 0 && s[0] != c {
        lemma_find_char_props(s.drop_first(), c);
        assert(forall|i: int| 1 <= i < s.len() ==> s[i] == s.drop_first()[i - 1]);
    }
}

pub open spec fn is_digit(c: char) -> bool {
    48 <= c as u32 <= 57
}

pub open spec fn all_digits(s: Seq<char>) -> bool {
    forall|i: int| 0 <= i < s.len() ==> is_digit(s[i])
}

/// The numeric value of a decimal digit string, most significant first.
pub open spec fn digits_val(s: Seq<char>) -> int
    decreases s.len(),
{
    if s.len() == 0 {
        0
    } else {
        digits_val(s.drop_last()) * 10 + (s.last() as u32 - 48)
    }
}

pub open spec fn pow10(k: int) -> int
    decreases k,
{
    if k <= 0 {
        1
    } else {
        10 * pow10(k - 1)
    }
}

pub proof fn lemma_pow10_pos(k: int)
    ensures
        1 <= pow10(k),
    decreases k,
{
    if k > 0 {
        lemma_pow10_pos(k - 1);
    }
}

pub proof fn lemma_pow10_mono(a: int, b: int)
    requires
        a <= b,
    ensures
        pow10(a) <= pow10(b),
        1 <= pow10(a),
    decreases b,
{
    lemma_pow10_pos(a);
    if a < b {
        if b > 0 {
            lemma_pow10_mono(a, b - 1);
        }
    }
}

pub proof fn lemma_digits_val_bound(s: Seq<char>)
    requires
        all_digits(s),
    ensures
        0 <= digits_val(s) < pow10(s.len() as int),
    decreases s.len(),
{
    if s.len() > 0 {
        assert(all_digits(s.drop_last())) by {
            assert(forall|i: int| 0 <= i < s.len() - 1 ==> s.drop_last()[i] == s[i]);
        }
        lemma_digits_val_bound(s.drop_last());
        assert(is_digit(s.last()));
    }
}

/// `pow10(19)` written out, for bounding a count of at most 19 digits.
pub proof fn lemma_pow10_19()
    ensures
        pow10(19) == 10_000_000_000_000_000_000,
{
    assert(pow10(0) == 1);
    assert(pow10(1) == 10);
    assert(pow10(2) == 100);
    assert(pow10(3) == 1000);
    assert(pow10(4) == 10000);
    assert(pow10(5) == 100000);
    assert(pow10(6) == 1000000);
    assert(pow10(7) == 10000000);
    assert(pow10(8) == 100000000);
    assert(pow10(9) == 1000000000);
    assert(pow10(10) == 10000000000);
    assert(pow10(11) == 100000000000);
    assert(pow10(12) == 1000000000000);
    assert(pow10(13) == 10000000000000);
    assert(pow10(14) == 100000000000000);
    assert(pow10(15) == 1000000000000000);
    assert(pow10(16) == 10000000000000000);
    assert(pow10(17) == 100000000000000000);
    assert(pow10(18) == 1000000000000000000);
    assert(pow10(19) == 10000000000000000000);
}

/// The record a single line yields: the word before the first tab and
/// the decimal count after it.  Lines without a tab, or whose count is
/// not 1 to 19 decimal digits, are malformed and yield nothing.
pub open spec fn line_record(line: Seq<char>) -> Option<(Seq<char>, u64)> {
    let t = find_char(line, '\t');
    if t < 0 {
        None
    } else {
        let w = line.take(t);
        let cs = line.skip(t + 1);
        if 1 <= cs.len() <= 19 && all_digits(cs) {
            Some((w, digits_val(cs) as u64))
        } else {
            None
        }
    }
}

/// A single record as a (possibly empty) record sequence.
pub open spec fn rec_seq(r: Option<(Seq<char>, u64)>) -> Seq<(Seq<char>, u64)> {
    match r {
        Some(x) => seq![x],
        None => Seq::empty(),
    }
}

/// All records of a newline-separated text, in order; malformed lines
/// contribute nothing.
pub open spec fn parse_text(s: Seq<char>) -> Seq<(Seq<char>, u64)>
    decreases s.len(),
{
    if s.len() == 0 {
        Seq::empty()
    } else {
        let k = find_char(s, '\n');
        if 0 <= k < s.len() {
            rec_seq(line_record(s.take(k))) + parse_text(s.skip(k + 1))
        } else {
            rec_seq(line_record(s))
        }
    }
}

/// Index of the first occurrence of `w` among `words`, or `-1`.
pub open spec fn index_of_word(words: Seq<Seq<char>>, w: Seq<char>) -> int
    decreases words.len(),
{
    if words.len() == 0 {
        -1
    } else if words[0] == w {
        0
    } else {
        let r = index_of_word(words.drop_first(), w);
        if r < 0 {
            -1
        } else {
            r + 1
        }
    }
}

pub proof fn lemma_index_of_word_props(words: Seq<Seq<char>>, w: Seq<char>)
    ensures
        index_of_word(words, w) == -1 ==> forall|i: int| 0 <= i < words.len() ==> words[i] != w,
        index_of_word(words, w) != -1 ==> 0 <= index_of_word(words, w) < words.len()
            && words[index_of_word(words, w)] == w
            && forall|i: int| 0 <= i < index_of_word(words, w) ==> words[i] != w,
    decreases words.len(),
{
    if words.len() > 0 && words[0] != w {
        lemma_index_of_word_props(words.drop_first(), w);
        assert(forall|i: int| 1 <= i < words.len() ==> words[i] == words.drop_first()[i - 1]);
    }
}

/// Frequency counts add up, saturating at the largest weight.
pub open spec fn sat_add64(a: u64, c: u64) -> u64 {
    if a + c > u64::MAX {
        u64::MAX
    } else {
        (a + c) as u64
    }
}

/// One record folded into the dictionary state: a known word accumulates
/// its count, an unknown word is appended with it.
pub open spec fn apply_one(
    words: Seq<Seq<char>>,
    freqs: Seq<u64>,
    w: Seq<char>,
    c: u64,
) -> (Seq<Seq<char>>, Seq<u64>) {
    let k = index_of_word(words, w);
    if 0 <= k < freqs.len() {
        (words, freqs.update(k, sat_add64(freqs[k], c)))
    } else {
        (words.push(w), freqs.push(c))
    }
}

/// All records folded into the dictionary state, in order.
pub open spec fn apply_records(
    words: Seq<Seq<char>>,
    freqs: Seq<u64>,
    recs: Seq<(Seq<char>, u64)>,
) -> (Seq<Seq<char>>, Seq<u64>)
    decreases recs.len(),
{
    if recs.len() == 0 {
        (words, freqs)
    } else {
        let st = apply_one(words, freqs, recs[0].0, recs[0].1);
        apply_records(st.0, st.1, recs.drop_first())
    }
}

spec fn line_rec_matches(r: Option<(String, u64)>, m: Option<(Seq<char>, u64)>) -> bool {
    match (r, m) {
        (Some(p), Some(q)) => p.0@ == q.0 && p.1 == q.1,
        (None, None) => true,
        _ => false,
    }
}

/// Parse one `word<TAB>count` line; `None` for malformed lines.
fn parse_line(line: &str) -> (r: Option<(String, u64)>)
    ensures
        line_rec_matches(r, line_record(line@)),
{
    let n = line.unicode_len();
    proof {
        lemma_find_char_props(line@, '\t');
    }
    let mut t: usize = 0;
    while t < n && line.get_char(t) != '\t'
        invariant
            t <= n,
            n == line@.len(),
            forall|i: int| 0 <= i < t ==> line@[i] != '\t',
        decreases n - t,
    {
        t = t + 1;
    }
    if t == n {
        // no separator on this line
        assert(find_char(line@, '\t') < 0);
        return None;
    }
    assert(find_char(line@, '\t') == t);
    if n - t - 1 < 1 || n - t - 1 > 19 {
        return None;
    }
    let ghost cs = line@.skip(t + 1);
    assert(cs.len() == n - t - 1);
    let mut acc: u64 = 0;
    let mut i: usize = t + 1;
    proof {
        assert(line@.skip(t + 1 as int).take(0) =~= Seq::<char>::empty());
    }
    while i < n
        invariant
            t + 1 <= i <= n,
            n == line@.len(),
            1 <= n - t - 1 <= 19,
            find_char(line@, '\t') == t,
            cs == line@.skip(t + 1 as int),
            all_digits(cs.take(i - t - 1)),
            acc == digits_val(cs.take(i - t - 1)),
            acc < pow10(i - t - 1),
        decreases n - i,
    {
        let c = line.get_char(i);
        let u: u32 = c as u32;
        if u < 48 || u > 57 {
            proof {
                assert(cs[i - t - 1] == line@[i as int]);
                assert(!is_digit(cs[i - t - 1]));
                assert(!all_digits(cs));
            }
            return None;
        }
        let d: u64 = (u - 48) as u64;
        proof {
            lemma_pow10_mono(i - t - 1, 18);
            lemma_pow10_19();
            assert(pow10(18) * 10 == pow10(19));
            assert(acc * 10 + d < pow10(19)) by (nonlinear_arith)
                requires
                    acc < pow10(18 as int) || acc * 10 + d < pow10(i - t - 1) * 10,
                    acc < pow10(i - t - 1),
                    pow10(i - t - 1) <= pow10(18 as int),
                    pow10(18 as int) * 10 == pow10(19 as int),
                    pow10(19 as int) == 10_000_000_000_000_000_000,
                    d <= 9,
            ;
        }
        acc = acc * 10 + d;
        proof {
            let k = i - t - 1;
            assert(cs.take(k + 1).drop_last() =~= cs.take(k));
            assert(cs.take(k + 1).last() == cs[k]);
            assert(pow10(k + 1) == 10 * pow10(k));
            assert(acc < pow10(k + 1)) by (nonlinear_arith)
                requires
                    acc == digits_val(cs.take(k)) * 10 + d,
                    digits_val(cs.take(k)) < pow10(k),
                    d <= 9,
                    pow10(k + 1) == 10 * pow10(k),
            ;
        }
        i = i + 1;
    }
    proof {
        assert(cs.take(n - t - 1 as int) =~= cs);
    }
    let word = line.substring_char(0, t).to_owned();
    proof {
        assert(line@.subrange(0, t as int) =~= line@.take(t as int));
        lemma_digits_val_bound(cs);
    }
    Some((word, acc))
}

/// The candidate words and their frequency weights, in insertion order.
///
/// `words` and `freqs` run in parallel: `freqs[i]` is the weight of
/// `words[i]`.  Repeated loads and repeated words accumulate: counts for
/// the same word add up (saturating at the largest weight).
pub struct Dictionary {
    pub words: Vec<String>,
    pub freqs: Vec<u64>,
}

impl Dictionary {
    /// The two parallel columns have equal length.
    pub open spec fn wf(self) -> bool {
        self.words@.len() == self.freqs@.len()
    }

    /// An empty dictionary.
    pub fn new() -> (d: Dictionary)
        ensures
            d.wf(),
            d.words@.len() == 0,
            d.freqs@.len() == 0,
    {
        Dictionary { words: Vec::new(), freqs: Vec::new() }
    }

    /// Fold one parsed record into the dictionary.
    fn add_record(&mut self, word: String, count: u64)
        requires
            old(self).wf(),
        ensures
            final(self).wf(),
            (final(self).words.deep_view(), final(self).freqs@) == apply_one(
                old(self).words.deep_view(),
                old(self).freqs@,
                word@,
                count,
            ),
    {
        let ghost wdv = old(self).words.deep_view();
        let n = self.words.len();
        let mut k: usize = 0;
        while k < n
            invariant
                k <= n,
                self == old(self),
                self.wf(),
                n == self.words@.len(),
                wdv == self.words.deep_view(),
                forall|j: int| 0 <= j < k ==> wdv[j] != word@,
            decreases n - k,
        {
            if self.words[k] == word {
                proof {
                    lemma_index_of_word_props(wdv, word@);
                    assert(wdv[k as int] == word@);
                    assert(index_of_word(wdv, word@) == k);
                }
                let f = self.freqs[k];
                let nf: u64 = if f > u64::MAX - count {
                    u64::MAX
                } else {
                    f + count
                };
                self.freqs[k] = nf;
                proof {
                    assert(nf == sat_add64(f, count));
                    assert(self.freqs@ =~= old(self).freqs@.update(k as int, sat_add64(f, count)));
                    assert(self.words.deep_view() =~= wdv);
                }
                return;
            }
            k = k + 1;
        }
        proof {
            lemma_index_of_word_props(wdv, word@);
            assert(index_of_word(wdv, word@) == -1);
        }
        self.words.push(word);
        self.freqs.push(count);
        assert(self.words.deep_view() =~= wdv.push(word@));
    }

    /// Load frequency-annotated text: one `word<TAB>count` record per
    /// line.  Blank and malformed lines are skipped; repeated words
    /// accumulate their counts.
    pub fn load_from_text(&mut self, text: &str)
        requires
            old(self).wf(),
        ensures
            final(self).wf(),
            (final(self).words.deep_view(), final(self).freqs@) == apply_records(
                old(self).words.deep_view(),
                old(self).freqs@,
                parse_text(text@),
            ),
    {
        let n = text.unicode_len();
        let ghost w0 = self.words.deep_view();
        let ghost f0 = self.freqs@;
        proof {
            assert(text@.skip(0) =~= text@);
        }
        let mut pos: usize = 0;
        while pos < n
            invariant
                pos <= n,
                n == text@.len(),
                self.wf(),
                apply_records(w0, f0, parse_text(text@)) == apply_records(
                    self.words.deep_view(),
                    self.freqs@,
                    parse_text(text@.skip(pos as int)),
                ),
            decreases n - pos,
        {
            let mut end: usize = pos;
            while end < n && text.get_char(end) != '\n'
                invariant
                    pos <= end <= n,
                    n == text@.len(),
                    forall|p: int| pos <= p < end ==> text@[p] != '\n',
                decreases n - end,
            {
                end = end + 1;
            }
            let ghost rest = text@.skip(pos as int);
            proof {
                lemma_find_char_props(rest, '\n');
                assert(forall|p: int| 0 <= p < rest.len() ==> rest[p] == text@[pos + p]);
                if end < n {
                    assert(rest[end - pos] == '\n');
                    assert(find_char(rest, '\n') == end - pos);
                } else {
                    assert(find_char(rest, '\n') == -1);
                }
            }
            let line = text.substring_char(pos, end);
            proof {
                assert(line@ =~= rest.take(end - pos));
                if end == n {
                    assert(line@ =~= rest);
                }
            }
            let rec = parse_line(line);
            let ghost recs_here = rec_seq(line_record(line@));
            let ghost next_rest = if end < n {
                text@.skip(end + 1 as int)
            } else {
                Seq::<char>::empty()
            };
            proof {
                if end < n {
                    assert(rest.skip(end - pos + 1) =~= text@.skip(end + 1 as int));
                    assert(parse_text(rest) == recs_here + parse_text(next_rest));
                } else {
                    assert(parse_text(rest) == recs_here);
                    assert(parse_text(next_rest) == Seq::<(Seq<char>, u64)>::empty());
                    assert(parse_text(rest) =~= recs_here + parse_text(next_rest));
                }
            }
            let ghost st_before = (self.words.deep_view(), self.freqs@);
            match rec {
                Some(p) => {
                    self.add_record(p.0, p.1);
                },
                None => {},
            }
            proof {
                let all = recs_here + parse_text(next_rest);
                if recs_here.len() == 0 {
                    assert(all =~= parse_text(next_rest));
                } else {
                    assert(all[0] == recs_here[0]);
                    assert(all.drop_first() =~= parse_text(next_rest));
                    assert((self.words.deep_view(), self.freqs@) == apply_one(
                        st_before.0,
                        st_before.1,
                        all[0].0,
                        all[0].1,
                    ));
                }
            }
            pos = if end < n {
                end + 1
            } else {
                n
            };
        }
        proof {
            assert(text@.skip(n as int) =~= Seq::<char>::empty());
        }
    }
}

} // verus!
