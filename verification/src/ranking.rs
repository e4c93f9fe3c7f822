//! Candidate ranking: the fused score/frequency key and the stable sort
//! that orders surviving candidates best-first.
//!
//! The popularity weight is kept in thousandths, and geometric scores
//! are scaled by 1000 inside the key, so the fused key is an exact
//! integer: `key = score * 1000 - freq * pop_weight`.  Ties on the key
//! are broken by dictionary order (the candidate's index), which makes
//! the ordering strict and the sorted result unique.

use vstd::prelude::*;

verus! {

/// The view of one surviving candidate:
/// (word, geometric score, frequency weight, dictionary index).
pub type CandView = (Seq<char>, int, int, int);

/// One surviving candidate during ranking.
pub struct Candidate {
    pub word: String,
    pub score: u64,
    pub freq: u64,
    pub idx: usize,
}

impl DeepView for Candidate {
    type V = CandView;

    open spec fn deep_view(&self) -> CandView {
        (self.word@, self.score as int, self.freq as int, self.idx as int)
    }
}

/// The fused ranking key, lower first: geometric cost scaled by 1000,
/// minus the frequency reward scaled by the popularity weight (in
/// thousandths).
pub open spec fn combined_key(score: int, freq: int, pw: int) -> int {
    score * 1000 - freq * pw
}

/// Strict ranking order: smaller fused key first, dictionary order as
/// the tie-break.
pub open spec fn cand_before(c1: CandView, c2: CandView, pw: int) -> bool {
    ||| combined_key(c1.1, c1.2, pw) < combined_key(c2.1, c2.2, pw)
    ||| (combined_key(c1.1, c1.2, pw) == combined_key(c2.1, c2.2, pw) && c1.3 < c2.3)
}

/// Insert `x` before the first element it ranks strictly before.
pub open spec fn insert_sorted(x: CandView, s: Seq<CandView>, pw: int) -> Seq<CandView>
    decreases s.len(),
{
    if s.len() == 0 {
        seq![x]
    } else if cand_before(x, s[0], pw) {
        seq![x] + s
    } else {
        seq![s[0]] + insert_sorted(x, s.drop_first(), pw)
    }
}

/// The candidates in ranking order: since later candidates carry larger
/// dictionary indices, inserting each behind its equals makes this the
/// stable ascending sort by the fused key.
pub open spec fn sort_spec(s: Seq<CandView>, pw: int) -> Seq<CandView>
    decreases s.len(),
{
    if s.len() == 0 {
        s
    } else {
        insert_sorted(s.last(), sort_spec(s.drop_last(), pw), pw)
    }
}

proof fn lemma_insert_sorted_at(x: CandView, s: Seq<CandView>, pw: int, p: int)
    requires
        0 <= p <= s.len(),
        forall|j: int| 0 <= j < p ==> !cand_before(x, s[j], pw),
        p < s.len() ==> cand_before(x, s[p], pw),
    ensures
        insert_sorted(x, s, pw) == s.take(p) + seq![x] + s.skip(p),
    decreases s.len(),
{
    if s.len() == 0 {
        assert(insert_sorted(x, s, pw) =~= s.take(p) + seq![x] + s.skip(p));
    } else if cand_before(x, s[0], pw) {
        assert(p == 0);
        assert(seq![x] + s =~= s.take(0) + seq![x] + s.skip(0));
    } else {
        assert(p >= 1);
        let rest = s.drop_first();
        assert(forall|j: int| 0 <= j < p - 1 ==> rest[j] == s[j + 1]);
        lemma_insert_sorted_at(x, rest, pw, p - 1);
        assert(seq![s[0]] + (rest.take(p - 1) + seq![x] + rest.skip(p - 1))
            =~= s.take(p) + seq![x] + s.skip(p));
    }
}

/// Sorting keeps the number of candidates.
pub proof fn lemma_insert_sorted_len(x: CandView, s: Seq<CandView>, pw: int)
    ensures
        insert_sorted(x, s, pw).len() == s.len() + 1,
    decreases s.len(),
{
    if s.len() > 0 && !cand_before(x, s[0], pw) {
        lemma_insert_sorted_len(x, s.drop_first(), pw);
    }
}

/// Sorting keeps the number of candidates.
pub proof fn lemma_sort_spec_len(s: Seq<CandView>, pw: int)
    ensures
        sort_spec(s, pw).len() == s.len(),
    decreases s.len(),
{
    if s.len() > 0 {
        lemma_sort_spec_len(s.drop_last(), pw);
        lemma_insert_sorted_len(s.last(), sort_spec(s.drop_last(), pw), pw);
    }
}

/// Ascending by the fused key: no element ranks strictly before an
/// earlier one.
pub open spec fn sorted_by_key(s: Seq<CandView>, pw: int) -> bool {
    forall|i: int, j: int| 0 <= i < j < s.len() ==> !cand_before(s[j], s[i], pw)
}

proof fn lemma_insert_sorted_elems(x: CandView, s: Seq<CandView>, pw: int)
    ensures
        forall|k: int| 0 <= k < insert_sorted(x, s, pw).len()
            ==> insert_sorted(x, s, pw)[k] == x || s.contains(insert_sorted(x, s, pw)[k]),
    decreases s.len(),
{
    let ins = insert_sorted(x, s, pw);
    if s.len() == 0 {
    } else if cand_before(x, s[0], pw) {
        assert(forall|k: int| 1 <= k < ins.len() ==> ins[k] == s[k - 1]);
    } else {
        let rest = s.drop_first();
        lemma_insert_sorted_elems(x, rest, pw);
        let ins2 = insert_sorted(x, rest, pw);
        assert forall|k: int| 0 <= k < ins.len() implies ins[k] == x || s.contains(ins[k]) by {
            if k == 0 {
                assert(s[0] == s[0] && s.contains(s[0]));
            } else {
                assert(ins[k] == ins2[k - 1]);
                if ins2[k - 1] != x {
                    let j = choose|j: int| 0 <= j < rest.len() && rest[j] == ins2[k - 1];
                    assert(s[j + 1] == rest[j]);
                }
            }
        }
    }
}

proof fn lemma_insert_sorted_preserves(x: CandView, s: Seq<CandView>, pw: int)
    requires
        sorted_by_key(s, pw),
    ensures
        sorted_by_key(insert_sorted(x, s, pw), pw),
    decreases s.len(),
{
    let ins = insert_sorted(x, s, pw);
    if s.len() == 0 {
    } else if cand_before(x, s[0], pw) {
        assert forall|i: int, j: int| 0 <= i < j < ins.len() implies !cand_before(
            ins[j],
            ins[i],
            pw,
        ) by {
            assert(ins[j] == s[j - 1]);
            if i > 0 {
                assert(ins[i] == s[i - 1]);
            } else {
                // a later element ranking before x would, by
                // transitivity through s[0], contradict sortedness
                if cand_before(s[j - 1], x, pw) {
                    assert(cand_before(s[j - 1], s[0], pw));
                    if j - 1 > 0 {
                        assert(!cand_before(s[j - 1], s[0], pw));
                    }
                }
            }
        }
    } else {
        let rest = s.drop_first();
        assert(forall|j: int| 0 <= j < rest.len() ==> rest[j] == s[j + 1]);
        lemma_insert_sorted_preserves(x, rest, pw);
        lemma_insert_sorted_elems(x, rest, pw);
        let ins2 = insert_sorted(x, rest, pw);
        assert forall|i: int, j: int| 0 <= i < j < ins.len() implies !cand_before(
            ins[j],
            ins[i],
            pw,
        ) by {
            assert(ins[j] == ins2[j - 1]);
            if i > 0 {
                assert(ins[i] == ins2[i - 1]);
            } else {
                assert(ins[0] == s[0]);
                if cand_before(ins2[j - 1], s[0], pw) {
                    if ins2[j - 1] == x {
                        assert(!cand_before(x, s[0], pw));
                    } else {
                        let e = ins2[j - 1];
                        let m = choose|m: int| 0 <= m < rest.len() && rest[m] == e;
                        assert(!cand_before(s[m + 1], s[0], pw));
                    }
                }
            }
        }
    }
}

/// The ranked sequence is ascending in the fused key: the best-scoring
/// candidate comes first, and among key ties the earlier dictionary
/// entry keeps its place.
pub proof fn lemma_sort_spec_sorted(s: Seq<CandView>, pw: int)
    ensures
        sorted_by_key(sort_spec(s, pw), pw),
    decreases s.len(),
{
    if s.len() > 0 {
        lemma_sort_spec_sorted(s.drop_last(), pw);
        lemma_insert_sorted_preserves(s.last(), sort_spec(s.drop_last(), pw), pw);
    }
}

/// Raising the popularity weight never demotes a higher-frequency
/// candidate below a rival with the same geometric score: whenever the
/// higher-frequency candidate ranks before the rival under weight
/// `pw1`, it still ranks before it under any larger weight `pw2`.
pub proof fn lemma_pop_weight_monotone(c1: CandView, c2: CandView, pw1: int, pw2: int)
    requires
        c1.1 == c2.1,
        c1.2 >= c2.2,
        0 <= pw1 <= pw2,
        cand_before(c1, c2, pw1),
    ensures
        cand_before(c1, c2, pw2),
{
    let d = c1.2 - c2.2;
    assert(d * pw2 >= d * pw1 && d * pw1 >= 0) by (nonlinear_arith)
        requires
            d >= 0,
            0 <= pw1 <= pw2,
    ;
    assert(combined_key(c1.1, c1.2, pw1) - combined_key(c2.1, c2.2, pw1) == 0 - d * pw1)
        by (nonlinear_arith)
        requires
            c1.1 == c2.1,
            d == c1.2 - c2.2,
    ;
    assert(combined_key(c1.1, c1.2, pw2) - combined_key(c2.1, c2.2, pw2) == 0 - d * pw2)
        by (nonlinear_arith)
        requires
            c1.1 == c2.1,
            d == c1.2 - c2.2,
    ;
}

/// Compare two candidates by the fused key, dictionary order breaking
/// ties.
fn cand_before_exec(a: &Candidate, b: &Candidate, pw: u32) -> (r: bool)
    ensures
        r == cand_before(a.deep_view(), b.deep_view(), pw as int),
{
    proof {
        assert((a.freq as i128 * pw as i128) >= 0 && (a.freq as i128 * pw as i128)
            < 0x1000000000000000000000000 && (b.freq as i128 * pw as i128) >= 0
            && (b.freq as i128 * pw as i128) < 0x1000000000000000000000000) by (nonlinear_arith)
            requires
                a.freq <= 0xFFFF_FFFF_FFFF_FFFFu64,
                b.freq <= 0xFFFF_FFFF_FFFF_FFFFu64,
                pw <= 0xFFFF_FFFFu32,
        ;
    }
    let ka: i128 = a.score as i128 * 1000 - a.freq as i128 * pw as i128;
    let kb: i128 = b.score as i128 * 1000 - b.freq as i128 * pw as i128;
    if ka < kb {
        true
    } else if ka == kb {
        a.idx < b.idx
    } else {
        false
    }
}

/// Sort the candidates ascending by the fused key, stably: candidates
/// with equal keys keep their dictionary order.
pub fn sort_candidates(cands: &Vec<Candidate>, pw: u32) -> (r: Vec<Candidate>)
    ensures
        r.deep_view() == sort_spec(cands.deep_view(), pw as int),
{
    let ghost cdv = cands.deep_view();
    proof {
        assert(cdv.take(0) =~= Seq::<CandView>::empty());
    }
    let n = cands.len();
    let mut r: Vec<Candidate> = Vec::new();
    let mut i: usize = 0;
    while i < n
        invariant
            i <= n,
            n == cands@.len(),
            cdv == cands.deep_view(),
            cdv.len() == n,
            r.deep_view() == sort_spec(cdv.take(i as int), pw as int),
        decreases n - i,
    {
        let c = Candidate {
            word: cands[i].word.clone(),
            score: cands[i].score,
            freq: cands[i].freq,
            idx: cands[i].idx,
        };
        let ghost cv = c.deep_view();
        assert(cv == cdv[i as int]);
        let ghost rdv = r.deep_view();
        let mut p: usize = 0;
        while p < r.len() && !cand_before_exec(&c, &r[p], pw)
            invariant
                p <= r@.len(),
                rdv == r.deep_view(),
                cv == c.deep_view(),
                forall|j: int| 0 <= j < p ==> !cand_before(cv, rdv[j], pw as int),
            decreases r@.len() - p,
        {
            p = p + 1;
        }
        proof {
            lemma_insert_sorted_at(cv, rdv, pw as int, p as int);
        }
        r.insert(p, c);
        proof {
            assert(r.deep_view() =~= rdv.take(p as int) + seq![cv] + rdv.skip(p as int));
            assert(cdv.take(i + 1 as int).drop_last() =~= cdv.take(i as int));
            assert(cdv.take(i + 1 as int).last() == cdv[i as int]);
        }
        i = i + 1;
    }
    proof {
        assert(cdv.take(n as int) =~= cdv);
    }
    r
}

} // verus!
