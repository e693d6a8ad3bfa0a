//! Result ranking: qualifying handles ordered by score descending, item
//! length ascending, handle ascending, cut to the configured limit.

use crate::model::{asc_matching, corpus_of, insert_rank, ints_of, leq_rank, rank_take, sort_rank};
use vstd::prelude::*;

verus! {

/// Where [`insert_rank`] puts the new element: right before the first
/// element that does not precede it.
pub proof fn lemma_insert_rank_at(
    corpus: Seq<Seq<char>>,
    sc: Seq<int>,
    s: Seq<int>,
    x: int,
    pp: int,
)
    requires
        0 <= pp <= s.len(),
        forall|k: int| 0 <= k < pp ==> leq_rank(corpus, sc, #[trigger] s[k], x),
        pp < s.len() ==> !leq_rank(corpus, sc, s[pp], x),
    ensures
        insert_rank(corpus, sc, s, x) == s.take(pp) + seq![x] + s.skip(pp),
    decreases s.len(),
{
    if pp == 0 {
        if s.len() == 0 {
            assert(insert_rank(corpus, sc, s, x) =~= s.take(0) + seq![x] + s.skip(0));
        } else {
            assert(insert_rank(corpus, sc, s, x) =~= s.take(0) + seq![x] + s.skip(0));
        }
    } else {
        let d = s.drop_first();
        assert forall|k: int| 0 <= k < pp - 1 implies leq_rank(corpus, sc, #[trigger] d[k], x) by {
            assert(d[k] == s[k + 1]);
        }
        if pp - 1 < d.len() {
            assert(d[pp - 1] == s[pp]);
        }
        lemma_insert_rank_at(corpus, sc, d, x, pp - 1);
        assert(insert_rank(corpus, sc, s, x) == seq![s[0]] + insert_rank(corpus, sc, d, x));
        assert(seq![s[0]] + (d.take(pp - 1) + seq![x] + d.skip(pp - 1)) =~= s.take(pp) + seq![x]
            + s.skip(pp));
    }
}

/// Decides the result order for two handles, given their scores and
/// lengths.
fn rank_leq(
    sc: &Vec<usize>,
    lens: &Vec<usize>,
    a: usize,
    b: usize,
    Ghost(corpus): Ghost<Seq<Seq<char>>>,
) -> (r: bool)
    requires
        sc@.len() == corpus.len(),
        lens@.len() == corpus.len(),
        forall|h: int| 0 <= h < corpus.len() ==> (#[trigger] lens@[h]) == corpus[h].len(),
        (a as int) < corpus.len(),
        (b as int) < corpus.len(),
    ensures
        r == leq_rank(corpus, ints_of(sc@), a as int, b as int),
{
    if sc[a] > sc[b] {
        true
    } else if sc[a] == sc[b] {
        if lens[a] < lens[b] {
            true
        } else if lens[a] == lens[b] {
            a <= b
        } else {
            false
        }
    } else {
        false
    }
}

/// The character lengths of the items.
pub(crate) fn item_lens(items: &Vec<String>) -> (lens: Vec<usize>)
    ensures
        lens@.len() == corpus_of(items@).len(),
        forall|h: int|
            0 <= h < corpus_of(items@).len() ==> (#[trigger] lens@[h]) == corpus_of(
                items@,
            )[h].len(),
{
    let n: usize = items.len();
    let mut lens: Vec<usize> = Vec::new();
    let mut h: usize = 0;
    while h < n
        invariant
            n == items@.len(),
            h <= n,
            lens@.len() == h,
            forall|q: int| 0 <= q < h ==> (#[trigger] lens@[q]) == items@[q]@.len(),
        decreases n - h,
    {
        lens.push(items[h].as_str().unicode_len());
        h = h + 1;
    }
    lens
}

/// Collects the handles whose score reaches `ms`, sorted by the result
/// order, cut to `limit`.
pub(crate) fn rank_take_exec(items: &Vec<String>, sc: &Vec<usize>, ms: usize, limit: usize) -> (out:
    Vec<usize>)
    requires
        sc@.len() == corpus_of(items@).len(),
    ensures
        ints_of(out@) == rank_take(corpus_of(items@), ints_of(sc@), ms as int, limit as int),
        forall|q: int| 0 <= q < out@.len() ==> (#[trigger] out@[q] as int) < items@.len(),
{
    let ghost corpus = corpus_of(items@);
    let ghost gsc = ints_of(sc@);
    let lens = item_lens(items);
    let n: usize = sc.len();
    let mut out: Vec<usize> = Vec::new();
    let mut h: usize = 0;
    proof {
        assert(asc_matching(gsc, ms as int, 0) =~= Seq::<int>::empty());
        assert(ints_of(out@) =~= sort_rank(corpus, gsc, asc_matching(gsc, ms as int, 0)));
    }
    while h < n
        invariant
            corpus == corpus_of(items@),
            gsc == ints_of(sc@),
            n == sc@.len(),
            n == corpus.len(),
            lens@.len() == corpus.len(),
            forall|q: int| 0 <= q < corpus.len() ==> (#[trigger] lens@[q]) == corpus[q].len(),
            h <= n,
            ints_of(out@) == sort_rank(corpus, gsc, asc_matching(gsc, ms as int, h as int)),
            forall|q: int| 0 <= q < out@.len() ==> (#[trigger] out@[q] as int) < corpus.len(),
        decreases n - h,
    {
        if sc[h] >= ms {
            let ghost cands = asc_matching(gsc, ms as int, h as int);
            let ghost sorted = sort_rank(corpus, gsc, cands);
            proof {
                assert(asc_matching(gsc, ms as int, h + 1) =~= cands.push(h as int));
                assert(cands.push(h as int).drop_last() =~= cands);
                assert(sort_rank(corpus, gsc, cands.push(h as int)) == insert_rank(
                    corpus,
                    gsc,
                    sorted,
                    h as int,
                ));
            }
            // Find the insertion point: the first element that does not
            // precede h in the result order.
            let olen: usize = out.len();
            let mut pp: usize = 0;
            while pp < olen && rank_leq(sc, &lens, out[pp], h, Ghost(corpus))
                invariant
                    corpus == corpus_of(items@),
                    gsc == ints_of(sc@),
                    n == sc@.len(),
                    n == corpus.len(),
                    lens@.len() == corpus.len(),
                    forall|q: int|
                        0 <= q < corpus.len() ==> (#[trigger] lens@[q]) == corpus[q].len(),
                    h < n,
                    olen == out@.len(),
                    pp <= olen,
                    forall|q: int| 0 <= q < out@.len() ==> (#[trigger] out@[q] as int) < corpus.len(),
                    forall|k: int|
                        0 <= k < pp ==> leq_rank(corpus, gsc, #[trigger] ints_of(out@)[k], h as int),
                decreases olen - pp,
            {
                proof {
                    assert(ints_of(out@)[pp as int] == out@[pp as int] as int);
                }
                pp = pp + 1;
            }
            proof {
                if pp < olen {
                    assert(ints_of(out@)[pp as int] == out@[pp as int] as int);
                }
                lemma_insert_rank_at(corpus, gsc, ints_of(out@), h as int, pp as int);
            }
            let ghost out_before = out@;
            out.insert(pp, h);
            proof {
                assert(ints_of(out@) =~= ints_of(out_before).take(pp as int) + seq![h as int]
                    + ints_of(out_before).skip(pp as int));
            }
        } else {
            proof {
                assert(asc_matching(gsc, ms as int, h + 1) =~= asc_matching(gsc, ms as int, h as int));
            }
        }
        h = h + 1;
    }
    // Cut to the limit.
    if out.len() > limit {
        let ghost before = out@;
        out.truncate(limit);
        proof {
            assert(out@ =~= before.take(limit as int));
            assert(ints_of(out@) =~= ints_of(before).take(limit as int));
        }
    }
    proof {
        assert(ints_of(out@) =~= rank_take(corpus, gsc, ms as int, limit as int));
    }
    out
}

} // verus!
