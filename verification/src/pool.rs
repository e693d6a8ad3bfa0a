//! The candidate pool: intersecting the posting lists of the known query
//! words.

use crate::index::{lemma_push_contains, strictly_inc, PostingsIndex};
use crate::model::{pool_of, windex_ok, word_known};
use crate::text::{views_of, words_of};
use vstd::prelude::*;

verus! {

/// Whether `x` occurs in `v`.
pub fn contains_usize(v: &Vec<usize>, x: usize) -> (r: bool)
    ensures
        r == v@.contains(x),
{
    let n: usize = v.len();
    let mut i: usize = 0;
    while i < n
        invariant
            n == v@.len(),
            i <= n,
            forall|k: int| 0 <= k < i ==> v@[k] != x,
        decreases n - i,
    {
        if v[i] == x {
            return true;
        }
        i = i + 1;
    }
    false
}

/// Copies a handle vector.
pub fn copy_usizes(v: &Vec<usize>) -> (r: Vec<usize>)
    ensures
        r@ == v@,
{
    let n: usize = v.len();
    let mut r: Vec<usize> = Vec::new();
    let mut i: usize = 0;
    while i < n
        invariant
            n == v@.len(),
            i <= n,
            r@ =~= v@.subrange(0, i as int),
        decreases n - i,
    {
        r.push(v[i]);
        i = i + 1;
    }
    proof {
        assert(r@ =~= v@);
    }
    r
}

/// The strictly increasing intersection of a strictly increasing list with
/// another list.
pub fn intersect_sorted(a: &Vec<usize>, b: &Vec<usize>) -> (out: Vec<usize>)
    requires
        strictly_inc(a@),
    ensures
        strictly_inc(out@),
        forall|x: usize| #[trigger] out@.contains(x) <==> (a@.contains(x) && b@.contains(x)),
{
    let n: usize = a.len();
    let mut out: Vec<usize> = Vec::new();
    let mut i: usize = 0;
    while i < n
        invariant
            n == a@.len(),
            i <= n,
            strictly_inc(a@),
            strictly_inc(out@),
            forall|x: usize|
                #[trigger] out@.contains(x) <==> (a@.take(i as int).contains(x) && b@.contains(
                    x,
                )),
        decreases n - i,
    {
        let x = a[i];
        proof {
            assert(a@.take(i + 1) =~= a@.take(i as int).push(x));
        }
        if contains_usize(b, x) {
            let ghost before = out@;
            proof {
                // Every element of `out` is an earlier element of `a`, so
                // strictly below `x`.
                assert forall|r: int| 0 <= r < before.len() implies before[r] < x by {
                    assert(before.contains(before[r]));
                    let k = choose|k: int| 0 <= k < i && #[trigger] a@.take(i as int)[k] == before[r];
                    assert(a@[k] == before[r]);
                }
            }
            out.push(x);
            proof {
                assert forall|y: usize| #[trigger] out@.contains(y) <==> (a@.take(
                    i + 1,
                ).contains(y) && b@.contains(y)) by {
                    lemma_push_contains(before, x, y);
                    lemma_push_contains(a@.take(i as int), x, y);
                    if y == x {
                        assert(a@.take(i + 1)[i as int] == x);
                    }
                }
            }
        } else {
            proof {
                assert forall|y: usize| #[trigger] out@.contains(y) <==> (a@.take(
                    i + 1,
                ).contains(y) && b@.contains(y)) by {
                    lemma_push_contains(a@.take(i as int), x, y);
                }
            }
        }
        i = i + 1;
    }
    proof {
        assert(a@.take(n as int) =~= a@);
    }
    out
}

/// Intersects the posting lists of the known query words into the
/// candidate pool.
pub(crate) fn compute_pool(
    wi: &PostingsIndex,
    known: &Vec<Vec<char>>,
    Ghost(corpus): Ghost<Seq<Seq<char>>>,
    Ghost(iseps): Ghost<Seq<char>>,
) -> (pool: Vec<usize>)
    requires
        windex_ok(*wi, corpus, iseps),
        known@.len() > 0,
        forall|k: int|
            0 <= k < known@.len() ==> word_known(corpus, iseps, #[trigger] known@[k]@),
    ensures
        strictly_inc(pool@),
        forall|x: usize|
            #[trigger] pool@.contains(x) <==> pool_of(corpus, iseps, views_of(known@)).contains(
                x as int,
            ),
        forall|q: int| 0 <= q < pool@.len() ==> (#[trigger] pool@[q] as int) < corpus.len(),
{
    let ghost kviews = views_of(known@);
    let mut pool: Vec<usize>;
    match wi.get(&known[0]) {
        Some(p0) => {
            pool = copy_usizes(p0);
        },
        None => {
            proof {
                assert(word_known(corpus, iseps, known@[0]@));
                assert(false);
            }
            pool = Vec::new();
        },
    }
    proof {
        assert forall|x: usize|
            #[trigger] pool@.contains(x) <==> ((x as int) < corpus.len() && forall|kk: int|
                0 <= kk < 1 ==> words_of(corpus[x as int], iseps).contains(
                    #[trigger] kviews[kk],
                )) by {
            assert(kviews[0] == known@[0]@);
            if pool@.contains(x) {
                assert(words_of(corpus[x as int], iseps).contains(kviews[0]));
            }
        }
    }
    let klen: usize = known.len();
    let mut k: usize = 1;
    while k < klen
        invariant
            windex_ok(*wi, corpus, iseps),
            klen == known@.len(),
            kviews == views_of(known@),
            forall|kk: int|
                0 <= kk < known@.len() ==> word_known(corpus, iseps, #[trigger] known@[kk]@),
            1 <= k <= klen,
            strictly_inc(pool@),
            forall|x: usize|
                #[trigger] pool@.contains(x) <==> ((x as int) < corpus.len() && forall|kk: int|
                    0 <= kk < k ==> words_of(corpus[x as int], iseps).contains(
                        #[trigger] kviews[kk],
                    )),
        decreases klen - k,
    {
        let ghost pool_before = pool@;
        match wi.get(&known[k]) {
            Some(pk) => {
                pool = intersect_sorted(&pool, pk);
                proof {
                    assert forall|x: usize|
                        #[trigger] pool@.contains(x) <==> ((x as int) < corpus.len() && forall|
                        kk: int|
                            0 <= kk < k + 1 ==> words_of(corpus[x as int], iseps).contains(
                                #[trigger] kviews[kk],
                            )) by {
                        assert(kviews[k as int] == known@[k as int]@);
                        if pool@.contains(x) {
                            assert(pool_before.contains(x));
                            assert(wi.posting(known@[k as int]@).contains(x));
                        } else {
                            if (x as int) < corpus.len() && forall|kk: int|
                                0 <= kk < k + 1 ==> words_of(corpus[x as int], iseps).contains(
                                    #[trigger] kviews[kk],
                                ) {
                                assert(words_of(corpus[x as int], iseps).contains(
                                    kviews[k as int],
                                ));
                                assert(wi.posting(known@[k as int]@).contains(x));
                                assert(pool_before.contains(x));
                                assert(false);
                            }
                        }
                    }
                }
            },
            None => {
                proof {
                    assert(word_known(corpus, iseps, known@[k as int]@));
                    assert(false);
                }
            },
        }
        k = k + 1;
    }
    proof {
        assert forall|x: usize|
            #[trigger] pool@.contains(x) <==> pool_of(corpus, iseps, kviews).contains(
            x as int,
        ) by {}
        assert forall|q: int| 0 <= q < pool@.len() implies (#[trigger] pool@[q] as int)
            < corpus.len() by {
            assert(pool@.contains(pool@[q]));
        }
    }
    pool
}

} // verus!
