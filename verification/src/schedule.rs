//! The trigram scheduler: probes a bounded, deterministic set of trigram
//! positions over the unknown query words and accumulates scores.

use crate::index::{strictly_inc, PostingsIndex};
use crate::model::{
    bump, ints_of, item_has_trigram, sched_pos, sched_step, run_sched, tindex_ok, trigram_known,
    ScoreState,
};
use crate::text::{views_of, word_in};
use vstd::prelude::*;

verus! {

/// The set of trigram views held by the visited list.
pub open spec fn set_of_views(vv: Seq<Vec<char>>) -> Set<Seq<char>> {
    Set::new(|t: Seq<char>| views_of(vv).contains(t))
}

/// A scheduler with no budget left does nothing more.
pub proof fn lemma_run_stuck(
    corpus: Seq<Seq<char>>,
    seps: Seq<char>,
    pool_mode: bool,
    min_len: int,
    unknown: Seq<Seq<char>>,
    budget: int,
    round: int,
    widx: int,
    st: ScoreState,
)
    requires
        st.budget_left <= 0,
    ensures
        run_sched(corpus, seps, pool_mode, min_len, unknown, budget, round, widx, st) == st,
    decreases budget - round, unknown.len() - widx,
{
    if round < 0 || widx < 0 || round >= budget {
    } else if widx >= unknown.len() {
        lemma_run_stuck(corpus, seps, pool_mode, min_len, unknown, budget, round + 1, 0, st);
    }
}

/// The scheduled probe position for a word of length `len` in `round`.
fn sched_pos_exec(round: usize, len: usize) -> (r: Option<usize>)
    requires
        3 <= len,
        round <= 20,
    ensures
        match r {
            Some(p) => sched_pos(round as int, len as int) == Some(p as int) && p + 3 <= len,
            None => sched_pos(round as int, len as int) is None,
        },
{
    let max_pos = len - 3;
    if round == 0 {
        Some(0)
    } else if round == 1 {
        if max_pos > 0 {
            Some(max_pos)
        } else {
            None
        }
    } else if round == 2 {
        if max_pos > 1 {
            Some(max_pos / 2)
        } else {
            None
        }
    } else if max_pos > 2 {
        let mid = max_pos / 2;
        let offset = (round - 2) / 2;
        if round % 2 == 1 {
            if offset >= mid {
                None
            } else {
                let p = mid - offset;
                if p >= max_pos || p == mid {
                    None
                } else {
                    Some(p)
                }
            }
        } else {
            let p = mid + offset;
            if p >= max_pos || p == mid {
                None
            } else {
                Some(p)
            }
        }
    } else {
        None
    }
}

/// Applies one trigram hit to the dense score vector: every item of the
/// posting list is incremented, subject to the mode's membership rule.
fn apply_posting(
    sc: &mut Vec<usize>,
    posting: &Vec<usize>,
    pool_mode: bool,
    lens: &Vec<usize>,
    min_len: usize,
    Ghost(corpus): Ghost<Seq<Seq<char>>>,
    Ghost(gseps): Ghost<Seq<char>>,
    Ghost(t): Ghost<Seq<char>>,
    Ghost(hits): Ghost<int>,
)
    requires
        old(sc)@.len() == corpus.len(),
        lens@.len() == corpus.len(),
        forall|q: int| 0 <= q < corpus.len() ==> (#[trigger] lens@[q]) == corpus[q].len(),
        strictly_inc(posting@),
        forall|x: usize|
            #[trigger] posting@.contains(x) <==> (x as int) < corpus.len() && item_has_trigram(
                corpus,
                gseps,
                x as int,
                t,
            ),
        0 <= hits <= 20,
        forall|q: int| 0 <= q < corpus.len() ==> (#[trigger] old(sc)@[q] as int) <= 1 + hits,
    ensures
        final(sc)@.len() == corpus.len(),
        ints_of(final(sc)@) == bump(
            corpus,
            gseps,
            pool_mode,
            min_len as int,
            t,
            ints_of(old(sc)@),
        ),
        forall|q: int|
            0 <= q < corpus.len() ==> (#[trigger] final(sc)@[q] as int) <= (old(sc)@[q] as int)
                + 1,
{
    let ghost target = bump(corpus, gseps, pool_mode, min_len as int, t, ints_of(old(sc)@));
    let plen: usize = posting.len();
    let mut jj: usize = 0;
    while jj < plen
        invariant
            sc@.len() == corpus.len(),
            old(sc)@.len() == corpus.len(),
            lens@.len() == corpus.len(),
            forall|q: int| 0 <= q < corpus.len() ==> (#[trigger] lens@[q]) == corpus[q].len(),
            plen == posting@.len(),
            jj <= plen,
            strictly_inc(posting@),
            forall|x: usize|
                #[trigger] posting@.contains(x) <==> (x as int) < corpus.len() && item_has_trigram(
                    corpus,
                    gseps,
                    x as int,
                    t,
                ),
            forall|q: int| 0 <= q < corpus.len() ==> (#[trigger] old(sc)@[q] as int) <= 1 + hits,
            0 <= hits <= 20,
            target == bump(corpus, gseps, pool_mode, min_len as int, t, ints_of(old(sc)@)),
            forall|x: usize|
                (x as int) < corpus.len() ==> (#[trigger] sc@[x as int] as int) == if posting@.take(
                    jj as int,
                ).contains(x) {
                    target[x as int]
                } else {
                    old(sc)@[x as int] as int
                },
        decreases plen - jj,
    {
        let ghost sc_pre = sc@;
        let x = posting[jj];
        proof {
            assert(posting@.contains(posting@[jj as int]));
            if posting@.take(jj as int).contains(x) {
                let k = choose|k: int| 0 <= k < jj && #[trigger] posting@.take(jj as int)[k] == x;
                assert(posting@[k] == posting@[jj as int]);
                assert(false);
            }
            assert(posting@.take(jj + 1) =~= posting@.take(jj as int).push(x));
        }
        if pool_mode {
            if sc[x] > 0 {
                let v = sc[x];
                sc[x] = v + 1;
            }
        } else {
            if lens[x] >= min_len {
                let v = sc[x];
                sc[x] = v + 1;
            }
        }
        proof {
            assert forall|y: usize|
                (y as int) < corpus.len() implies (#[trigger] sc@[y as int] as int)
                == if posting@.take(jj + 1).contains(y) {
                target[y as int]
            } else {
                old(sc)@[y as int] as int
            } by {
                assert((sc_pre[y as int] as int) == if posting@.take(jj as int).contains(y) {
                    target[y as int]
                } else {
                    old(sc)@[y as int] as int
                });
                crate::index::lemma_push_contains(posting@.take(jj as int), x, y);
                if y == x {
                    assert(posting@.contains(x));
                    assert(ints_of(old(sc)@)[x as int] == old(sc)@[x as int] as int);
                }
            }
        }
        jj = jj + 1;
    }
    let nlen: usize = sc.len();
    proof {
        assert(corpus.len() <= usize::MAX);
        assert(posting@.take(plen as int) =~= posting@);
        assert forall|x: int| 0 <= x < corpus.len() implies ints_of(sc@)[x] == target[x] by {
            let xu = x as usize;
            assert(x == xu as int);
            assert((sc@[xu as int] as int) == if posting@.take(plen as int).contains(xu) {
                target[xu as int]
            } else {
                old(sc)@[xu as int] as int
            });
            if !posting@.take(plen as int).contains(xu) {
                assert(!posting@.contains(xu));
                assert(target[x] == ints_of(old(sc)@)[x]);
            }
            assert(ints_of(sc@)[x] == sc@[x] as int);
        }
        assert(ints_of(sc@) =~= target);
        assert forall|q: int|
            0 <= q < corpus.len() implies (#[trigger] sc@[q] as int) <= (old(sc)@[q] as int)
            + 1 by {
            assert(ints_of(sc@)[q] == target[q]);
        }
    }
}

/// Runs the trigram scheduler over the unknown words, mutating the dense
/// score vector and returning the number of trigram-index hits.
pub(crate) fn run_schedule_exec(
    ti: &PostingsIndex,
    lens: &Vec<usize>,
    unknown: &Vec<Vec<char>>,
    pool_mode: bool,
    min_len: usize,
    budget: usize,
    sc: &mut Vec<usize>,
    Ghost(corpus): Ghost<Seq<Seq<char>>>,
    Ghost(gseps): Ghost<Seq<char>>,
) -> (hits: usize)
    requires
        tindex_ok(*ti, corpus, gseps),
        budget <= 20,
        old(sc)@.len() == corpus.len(),
        forall|q: int| 0 <= q < corpus.len() ==> 0 <= (#[trigger] old(sc)@[q] as int) <= 1,
        lens@.len() == corpus.len(),
        forall|q: int| 0 <= q < corpus.len() ==> (#[trigger] lens@[q]) == corpus[q].len(),
        forall|k: int| 0 <= k < unknown@.len() ==> (#[trigger] unknown@[k]@.len()) >= 3,
    ensures
        final(sc)@.len() == corpus.len(),
        ({
            let st0 = ScoreState {
                budget_left: budget as int,
                visited: Set::empty(),
                hits: 0,
                scores: ints_of(old(sc)@),
            };
            let stf = run_sched(
                corpus,
                gseps,
                pool_mode,
                min_len as int,
                views_of(unknown@),
                budget as int,
                0,
                0,
                st0,
            );
            ints_of(final(sc)@) == stf.scores && hits as int == stf.hits
        }),
        hits <= budget,
{
    let ghost uviews = views_of(unknown@);
    let ghost st0 = ScoreState {
        budget_left: budget as int,
        visited: Set::empty(),
        hits: 0,
        scores: ints_of(old(sc)@),
    };
    let ghost stf = run_sched(
        corpus,
        gseps,
        pool_mode,
        min_len as int,
        uviews,
        budget as int,
        0,
        0,
        st0,
    );
    let wlen: usize = unknown.len();
    let mut visited: Vec<Vec<char>> = Vec::new();
    let mut budget_left: usize = budget;
    let mut hits: usize = 0;
    let mut round: usize = 0;
    let mut done: bool = false;
    proof {
        assert(set_of_views(visited@) =~= Set::<Seq<char>>::empty());
        let stc = ScoreState {
            budget_left: budget_left as int,
            visited: set_of_views(visited@),
            hits: hits as int,
            scores: ints_of(sc@),
        };
        assert(stc == st0);
    }
    while round < budget && !done
        invariant
            tindex_ok(*ti, corpus, gseps),
            budget <= 20,
            sc@.len() == corpus.len(),
            lens@.len() == corpus.len(),
            forall|q: int| 0 <= q < corpus.len() ==> (#[trigger] lens@[q]) == corpus[q].len(),
            forall|k: int| 0 <= k < unknown@.len() ==> (#[trigger] unknown@[k]@.len()) >= 3,
            wlen == unknown@.len(),
            uviews == views_of(unknown@),
            round <= budget,
            budget_left <= budget,
            hits + budget_left <= budget,
            forall|q: int| 0 <= q < corpus.len() ==> 0 <= (#[trigger] sc@[q] as int) <= 1 + hits,
            stf == run_sched(
                corpus,
                gseps,
                pool_mode,
                min_len as int,
                uviews,
                budget as int,
                round as int,
                0,
                ScoreState {
                    budget_left: budget_left as int,
                    visited: set_of_views(visited@),
                    hits: hits as int,
                    scores: ints_of(sc@),
                },
            ),
            done ==> budget_left == 0,
            done ==> stf == (ScoreState {
                budget_left: budget_left as int,
                visited: set_of_views(visited@),
                hits: hits as int,
                scores: ints_of(sc@),
            }),
        decreases budget - round + if done {
            0int
        } else {
            1int
        },
    {
        let mut widx: usize = 0;
        while widx < wlen && !done
            invariant
                tindex_ok(*ti, corpus, gseps),
                budget <= 20,
                sc@.len() == corpus.len(),
                lens@.len() == corpus.len(),
                forall|q: int| 0 <= q < corpus.len() ==> (#[trigger] lens@[q]) == corpus[q].len(),
                forall|k: int|
                    0 <= k < unknown@.len() ==> (#[trigger] unknown@[k]@.len()) >= 3,
                wlen == unknown@.len(),
                uviews == views_of(unknown@),
                round < budget,
                widx <= wlen,
                budget_left <= budget,
                hits + budget_left <= budget,
                forall|q: int|
                    0 <= q < corpus.len() ==> 0 <= (#[trigger] sc@[q] as int) <= 1 + hits,
                stf == run_sched(
                    corpus,
                    gseps,
                    pool_mode,
                    min_len as int,
                    uviews,
                    budget as int,
                    round as int,
                    widx as int,
                    ScoreState {
                        budget_left: budget_left as int,
                        visited: set_of_views(visited@),
                        hits: hits as int,
                        scores: ints_of(sc@),
                    },
                ),
                done ==> budget_left == 0,
                done ==> stf == (ScoreState {
                    budget_left: budget_left as int,
                    visited: set_of_views(visited@),
                    hits: hits as int,
                    scores: ints_of(sc@),
                }),
            decreases wlen - widx + if done {
                0int
            } else {
                1int
            },
        {
            let ghost stc = ScoreState {
                budget_left: budget_left as int,
                visited: set_of_views(visited@),
                hits: hits as int,
                scores: ints_of(sc@),
            };
            if budget_left == 0 {
                done = true;
                proof {
                    assert(stf == stc);
                }
            } else {
                let word = &unknown[widx];
                let wl = word.len();
                proof {
                    assert(uviews[widx as int] == unknown@[widx as int]@);
                }
                match sched_pos_exec(round, wl) {
                    None => {
                        proof {
                            let st2 = sched_step(
                                corpus,
                                gseps,
                                pool_mode,
                                min_len as int,
                                uviews[widx as int],
                                round as int,
                                stc,
                            );
                            assert(st2 == stc);
                        }
                    },
                    Some(p) => {
                        let mut tv: Vec<char> = Vec::new();
                        tv.push(word[p]);
                        tv.push(word[p + 1]);
                        tv.push(word[p + 2]);
                        let ghost t = uviews[widx as int].subrange(p as int, p as int + 3);
                        proof {
                            assert(tv@ =~= t);
                        }
                        if word_in(&visited, &tv) {
                            proof {
                                assert(stc.visited.contains(t));
                                let st2 = sched_step(
                                    corpus,
                                    gseps,
                                    pool_mode,
                                    min_len as int,
                                    uviews[widx as int],
                                    round as int,
                                    stc,
                                );
                                assert(st2 == stc);
                            }
                        } else {
                            proof {
                                assert(!stc.visited.contains(t));
                            }
                            let ghost visited_before = visited@;
                            let tv2 = crate::index::copy_chars(&tv);
                            visited.push(tv2);
                            budget_left = budget_left - 1;
                            proof {
                                assert forall|u: Seq<char>|
                                    set_of_views(visited@).contains(u) <==> (set_of_views(
                                    visited_before,
                                ).contains(u) || u == t) by {
                                    if views_of(visited@).contains(u) {
                                        let k = choose|k: int|
                                            0 <= k < visited@.len() && #[trigger] views_of(
                                                visited@,
                                            )[k] == u;
                                        if k < visited_before.len() {
                                            assert(views_of(visited_before)[k] == u);
                                        }
                                    }
                                    if views_of(visited_before).contains(u) {
                                        let k = choose|k: int|
                                            0 <= k < visited_before.len() && #[trigger] views_of(
                                                visited_before,
                                            )[k] == u;
                                        assert(views_of(visited@)[k] == u);
                                    }
                                    if u == t {
                                        assert(views_of(visited@)[visited_before.len() as int]
                                            == t);
                                    }
                                }
                                assert(set_of_views(visited@) =~= stc.visited.insert(t));
                            }
                            match ti.get(&tv) {
                                Some(pv) => {
                                    hits = hits + 1;
                                    proof {
                                        assert(ti.has_key(t));
                                        assert(trigram_known(corpus, gseps, t));
                                    }
                                    apply_posting(
                                        sc,
                                        pv,
                                        pool_mode,
                                        lens,
                                        min_len,
                                        Ghost(corpus),
                                        Ghost(gseps),
                                        Ghost(t),
                                        Ghost(hits as int - 1),
                                    );
                                    proof {
                                        let st2 = sched_step(
                                            corpus,
                                            gseps,
                                            pool_mode,
                                            min_len as int,
                                            uviews[widx as int],
                                            round as int,
                                            stc,
                                        );
                                        let stn = ScoreState {
                                            budget_left: budget_left as int,
                                            visited: set_of_views(visited@),
                                            hits: hits as int,
                                            scores: ints_of(sc@),
                                        };
                                        assert(st2 == stn);
                                    }
                                },
                                None => {
                                    proof {
                                        assert(!ti.has_key(t));
                                        assert(!trigram_known(corpus, gseps, t));
                                        let st2 = sched_step(
                                            corpus,
                                            gseps,
                                            pool_mode,
                                            min_len as int,
                                            uviews[widx as int],
                                            round as int,
                                            stc,
                                        );
                                        let stn = ScoreState {
                                            budget_left: budget_left as int,
                                            visited: set_of_views(visited@),
                                            hits: hits as int,
                                            scores: ints_of(sc@),
                                        };
                                        assert(st2 == stn);
                                    }
                                },
                            }
                        }
                    },
                }
                widx = widx + 1;
            }
        }
        if done {
            proof {
                let stc = ScoreState {
                    budget_left: budget_left as int,
                    visited: set_of_views(visited@),
                    hits: hits as int,
                    scores: ints_of(sc@),
                };
                lemma_run_stuck(
                    corpus,
                    gseps,
                    pool_mode,
                    min_len as int,
                    uviews,
                    budget as int,
                    round as int,
                    0,
                    stc,
                );
            }
        } else {
            proof {
                let stc = ScoreState {
                    budget_left: budget_left as int,
                    visited: set_of_views(visited@),
                    hits: hits as int,
                    scores: ints_of(sc@),
                };
                assert(run_sched(
                    corpus,
                    gseps,
                    pool_mode,
                    min_len as int,
                    uviews,
                    budget as int,
                    round as int,
                    wlen as int,
                    stc,
                ) == run_sched(
                    corpus,
                    gseps,
                    pool_mode,
                    min_len as int,
                    uviews,
                    budget as int,
                    round as int + 1,
                    0,
                    stc,
                ));
            }
            round = round + 1;
        }
    }
    proof {
        if !done {
            let stc = ScoreState {
                budget_left: budget_left as int,
                visited: set_of_views(visited@),
                hits: hits as int,
                scores: ints_of(sc@),
            };
            assert(stf == stc);
        }
    }
    hits
}

} // verus!
