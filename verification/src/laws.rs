//! Engine-wide laws, stated and proved over the model of [`crate::model`].
//!
//! Each public proof function here states one behavioral guarantee of
//! [`query_spec`], and therefore — through the contract of
//! [`crate::engine::QuickMatch::matches`] — of the engine itself.

use crate::model::{
    asc_matching, bump, capped, init_scores, insert_rank, known_words, min_score_of, pool_of,
    query_spec, query_tokens, rank_take, run_sched, sched_step, sort_rank, unknown_words,
    word_known, ScoreState,
};
use crate::text::{normalize, trim_back, trim_front, words_of};
use vstd::prelude::*;

verus! {

/// Membership in a pushed integer sequence.
pub proof fn lemma_push_contains_int(s: Seq<int>, h: int, x: int)
    ensures
        s.push(h).contains(x) <==> (s.contains(x) || x == h),
{
    if s.contains(x) {
        let k = choose|k: int| 0 <= k < s.len() && s[k] == x;
        assert(s.push(h)[k] == x);
    }
    if x == h {
        assert(s.push(h)[s.len() as int] == x);
    }
    if s.push(h).contains(x) {
        let k = choose|k: int| 0 <= k < s.push(h).len() && s.push(h)[k] == x;
        if k < s.len() {
            assert(s[k] == x);
        }
    }
}

/// What [`asc_matching`] holds: exactly the handles below `n` whose score
/// reaches `ms`, each at most once.
pub proof fn lemma_asc_props(sc: Seq<int>, ms: int, n: int)
    ensures
        forall|y: int|
            #[trigger] asc_matching(sc, ms, n).contains(y) <==> (0 <= y < n && sc[y] >= ms),
        asc_matching(sc, ms, n).no_duplicates(),
    decreases n,
{
    if n <= 0 {
    } else {
        lemma_asc_props(sc, ms, n - 1);
        let prev = asc_matching(sc, ms, n - 1);
        let cur = asc_matching(sc, ms, n);
        if sc[n - 1] >= ms {
            assert(cur =~= prev.push(n - 1));
            assert forall|y: int| #[trigger] cur.contains(y) <==> (0 <= y < n && sc[y] >= ms) by {
                lemma_push_contains_int(prev, n - 1, y);
            }
            assert forall|i: int, j: int| 0 <= i < j < cur.len() implies cur[i] != cur[j] by {
                if j < cur.len() - 1 {
                    assert(prev[i] == cur[i] && prev[j] == cur[j]);
                } else {
                    assert(prev.contains(prev[i]));
                }
            }
        } else {
            assert(cur =~= prev);
        }
    }
}

/// Membership in [`insert_rank`]: the inserted element plus the old ones.
pub proof fn lemma_insert_rank_contains(
    corpus: Seq<Seq<char>>,
    sc: Seq<int>,
    s: Seq<int>,
    x: int,
    y: int,
)
    ensures
        insert_rank(corpus, sc, s, x).contains(y) <==> (s.contains(y) || y == x),
    decreases s.len(),
{
    let r = insert_rank(corpus, sc, s, x);
    if s.len() == 0 {
        assert(r =~= seq![x]);
        if r.contains(y) {
            assert(y == x);
        }
        if y == x {
            assert(r[0] == y);
        }
    } else if crate::model::leq_rank(corpus, sc, s[0], x) {
        lemma_insert_rank_contains(corpus, sc, s.drop_first(), x, y);
        let rr = insert_rank(corpus, sc, s.drop_first(), x);
        assert(r =~= seq![s[0]] + rr);
        if r.contains(y) {
            let k = choose|k: int| 0 <= k < r.len() && r[k] == y;
            if k == 0 {
                assert(s[0] == y);
            } else {
                assert(rr[k - 1] == y);
            }
        }
        if s.contains(y) {
            let k = choose|k: int| 0 <= k < s.len() && s[k] == y;
            if k == 0 {
                assert(r[0] == y);
            } else {
                assert(s.drop_first()[k - 1] == y);
                assert(s.drop_first().contains(y));
                assert(rr.contains(y));
                let k2 = choose|k2: int| 0 <= k2 < rr.len() && rr[k2] == y;
                assert(r[k2 + 1] == y);
            }
        }
        if y == x {
            assert(rr.contains(y));
            let k2 = choose|k2: int| 0 <= k2 < rr.len() && rr[k2] == y;
            assert(r[k2 + 1] == y);
        }
    } else {
        assert(r =~= seq![x] + s);
        if r.contains(y) {
            let k = choose|k: int| 0 <= k < r.len() && r[k] == y;
            if k > 0 {
                assert(s[k - 1] == y);
            }
        }
        if s.contains(y) {
            let k = choose|k: int| 0 <= k < s.len() && s[k] == y;
            assert(r[k + 1] == y);
        }
        if y == x {
            assert(r[0] == y);
        }
    }
}

/// [`insert_rank`] keeps a duplicate-free list duplicate-free when the new
/// element is fresh.
pub proof fn lemma_insert_rank_nodup(corpus: Seq<Seq<char>>, sc: Seq<int>, s: Seq<int>, x: int)
    requires
        s.no_duplicates(),
        !s.contains(x),
    ensures
        insert_rank(corpus, sc, s, x).no_duplicates(),
    decreases s.len(),
{
    let r = insert_rank(corpus, sc, s, x);
    if s.len() == 0 {
        assert(r =~= seq![x]);
    } else if crate::model::leq_rank(corpus, sc, s[0], x) {
        let d = s.drop_first();
        assert forall|k: int| 0 <= k < d.len() implies d[k] != x by {
            assert(s[k + 1] == d[k]);
        }
        assert(!d.contains(x));
        lemma_insert_rank_nodup(corpus, sc, d, x);
        let rr = insert_rank(corpus, sc, d, x);
        assert(r =~= seq![s[0]] + rr);
        assert forall|i: int, j: int| 0 <= i < j < r.len() implies r[i] != r[j] by {
            if i == 0 {
                assert(r[j] == rr[j - 1]);
                lemma_insert_rank_contains(corpus, sc, d, x, r[j]);
                assert(rr.contains(rr[j - 1]));
                if r[j] == s[0] {
                    if d.contains(s[0]) {
                        let k = choose|k: int| 0 <= k < d.len() && d[k] == s[0];
                        assert(s[k + 1] == s[0]);
                    }
                }
            } else {
                assert(r[i] == rr[i - 1] && r[j] == rr[j - 1]);
            }
        }
    } else {
        assert(r =~= seq![x] + s);
        assert forall|i: int, j: int| 0 <= i < j < r.len() implies r[i] != r[j] by {
            if i == 0 {
                assert(r[j] == s[j - 1]);
                assert(s.contains(s[j - 1]));
            } else {
                assert(r[i] == s[i - 1] && r[j] == s[j - 1]);
            }
        }
    }
}

/// Membership in [`sort_rank`]: exactly the elements of the input.
pub proof fn lemma_sort_rank_contains(corpus: Seq<Seq<char>>, sc: Seq<int>, s: Seq<int>, y: int)
    ensures
        sort_rank(corpus, sc, s).contains(y) <==> s.contains(y),
    decreases s.len(),
{
    if s.len() == 0 {
    } else {
        let d = s.drop_last();
        lemma_sort_rank_contains(corpus, sc, d, y);
        lemma_insert_rank_contains(corpus, sc, sort_rank(corpus, sc, d), s.last(), y);
        if s.contains(y) {
            let k = choose|k: int| 0 <= k < s.len() && s[k] == y;
            if k < s.len() - 1 {
                assert(d[k] == y);
            }
        }
        if d.contains(y) {
            let k = choose|k: int| 0 <= k < d.len() && d[k] == y;
            assert(s[k] == y);
        }
        if y == s.last() {
            assert(s[s.len() - 1] == y);
        }
    }
}

/// [`sort_rank`] keeps a duplicate-free list duplicate-free.
pub proof fn lemma_sort_rank_nodup(corpus: Seq<Seq<char>>, sc: Seq<int>, s: Seq<int>)
    requires
        s.no_duplicates(),
    ensures
        sort_rank(corpus, sc, s).no_duplicates(),
    decreases s.len(),
{
    if s.len() > 0 {
        let d = s.drop_last();
        assert forall|i: int, j: int| 0 <= i < j < d.len() implies d[i] != d[j] by {
            assert(s[i] == d[i] && s[j] == d[j]);
        }
        lemma_sort_rank_nodup(corpus, sc, d);
        lemma_sort_rank_contains(corpus, sc, d, s.last());
        if d.contains(s.last()) {
            let k = choose|k: int| 0 <= k < d.len() && d[k] == s.last();
            assert(s[k] == s[s.len() - 1]);
        }
        lemma_insert_rank_nodup(corpus, sc, sort_rank(corpus, sc, d), s.last());
    }
}

/// Structural facts about a scheduler run: score-vector length is
/// preserved, the budget never goes negative, each hit consumes budget,
/// scores never decrease, and in open mode a positive score certifies the
/// length plausibility filter.
pub proof fn lemma_run_props(
    corpus: Seq<Seq<char>>,
    seps: Seq<char>,
    pool_mode: bool,
    min_len: int,
    unknown: Seq<Seq<char>>,
    budget: int,
    round: int,
    widx: int,
    st: ScoreState,
)
    requires
        st.scores.len() == corpus.len(),
        st.budget_left >= 0,
    ensures
        ({
            let stf = run_sched(
                corpus,
                seps,
                pool_mode,
                min_len,
                unknown,
                budget,
                round,
                widx,
                st,
            );
            &&& stf.scores.len() == corpus.len()
            &&& 0 <= stf.budget_left <= st.budget_left
            &&& stf.hits - st.hits <= st.budget_left - stf.budget_left
            &&& forall|h: int| 0 <= h < corpus.len() ==> #[trigger] stf.scores[h] >= st.scores[h]
            &&& (!pool_mode && (forall|h: int|
                0 <= h < corpus.len() && #[trigger] st.scores[h] > 0 ==> corpus[h].len()
                    >= min_len)) ==> (forall|h: int|
                0 <= h < corpus.len() && #[trigger] stf.scores[h] > 0 ==> corpus[h].len()
                    >= min_len)
        }),
    decreases budget - round, unknown.len() - widx,
{
    if round < 0 || widx < 0 || round >= budget {
    } else if widx >= unknown.len() {
        lemma_run_props(
            corpus,
            seps,
            pool_mode,
            min_len,
            unknown,
            budget,
            round + 1,
            0,
            st,
        );
    } else if st.budget_left <= 0 {
    } else {
        let st2 = sched_step(corpus, seps, pool_mode, min_len, unknown[widx], round, st);
        assert(st2.scores.len() == corpus.len() && st.budget_left - 1 <= st2.budget_left
            <= st.budget_left && st2.hits - st.hits <= st.budget_left - st2.budget_left && (forall|
            h: int,
        |
            0 <= h < corpus.len() ==> #[trigger] st2.scores[h] >= st.scores[h]) && ((!pool_mode
            && (forall|h: int|
            0 <= h < corpus.len() && #[trigger] st.scores[h] > 0 ==> corpus[h].len() >= min_len))
            ==> (forall|h: int|
            0 <= h < corpus.len() && #[trigger] st2.scores[h] > 0 ==> corpus[h].len()
                >= min_len)));
        lemma_run_props(
            corpus,
            seps,
            pool_mode,
            min_len,
            unknown,
            budget,
            round,
            widx + 1,
            st2,
        );
    }
}

/// When every token is known, the known list is the token list itself and
/// no token is eligible for trigram probing.
pub proof fn lemma_known_all(corpus: Seq<Seq<char>>, seps: Seq<char>, toks: Seq<Seq<char>>)
    requires
        forall|k: int| 0 <= k < toks.len() ==> word_known(corpus, seps, #[trigger] toks[k]),
    ensures
        known_words(corpus, seps, toks) == toks,
        unknown_words(corpus, seps, toks) == Seq::<Seq<char>>::empty(),
    decreases toks.len(),
{
    if toks.len() == 0 {
        assert(known_words(corpus, seps, toks) =~= toks);
    } else {
        let d = toks.drop_last();
        assert forall|k: int| 0 <= k < d.len() implies word_known(corpus, seps, #[trigger] d[k]) by {
            assert(d[k] == toks[k]);
        }
        lemma_known_all(corpus, seps, d);
        assert(toks.contains(toks.last())) by {
            assert(toks[toks.len() - 1] == toks.last());
        }
        assert(word_known(corpus, seps, toks.last()));
        assert(known_words(corpus, seps, toks) =~= d + seq![toks.last()]);
        assert(d + seq![toks.last()] =~= toks);
        assert(unknown_words(corpus, seps, toks) =~= Seq::<Seq<char>>::empty());
    }
}

/// When no token is known, the known list is empty.
pub proof fn lemma_known_none(corpus: Seq<Seq<char>>, seps: Seq<char>, toks: Seq<Seq<char>>)
    requires
        forall|k: int| 0 <= k < toks.len() ==> !word_known(corpus, seps, #[trigger] toks[k]),
    ensures
        known_words(corpus, seps, toks) == Seq::<Seq<char>>::empty(),
    decreases toks.len(),
{
    if toks.len() > 0 {
        let d = toks.drop_last();
        assert forall|k: int|
            0 <= k < d.len() implies !word_known(corpus, seps, #[trigger] d[k]) by {
            assert(d[k] == toks[k]);
        }
        lemma_known_none(corpus, seps, d);
        assert(known_words(corpus, seps, toks) =~= Seq::<Seq<char>>::empty());
    } else {
        assert(known_words(corpus, seps, toks) =~= Seq::<Seq<char>>::empty());
    }
}

/// Deterministic ordering: a query's answer is a pure function of the
/// engine and the query, so any two result lists that satisfy the
/// engine's contract for the same query hold the same texts in the same
/// order.
pub proof fn lemma_deterministic(
    corpus: Seq<Seq<char>>,
    qs: Seq<int>,
    r1: Seq<String>,
    r2: Seq<String>,
)
    requires
        crate::engine::results_match(corpus, qs, r1),
        crate::engine::results_match(corpus, qs, r2),
    ensures
        r1.len() == r2.len(),
        forall|i: int| 0 <= i < r1.len() ==> (#[trigger] r1[i]@) == r2[i]@,
{
    assert forall|i: int| 0 <= i < r1.len() implies (#[trigger] r1[i]@) == r2[i]@ by {
        assert(0 <= qs[i] < corpus.len());
    }
}

/// Budget bound: a scheduler run started with the full budget charges at
/// most `budget` fresh trigrams, so it performs at most `budget`
/// trigram-index lookups, and scores at most `budget` hits.
pub proof fn lemma_budget_bound(
    corpus: Seq<Seq<char>>,
    seps: Seq<char>,
    pool_mode: bool,
    min_len: int,
    unknown: Seq<Seq<char>>,
    budget: int,
    st0: ScoreState,
)
    requires
        st0.scores.len() == corpus.len(),
        st0.budget_left == budget,
        st0.hits == 0,
        budget >= 0,
    ensures
        ({
            let stf = run_sched(corpus, seps, pool_mode, min_len, unknown, budget, 0, 0, st0);
            &&& 0 <= stf.budget_left <= budget
            &&& stf.hits <= budget - stf.budget_left
            &&& stf.hits <= budget
        }),
{
    lemma_run_props(corpus, seps, pool_mode, min_len, unknown, budget, 0, 0, st0);
}

/// Empty-corpus law: an engine built from an empty item list answers every
/// query with the empty result.
pub proof fn lemma_empty_corpus(
    iseps: Seq<char>,
    qseps: Seq<char>,
    limit: int,
    budget: int,
    mql: int,
    mwl: int,
    mwc: int,
    q: Seq<char>,
)
    requires
        limit >= 0,
        budget >= 0,
    ensures
        query_spec(Seq::empty(), iseps, qseps, limit, budget, mql, mwl, mwc, q) == Seq::<
            int,
        >::empty(),
{
    let corpus = Seq::<Seq<char>>::empty();
    if q.len() == 0 || q.len() > mql {
    } else {
        let toks = query_tokens(normalize(q), qseps, mwl);
        if toks.len() == 0 || toks.len() > mwc {
        } else {
            assert forall|k: int|
                0 <= k < toks.len() implies !word_known(corpus, iseps, #[trigger] toks[k]) by {}
            lemma_known_none(corpus, iseps, toks);
            let unknown = capped(unknown_words(corpus, iseps, toks), budget);
            let gpool = pool_of(corpus, iseps, known_words(corpus, iseps, toks));
            let sc0 = init_scores(corpus, false, gpool);
            assert(sc0.len() == 0);
            if unknown.len() == 0 {
            } else {
                let ml = if q.len() >= 3 {
                    q.len() - 3
                } else {
                    0
                };
                let st0 = ScoreState {
                    budget_left: budget,
                    visited: Set::empty(),
                    hits: 0,
                    scores: sc0,
                };
                lemma_run_props(corpus, iseps, false, ml as int, unknown, budget, 0, 0, st0);
                let stf = run_sched(corpus, iseps, false, ml as int, unknown, budget, 0, 0, st0);
                assert(stf.scores.len() == 0);
                assert(asc_matching(stf.scores, min_score_of(stf.hits), 0)
                    =~= Seq::<int>::empty());
                assert(rank_take(corpus, stf.scores, min_score_of(stf.hits), limit) =~= Seq::<
                    int,
                >::empty());
            }
        }
    }
}

/// Monotone threshold: if an item cleared the half-the-hits threshold and
/// the item's score keeps pace with any further hits, the item still
/// clears the threshold. Raising the trigram budget can only add hits, and
/// an item present in every added hit keeps satisfying `min_score_of`.
pub proof fn lemma_threshold_monotone(s1: int, h1: int, s2: int, h2: int)
    requires
        0 <= h1 <= h2,
        s1 >= min_score_of(h1),
        s2 - s1 >= h2 - h1,
    ensures
        s2 >= min_score_of(h2),
{
}

/// No-duplicates: a query result lists each item handle at most once.
pub proof fn lemma_no_duplicates(
    corpus: Seq<Seq<char>>,
    iseps: Seq<char>,
    qseps: Seq<char>,
    limit: int,
    budget: int,
    mql: int,
    mwl: int,
    mwc: int,
    q: Seq<char>,
)
    requires
        limit >= 0,
    ensures
        query_spec(corpus, iseps, qseps, limit, budget, mql, mwl, mwc, q).no_duplicates(),
{
    let qs = query_spec(corpus, iseps, qseps, limit, budget, mql, mwl, mwc, q);
    if q.len() == 0 || q.len() > mql {
        assert(qs.no_duplicates());
    } else {
        let toks = query_tokens(normalize(q), qseps, mwl);
        if toks.len() == 0 || toks.len() > mwc {
            assert(qs.no_duplicates());
        } else {
            let known = known_words(corpus, iseps, toks);
            let unknown = capped(unknown_words(corpus, iseps, toks), budget);
            let pool_mode = known.len() > 0;
            let sc0 = init_scores(corpus, pool_mode, pool_of(corpus, iseps, known));
            if unknown.len() == 0 {
                if pool_mode {
                    lemma_rank_take_nodup(corpus, sc0, 1, limit);
                } else {
                    assert(qs.no_duplicates());
                }
            } else {
                let ml: int = if q.len() >= 3 {
                    q.len() - 3
                } else {
                    0
                };
                let st0 = ScoreState {
                    budget_left: budget,
                    visited: Set::empty(),
                    hits: 0,
                    scores: sc0,
                };
                let stf = run_sched(corpus, iseps, pool_mode, ml, unknown, budget, 0, 0, st0);
                lemma_rank_take_nodup(corpus, stf.scores, min_score_of(stf.hits), limit);
            }
        }
    }
}

/// A ranked, cut result lists each handle at most once.
pub proof fn lemma_rank_take_nodup(corpus: Seq<Seq<char>>, sc: Seq<int>, ms: int, limit: int)
    requires
        limit >= 0,
    ensures
        rank_take(corpus, sc, ms, limit).no_duplicates(),
{
    let cands = asc_matching(sc, ms, sc.len() as int);
    lemma_asc_props(sc, ms, sc.len() as int);
    lemma_sort_rank_nodup(corpus, sc, cands);
    let sorted = sort_rank(corpus, sc, cands);
    let out = rank_take(corpus, sc, ms, limit);
    assert(out == if sorted.len() > limit {
        sorted.take(limit)
    } else {
        sorted
    });
    if sorted.len() > limit {
        assert forall|i: int, j: int| 0 <= i < j < out.len() implies out[i] != out[j] by {
            assert(out[i] == sorted[i] && out[j] == sorted[j]);
        }
    }
}

/// Elements of a ranked, cut result are qualifying handles: in range, with
/// a score reaching the threshold.
pub proof fn lemma_rank_take_member(
    corpus: Seq<Seq<char>>,
    sc: Seq<int>,
    ms: int,
    limit: int,
    i: int,
)
    requires
        limit >= 0,
        sc.len() == corpus.len(),
        0 <= i < rank_take(corpus, sc, ms, limit).len(),
    ensures
        ({
            let y = rank_take(corpus, sc, ms, limit)[i];
            0 <= y < corpus.len() && sc[y] >= ms
        }),
{
    let cands = asc_matching(sc, ms, sc.len() as int);
    let sorted = sort_rank(corpus, sc, cands);
    let out = rank_take(corpus, sc, ms, limit);
    assert(out == if sorted.len() > limit {
        sorted.take(limit)
    } else {
        sorted
    });
    assert(out[i] == sorted[i]);
    assert(sorted.contains(sorted[i]));
    lemma_sort_rank_contains(corpus, sc, cands, sorted[i]);
    lemma_asc_props(sc, ms, sc.len() as int);
}

/// Pool purity: when every word of the query is known, every returned item
/// contains each query token as a whole word of its separator split.
pub proof fn lemma_pool_purity(
    corpus: Seq<Seq<char>>,
    iseps: Seq<char>,
    qseps: Seq<char>,
    limit: int,
    budget: int,
    mql: int,
    mwl: int,
    mwc: int,
    q: Seq<char>,
    i: int,
)
    requires
        limit >= 0,
        budget >= 0,
        forall|k: int|
            0 <= k < query_tokens(normalize(q), qseps, mwl).len() ==> word_known(
                corpus,
                iseps,
                #[trigger] query_tokens(normalize(q), qseps, mwl)[k],
            ),
        0 <= i < query_spec(corpus, iseps, qseps, limit, budget, mql, mwl, mwc, q).len(),
    ensures
        ({
            let y = query_spec(corpus, iseps, qseps, limit, budget, mql, mwl, mwc, q)[i];
            let toks = query_tokens(normalize(q), qseps, mwl);
            &&& 0 <= y < corpus.len()
            &&& forall|k: int|
                0 <= k < toks.len() ==> words_of(corpus[y], iseps).contains(#[trigger] toks[k])
        }),
{
    let qs = query_spec(corpus, iseps, qseps, limit, budget, mql, mwl, mwc, q);
    let toks = query_tokens(normalize(q), qseps, mwl);
    assert(!(q.len() == 0 || q.len() > mql));
    assert(!(toks.len() == 0 || toks.len() > mwc));
    lemma_known_all(corpus, iseps, toks);
    assert(capped(Seq::<Seq<char>>::empty(), budget) =~= Seq::<Seq<char>>::empty());
    let gpool = pool_of(corpus, iseps, toks);
    let sc0 = init_scores(corpus, true, gpool);
    assert(qs == rank_take(corpus, sc0, 1, limit));
    lemma_rank_take_member(corpus, sc0, 1, limit, i);
    let y = qs[i];
    assert(sc0[y] >= 1);
    assert(gpool.contains(y));
}

/// Length plausibility: when no word of the query is known (open mode),
/// every returned item is at least three characters shorter than the raw
/// query, never more.
pub proof fn lemma_open_mode_length(
    corpus: Seq<Seq<char>>,
    iseps: Seq<char>,
    qseps: Seq<char>,
    limit: int,
    budget: int,
    mql: int,
    mwl: int,
    mwc: int,
    q: Seq<char>,
    i: int,
)
    requires
        limit >= 0,
        budget >= 0,
        forall|k: int|
            0 <= k < query_tokens(normalize(q), qseps, mwl).len() ==> !word_known(
                corpus,
                iseps,
                #[trigger] query_tokens(normalize(q), qseps, mwl)[k],
            ),
        0 <= i < query_spec(corpus, iseps, qseps, limit, budget, mql, mwl, mwc, q).len(),
    ensures
        ({
            let y = query_spec(corpus, iseps, qseps, limit, budget, mql, mwl, mwc, q)[i];
            0 <= y < corpus.len() && corpus[y].len() >= q.len() - 3
        }),
{
    let qs = query_spec(corpus, iseps, qseps, limit, budget, mql, mwl, mwc, q);
    let toks = query_tokens(normalize(q), qseps, mwl);
    assert(!(q.len() == 0 || q.len() > mql));
    assert(!(toks.len() == 0 || toks.len() > mwc));
    lemma_known_none(corpus, iseps, toks);
    let unknown = capped(unknown_words(corpus, iseps, toks), budget);
    let gpool = pool_of(corpus, iseps, Seq::<Seq<char>>::empty());
    let sc0 = init_scores(corpus, false, gpool);
    assert(unknown.len() != 0);
    let ml: int = if q.len() >= 3 {
        q.len() - 3
    } else {
        0
    };
    let st0 = ScoreState { budget_left: budget, visited: Set::empty(), hits: 0, scores: sc0 };
    let stf = run_sched(corpus, iseps, false, ml, unknown, budget, 0, 0, st0);
    assert(forall|h: int| 0 <= h < corpus.len() ==> #[trigger] sc0[h] == 0);
    lemma_run_props(corpus, iseps, false, ml, unknown, budget, 0, 0, st0);
    assert(qs == rank_take(corpus, stf.scores, min_score_of(stf.hits), limit));
    lemma_rank_take_member(corpus, stf.scores, min_score_of(stf.hits), limit, i);
    let y = qs[i];
    assert(stf.scores[y] >= min_score_of(stf.hits));
    assert(min_score_of(stf.hits) >= 1);
    assert(corpus[y].len() >= ml);
}


/// ASCII uppercasing of one character; other characters are unchanged.
pub open spec fn upper_char(c: char) -> char {
    if 'a' <= c && c <= 'z' {
        (((c as u8) - 32) as char)
    } else {
        c
    }
}

/// ASCII uppercasing of a character sequence.
pub open spec fn upper_chars(s: Seq<char>) -> Seq<char> {
    Seq::new(s.len(), |i: int| upper_char(s[i]))
}

/// Uppercasing commutes with the per-character normalization facts:
/// lowercase folding undoes it, and whitespace and ASCII class are
/// unchanged.
pub proof fn lemma_upper_char(c: char)
    ensures
        crate::text::lower_char(upper_char(c)) == crate::text::lower_char(c),
        crate::text::is_ws(upper_char(c)) == crate::text::is_ws(c),
        crate::text::is_ascii_char(upper_char(c)) == crate::text::is_ascii_char(c),
{
    if 'a' <= c && c <= 'z' {
        assert(97 <= c as u8 <= 122);
        let u = ((c as u8) - 32) as char;
        assert(65 <= u as u8 <= 90);
        assert('A' <= u && u <= 'Z');
        assert(((u as u8) + 32) as char == c);
    }
}


/// Every character is whitespace.
pub open spec fn all_ws(s: Seq<char>) -> bool {
    forall|k: int| 0 <= k < s.len() ==> crate::text::is_ws(#[trigger] s[k])
}

/// Every character is outside ASCII.
pub open spec fn all_non_ascii(s: Seq<char>) -> bool {
    forall|k: int| 0 <= k < s.len() ==> !crate::text::is_ascii_char(#[trigger] s[k])
}

/// Front trimming commutes with uppercasing.
pub proof fn lemma_trim_front_upper(s: Seq<char>)
    ensures
        trim_front(upper_chars(s)) == upper_chars(trim_front(s)),
    decreases s.len(),
{
    let u = upper_chars(s);
    if s.len() > 0 {
        lemma_upper_char(s[0]);
        if crate::text::is_ws(s[0]) {
            lemma_trim_front_upper(s.drop_first());
            assert(u.drop_first() =~= upper_chars(s.drop_first()));
        } else {
            assert(trim_front(u) == u);
        }
    } else {
        assert(u =~= s);
    }
}

/// Back trimming commutes with uppercasing.
pub proof fn lemma_trim_back_upper(s: Seq<char>)
    ensures
        trim_back(upper_chars(s)) == upper_chars(trim_back(s)),
    decreases s.len(),
{
    let u = upper_chars(s);
    if s.len() > 0 {
        lemma_upper_char(s.last());
        assert(u.last() == upper_char(s.last()));
        if crate::text::is_ws(s.last()) {
            lemma_trim_back_upper(s.drop_last());
            assert(u.drop_last() =~= upper_chars(s.drop_last()));
        } else {
            assert(trim_back(u) == u);
        }
    } else {
        assert(u =~= s);
    }
}

/// Lowercase folding with the ASCII filter undoes uppercasing.
pub proof fn lemma_norm_upper(s: Seq<char>)
    ensures
        crate::text::norm_chars(upper_chars(s)) == crate::text::norm_chars(s),
    decreases s.len(),
{
    let u = upper_chars(s);
    if s.len() > 0 {
        lemma_upper_char(s[0]);
        lemma_norm_upper(s.drop_first());
        assert(u.drop_first() =~= upper_chars(s.drop_first()));
        assert(crate::text::norm_chars(u) =~= crate::text::norm_chars(s));
    } else {
        assert(u =~= s);
    }
}

/// Query normalization ignores ASCII case.
pub proof fn lemma_normalize_upper(q: Seq<char>)
    ensures
        normalize(upper_chars(q)) == normalize(q),
{
    lemma_trim_front_upper(q);
    lemma_trim_back_upper(trim_front(q));
    lemma_norm_upper(trim_back(trim_front(q)));
}

/// Case normalization: uppercasing the query does not change the answer.
pub proof fn lemma_case_insensitive(
    corpus: Seq<Seq<char>>,
    iseps: Seq<char>,
    qseps: Seq<char>,
    limit: int,
    budget: int,
    mql: int,
    mwl: int,
    mwc: int,
    q: Seq<char>,
)
    ensures
        query_spec(corpus, iseps, qseps, limit, budget, mql, mwl, mwc, upper_chars(q))
            == query_spec(corpus, iseps, qseps, limit, budget, mql, mwl, mwc, q),
{
    lemma_normalize_upper(q);
    assert(upper_chars(q).len() == q.len());
}

/// A whitespace prefix vanishes under front trimming.
pub proof fn lemma_trim_front_ws_prefix(a: Seq<char>, s: Seq<char>)
    requires
        all_ws(a),
    ensures
        trim_front(a + s) == trim_front(s),
    decreases a.len(),
{
    if a.len() == 0 {
        assert(a + s =~= s);
    } else {
        assert((a + s)[0] == a[0]);
        assert((a + s).drop_first() =~= a.drop_first() + s);
        assert forall|k: int|
            0 <= k < a.drop_first().len() implies crate::text::is_ws(
            #[trigger] a.drop_first()[k],
        ) by {
            assert(a.drop_first()[k] == a[k + 1]);
        }
        lemma_trim_front_ws_prefix(a.drop_first(), s);
    }
}

/// A whitespace suffix vanishes under back trimming.
pub proof fn lemma_trim_back_ws_suffix(s: Seq<char>, b: Seq<char>)
    requires
        all_ws(b),
    ensures
        trim_back(s + b) == trim_back(s),
    decreases b.len(),
{
    if b.len() == 0 {
        assert(s + b =~= s);
    } else {
        assert((s + b).last() == b.last());
        assert((s + b).drop_last() =~= s + b.drop_last());
        assert forall|k: int|
            0 <= k < b.drop_last().len() implies crate::text::is_ws(
            #[trigger] b.drop_last()[k],
        ) by {
            assert(b.drop_last()[k] == b[k]);
        }
        lemma_trim_back_ws_suffix(s, b.drop_last());
    }
}

/// Front trimming of a concatenation: it either stops inside the first
/// part or discards it entirely.
pub proof fn lemma_trim_front_concat(a: Seq<char>, b: Seq<char>)
    ensures
        trim_front(a).len() > 0 ==> trim_front(a + b) == trim_front(a) + b,
        trim_front(a).len() == 0 ==> trim_front(a + b) == trim_front(b),
    decreases a.len(),
{
    if a.len() == 0 {
        assert(a + b =~= b);
    } else if crate::text::is_ws(a[0]) {
        assert((a + b)[0] == a[0]);
        assert((a + b).drop_first() =~= a.drop_first() + b);
        lemma_trim_front_concat(a.drop_first(), b);
    } else {
        assert((a + b)[0] == a[0]);
        assert(trim_front(a + b) == a + b);
        assert(trim_front(a) == a);
    }
}

/// Non-ASCII characters vanish under normalization's filter.
pub proof fn lemma_norm_non_ascii(s: Seq<char>)
    requires
        all_non_ascii(s),
    ensures
        crate::text::norm_chars(s) == Seq::<char>::empty(),
    decreases s.len(),
{
    if s.len() > 0 {
        assert forall|k: int|
            0 <= k < s.drop_first().len() implies !crate::text::is_ascii_char(
            #[trigger] s.drop_first()[k],
        ) by {
            assert(s.drop_first()[k] == s[k + 1]);
        }
        lemma_norm_non_ascii(s.drop_first());
        assert(crate::text::norm_chars(s) =~= Seq::<char>::empty());
    }
}

/// In pool mode the scheduler ignores the length plausibility bound.
pub proof fn lemma_run_pool_ml(
    corpus: Seq<Seq<char>>,
    seps: Seq<char>,
    ml1: int,
    ml2: int,
    unknown: Seq<Seq<char>>,
    budget: int,
    round: int,
    widx: int,
    st: ScoreState,
)
    ensures
        run_sched(corpus, seps, true, ml1, unknown, budget, round, widx, st) == run_sched(
            corpus,
            seps,
            true,
            ml2,
            unknown,
            budget,
            round,
            widx,
            st,
        ),
    decreases budget - round, unknown.len() - widx,
{
    if round < 0 || widx < 0 || round >= budget {
    } else if widx >= unknown.len() {
        lemma_run_pool_ml(corpus, seps, ml1, ml2, unknown, budget, round + 1, 0, st);
    } else if st.budget_left <= 0 {
    } else {
        let st1 = sched_step(corpus, seps, true, ml1, unknown[widx], round, st);
        let st2 = sched_step(corpus, seps, true, ml2, unknown[widx], round, st);
        assert forall|t: Seq<char>, s0: Seq<int>|
            bump(corpus, seps, true, ml1, t, s0) == bump(corpus, seps, true, ml2, t, s0) by {
            assert(bump(corpus, seps, true, ml1, t, s0) =~= bump(corpus, seps, true, ml2, t, s0));
        }
        assert(st1 == st2);
        lemma_run_pool_ml(corpus, seps, ml1, ml2, unknown, budget, round, widx + 1, st1);
    }
}

/// The whole query pipeline after the raw-length guard depends on the
/// query only through its normalization and its raw length.
pub proof fn lemma_query_spec_same_normal(
    corpus: Seq<Seq<char>>,
    iseps: Seq<char>,
    qseps: Seq<char>,
    limit: int,
    budget: int,
    mql: int,
    mwl: int,
    mwc: int,
    q1: Seq<char>,
    q2: Seq<char>,
)
    requires
        normalize(q1) == normalize(q2),
        0 < q1.len() <= mql,
        0 < q2.len() <= mql,
        known_words(corpus, iseps, query_tokens(normalize(q1), qseps, mwl)).len() > 0,
    ensures
        query_spec(corpus, iseps, qseps, limit, budget, mql, mwl, mwc, q1) == query_spec(
            corpus,
            iseps,
            qseps,
            limit,
            budget,
            mql,
            mwl,
            mwc,
            q2,
        ),
{
    let toks = query_tokens(normalize(q1), qseps, mwl);
    if toks.len() == 0 || toks.len() > mwc {
    } else {
        let unknown = capped(unknown_words(corpus, iseps, toks), budget);
        if unknown.len() == 0 {
        } else {
            let known = known_words(corpus, iseps, toks);
            let sc0 = init_scores(corpus, true, pool_of(corpus, iseps, known));
            let st0 = ScoreState {
                budget_left: budget,
                visited: Set::empty(),
                hits: 0,
                scores: sc0,
            };
            let ml1: int = if q1.len() >= 3 {
                q1.len() - 3
            } else {
                0
            };
            let ml2: int = if q2.len() >= 3 {
                q2.len() - 3
            } else {
                0
            };
            lemma_run_pool_ml(corpus, iseps, ml1, ml2, unknown, budget, 0, 0, st0);
        }
    }
}

/// Whitespace normalization: padding a query with whitespace does not
/// change the answer, as long as the padded query stays within the length
/// gate and the query has at least one known word (so that the raw-length
/// plausibility bound of open mode is not in play).
pub proof fn lemma_ws_padding(
    corpus: Seq<Seq<char>>,
    iseps: Seq<char>,
    qseps: Seq<char>,
    limit: int,
    budget: int,
    mql: int,
    mwl: int,
    mwc: int,
    q: Seq<char>,
    pre: Seq<char>,
    suf: Seq<char>,
)
    requires
        all_ws(pre),
        all_ws(suf),
        (pre + q + suf).len() <= mql,
        known_words(corpus, iseps, query_tokens(normalize(q), qseps, mwl)).len() > 0,
    ensures
        query_spec(corpus, iseps, qseps, limit, budget, mql, mwl, mwc, pre + q + suf)
            == query_spec(corpus, iseps, qseps, limit, budget, mql, mwl, mwc, q),
{
    let q2 = pre + q + suf;
    assert(pre + q + suf =~= pre + (q + suf));
    lemma_trim_front_ws_prefix(pre, q + suf);
    lemma_trim_front_concat(q, suf);
    if trim_front(q).len() > 0 {
        assert(trim_front(q2) == trim_front(q) + suf);
        lemma_trim_back_ws_suffix(trim_front(q), suf);
        assert(normalize(q2) == normalize(q));
    } else {
        assert(trim_front(q2) == trim_front(suf));
        lemma_trim_front_all_ws(suf);
        lemma_norm_empty_of_trim(q);
        assert(normalize(q2) == normalize(q));
    }
    if q.len() == 0 {
        lemma_tokens_of_empty(qseps, mwl);
        assert(known_words(corpus, iseps, query_tokens(normalize(q), qseps, mwl))
            =~= Seq::<Seq<char>>::empty());
    }
    lemma_query_spec_same_normal(corpus, iseps, qseps, limit, budget, mql, mwl, mwc, q2, q);
}

/// An all-whitespace sequence trims to nothing.
pub proof fn lemma_trim_front_all_ws(s: Seq<char>)
    requires
        all_ws(s),
    ensures
        trim_front(s) == Seq::<char>::empty(),
    decreases s.len(),
{
    if s.len() > 0 {
        assert forall|k: int|
            0 <= k < s.drop_first().len() implies crate::text::is_ws(
            #[trigger] s.drop_first()[k],
        ) by {
            assert(s.drop_first()[k] == s[k + 1]);
        }
        lemma_trim_front_all_ws(s.drop_first());
    } else {
        assert(s =~= Seq::<char>::empty());
    }
}

/// When front trimming leaves nothing, the query normalizes to nothing.
pub proof fn lemma_norm_empty_of_trim(q: Seq<char>)
    requires
        trim_front(q).len() == 0,
    ensures
        normalize(q) == Seq::<char>::empty(),
{
    assert(trim_front(q) =~= Seq::<char>::empty());
    assert(trim_back(trim_front(q)) =~= Seq::<char>::empty());
}

/// The empty query yields no tokens.
pub proof fn lemma_tokens_of_empty(qseps: Seq<char>, mwl: int)
    ensures
        query_tokens(normalize(Seq::empty()), qseps, mwl) == Seq::<Seq<char>>::empty(),
{
    assert(trim_front(Seq::<char>::empty()) =~= Seq::<char>::empty());
    assert(normalize(Seq::empty()) =~= Seq::<char>::empty());
    assert(words_of(Seq::<char>::empty(), qseps) =~= Seq::<Seq<char>>::empty());
    assert(query_tokens(normalize(Seq::empty()), qseps, mwl) =~= Seq::<Seq<char>>::empty());
}

/// Non-ASCII inertness: appending a non-ASCII suffix to a query does not
/// change the answer, as long as the suffixed query stays within the
/// length gate, the query carries no trailing whitespace, and the query
/// has at least one known word (so that the raw-length plausibility bound
/// of open mode is not in play).
pub proof fn lemma_non_ascii_inert(
    corpus: Seq<Seq<char>>,
    iseps: Seq<char>,
    qseps: Seq<char>,
    limit: int,
    budget: int,
    mql: int,
    mwl: int,
    mwc: int,
    q: Seq<char>,
    suf: Seq<char>,
)
    requires
        all_non_ascii(suf),
        (q + suf).len() <= mql,
        trim_back(trim_front(q)) == trim_front(q),
        known_words(corpus, iseps, query_tokens(normalize(q), qseps, mwl)).len() > 0,
    ensures
        query_spec(corpus, iseps, qseps, limit, budget, mql, mwl, mwc, q + suf) == query_spec(
            corpus,
            iseps,
            qseps,
            limit,
            budget,
            mql,
            mwl,
            mwc,
            q,
        ),
{
    let q2 = q + suf;
    if suf.len() == 0 {
        assert(q2 =~= q);
    } else {
        assert(!crate::text::is_ws(suf[0]));
        assert(!crate::text::is_ws(suf.last()));
        lemma_trim_front_concat(q, suf);
        if trim_front(q).len() > 0 {
            assert(trim_front(q2) == trim_front(q) + suf);
            assert((trim_front(q) + suf).last() == suf.last());
            assert(trim_back(trim_front(q) + suf) == trim_front(q) + suf);
            crate::text::lemma_norm_append(trim_front(q), suf);
            lemma_norm_non_ascii(suf);
            assert(crate::text::norm_chars(trim_front(q) + suf) =~= crate::text::norm_chars(
                trim_front(q),
            ));
            assert(normalize(q2) == normalize(q));
        } else {
            assert(trim_front(q2) == trim_front(suf));
            assert(trim_front(suf) == suf);
            assert(trim_back(suf) == suf);
            lemma_norm_non_ascii(suf);
            lemma_norm_empty_of_trim(q);
            assert(normalize(q2) == normalize(q));
        }
        if q.len() == 0 {
            lemma_tokens_of_empty(qseps, mwl);
            assert(known_words(corpus, iseps, query_tokens(normalize(q), qseps, mwl))
                =~= Seq::<Seq<char>>::empty());
        }
        lemma_query_spec_same_normal(corpus, iseps, qseps, limit, budget, mql, mwl, mwc, q2, q);
    }
}

} // verus!
