//! The mathematical model of the engine.
//!
//! Everything the engine promises is phrased over the functions in this
//! module: which words and trigrams the corpus holds, how a query is turned
//! into tokens, how the candidate pool and the trigram scores evolve, and in
//! which order results are returned. [`query_spec`] composes them into the
//! full answer of a query, as a pure function of the corpus, the
//! configuration, the frozen corpus statistics, and the query text.

use crate::index::{strictly_inc, PostingsIndex};
use crate::text::{normalize, words_of};
use vstd::prelude::*;

verus! {

/// The character sequences of a corpus of items.
pub open spec fn corpus_of(items: Seq<String>) -> Seq<Seq<char>> {
    Seq::new(items.len(), |i: int| items[i]@)
}

/// Whether some item of the corpus contains `w` as a whole word.
pub open spec fn word_known(corpus: Seq<Seq<char>>, seps: Seq<char>, w: Seq<char>) -> bool {
    exists|h: int| 0 <= h < corpus.len() && words_of(#[trigger] corpus[h], seps).contains(w)
}

/// Whether `t` occurs as a three-character window of `w`.
pub open spec fn has_window(w: Seq<char>, t: Seq<char>) -> bool {
    exists|p: int| 0 <= p && p + 3 <= w.len() && #[trigger] w.subrange(p, p + 3) == t
}

/// Whether item `h` has a word containing the trigram `t`.
pub open spec fn item_has_trigram(
    corpus: Seq<Seq<char>>,
    seps: Seq<char>,
    h: int,
    t: Seq<char>,
) -> bool {
    exists|w: Seq<char>|
        words_of(corpus[h], seps).contains(w) && #[trigger] has_window(w, t)
}

/// Whether some item of the corpus contains the trigram `t`.
pub open spec fn trigram_known(corpus: Seq<Seq<char>>, seps: Seq<char>, t: Seq<char>) -> bool {
    exists|h: int| 0 <= h < corpus.len() && item_has_trigram(corpus, seps, h, t)
}

/// The length of the longest item, in characters.
pub open spec fn max_item_len(corpus: Seq<Seq<char>>) -> int
    decreases corpus.len(),
{
    if corpus.len() == 0 {
        0
    } else {
        let r = max_item_len(corpus.drop_last());
        let l = corpus.last().len() as int;
        if l > r {
            l
        } else {
            r
        }
    }
}

/// The length of the longest item that has at least one word, in characters.
pub open spec fn max_worded_len(corpus: Seq<Seq<char>>, seps: Seq<char>) -> int
    decreases corpus.len(),
{
    if corpus.len() == 0 {
        0
    } else {
        let r = max_worded_len(corpus.drop_last(), seps);
        let l = if words_of(corpus.last(), seps).len() > 0 {
            corpus.last().len() as int
        } else {
            0
        };
        if l > r {
            l
        } else {
            r
        }
    }
}

/// A word index is correct for the corpus: it holds exactly the words of
/// the corpus, and under each word exactly the handles of the items whose
/// word split contains it, strictly ascending.
pub open spec fn windex_ok(wi: PostingsIndex, corpus: Seq<Seq<char>>, seps: Seq<char>) -> bool {
    &&& wi.slots_wf()
    &&& forall|w: Seq<char>| #[trigger] wi.has_key(w) <==> word_known(corpus, seps, w)
    &&& forall|w: Seq<char>| strictly_inc(#[trigger] wi.posting(w))
    &&& forall|w: Seq<char>, x: usize|
        #[trigger] wi.posting(w).contains(x) <==> (x as int) < corpus.len() && words_of(
            corpus[x as int],
            seps,
        ).contains(w)
}

/// A trigram index is correct for the corpus: it holds exactly the trigrams
/// of the corpus words, and under each trigram exactly the handles of the
/// items containing it, strictly ascending.
pub open spec fn tindex_ok(ti: PostingsIndex, corpus: Seq<Seq<char>>, seps: Seq<char>) -> bool {
    &&& ti.slots_wf()
    &&& forall|t: Seq<char>| #[trigger] ti.has_key(t) <==> trigram_known(corpus, seps, t)
    &&& forall|t: Seq<char>| strictly_inc(#[trigger] ti.posting(t))
    &&& forall|t: Seq<char>, x: usize|
        #[trigger] ti.posting(t).contains(x) <==> (x as int) < corpus.len() && item_has_trigram(
            corpus,
            seps,
            x as int,
            t,
        )
}

/// The query tokens drawn from the word sequence `ws`: words no longer than
/// `mwl`, first occurrence only, in order of appearance, accumulated onto
/// `acc`.
pub open spec fn collect_tokens(
    ws: Seq<Seq<char>>,
    i: int,
    acc: Seq<Seq<char>>,
    mwl: int,
) -> Seq<Seq<char>>
    decreases ws.len() - i,
{
    if i < 0 || i >= ws.len() {
        acc
    } else {
        let acc2 = if ws[i].len() <= mwl && !acc.contains(ws[i]) {
            acc.push(ws[i])
        } else {
            acc
        };
        collect_tokens(ws, i + 1, acc2, mwl)
    }
}

/// The tokens of a normalized query: its words, deduplicated in first-seen
/// order, words longer than `mwl` dropped.
pub open spec fn query_tokens(nq: Seq<char>, seps: Seq<char>, mwl: int) -> Seq<Seq<char>> {
    collect_tokens(words_of(nq, seps), 0, Seq::empty(), mwl)
}

/// The tokens present in the word index, in token order.
pub open spec fn known_words(
    corpus: Seq<Seq<char>>,
    seps: Seq<char>,
    toks: Seq<Seq<char>>,
) -> Seq<Seq<char>>
    decreases toks.len(),
{
    if toks.len() == 0 {
        Seq::empty()
    } else {
        known_words(corpus, seps, toks.drop_last()) + if word_known(corpus, seps, toks.last()) {
            seq![toks.last()]
        } else {
            Seq::empty()
        }
    }
}

/// The tokens absent from the word index and of length at least 3, in token
/// order: the words eligible for trigram probing.
pub open spec fn unknown_words(
    corpus: Seq<Seq<char>>,
    seps: Seq<char>,
    toks: Seq<Seq<char>>,
) -> Seq<Seq<char>>
    decreases toks.len(),
{
    if toks.len() == 0 {
        Seq::empty()
    } else {
        unknown_words(corpus, seps, toks.drop_last()) + if !word_known(
            corpus,
            seps,
            toks.last(),
        ) && toks.last().len() >= 3 {
            seq![toks.last()]
        } else {
            Seq::empty()
        }
    }
}

/// At most the first `budget` elements of `s`.
pub open spec fn capped(s: Seq<Seq<char>>, budget: int) -> Seq<Seq<char>> {
    if s.len() > budget {
        s.take(budget)
    } else {
        s
    }
}

/// The candidate pool: the handles of the items whose word split contains
/// every known query word.
pub open spec fn pool_of(corpus: Seq<Seq<char>>, seps: Seq<char>, known: Seq<Seq<char>>) -> Set<
    int,
> {
    Set::new(
        |h: int|
            0 <= h < corpus.len() && forall|k: int|
                0 <= k < known.len() ==> words_of(corpus[h], seps).contains(#[trigger] known[k]),
    )
}

/// The initial score of every item: 1 for pooled items in pool mode, else 0.
pub open spec fn init_scores(corpus: Seq<Seq<char>>, pool_mode: bool, pool: Set<int>) -> Seq<
    int,
> {
    Seq::new(
        corpus.len(),
        |h: int|
            if pool_mode && pool.contains(h) {
                1int
            } else {
                0int
            },
    )
}

/// One trigram hit applied to the scores. In pool mode only already-scored
/// (pooled) items are incremented; in open mode any item of plausible
/// length is.
pub open spec fn bump(
    corpus: Seq<Seq<char>>,
    seps: Seq<char>,
    pool_mode: bool,
    min_len: int,
    t: Seq<char>,
    sc: Seq<int>,
) -> Seq<int> {
    Seq::new(
        sc.len(),
        |h: int|
            sc[h] + if item_has_trigram(corpus, seps, h, t) && (if pool_mode {
                sc[h] > 0
            } else {
                corpus[h].len() >= min_len
            }) {
                1int
            } else {
                0int
            },
    )
}

/// The scratch state of the trigram scheduler.
pub struct ScoreState {
    /// Fresh trigrams that may still be charged.
    pub budget_left: int,
    /// Trigrams already charged (never charged twice).
    pub visited: Set<Seq<char>>,
    /// Charged trigrams that were present in the trigram index.
    pub hits: int,
    /// The per-handle scores.
    pub scores: Seq<int>,
}

/// The window start probed for a word of length `len` in round `round`:
/// head, tail, middle, then alternating around the middle; `None` when the
/// round yields no fresh position for this word.
pub open spec fn sched_pos(round: int, len: int) -> Option<int> {
    let max_pos = len - 3;
    if round == 0 {
        Some(0int)
    } else if round == 1 {
        if max_pos > 0 {
            Some(max_pos)
        } else {
            None
        }
    } else if round == 2 {
        if max_pos > 1 {
            Some(max_pos / 2)
        } else {
            None
        }
    } else if max_pos > 2 {
        let mid = max_pos / 2;
        let offset = (round - 2) / 2;
        let p = if round % 2 == 1 {
            mid - offset
        } else {
            mid + offset
        };
        if p <= 0 || p >= max_pos || p == mid {
            None
        } else {
            Some(p)
        }
    } else {
        None
    }
}

/// One (round, word) step of the scheduler: probe the scheduled position,
/// charge the budget for a fresh trigram, and score its posting list when
/// the trigram index holds it.
pub open spec fn sched_step(
    corpus: Seq<Seq<char>>,
    seps: Seq<char>,
    pool_mode: bool,
    min_len: int,
    word: Seq<char>,
    round: int,
    st: ScoreState,
) -> ScoreState {
    match sched_pos(round, word.len() as int) {
        Option::None => st,
        Option::Some(p) => {
            let t = word.subrange(p, p + 3);
            if st.visited.contains(t) {
                st
            } else {
                let st1 = ScoreState {
                    budget_left: st.budget_left - 1,
                    visited: st.visited.insert(t),
                    hits: st.hits,
                    scores: st.scores,
                };
                if trigram_known(corpus, seps, t) {
                    ScoreState {
                        budget_left: st1.budget_left,
                        visited: st1.visited,
                        hits: st1.hits + 1,
                        scores: bump(corpus, seps, pool_mode, min_len, t, st1.scores),
                    }
                } else {
                    st1
                }
            }
        },
    }
}

/// The scheduler run from round `round`, word `widx` on: round-major,
/// word-minor, stopping as soon as the budget is exhausted.
pub open spec fn run_sched(
    corpus: Seq<Seq<char>>,
    seps: Seq<char>,
    pool_mode: bool,
    min_len: int,
    unknown: Seq<Seq<char>>,
    budget: int,
    round: int,
    widx: int,
    st: ScoreState,
) -> ScoreState
    decreases budget - round, unknown.len() - widx,
{
    if round < 0 || widx < 0 || round >= budget {
        st
    } else if widx >= unknown.len() {
        run_sched(corpus, seps, pool_mode, min_len, unknown, budget, round + 1, 0, st)
    } else if st.budget_left <= 0 {
        st
    } else {
        run_sched(
            corpus,
            seps,
            pool_mode,
            min_len,
            unknown,
            budget,
            round,
            widx + 1,
            sched_step(corpus, seps, pool_mode, min_len, unknown[widx], round, st),
        )
    }
}

/// The score an item needs to be returned: half the trigram hits, rounded
/// up, and at least 1.
pub open spec fn min_score_of(hits: int) -> int {
    let c = (hits + 1) / 2;
    if c >= 1 {
        c
    } else {
        1
    }
}

/// The handles with score at least `ms` among `0 .. n`, ascending.
pub open spec fn asc_matching(sc: Seq<int>, ms: int, n: int) -> Seq<int>
    decreases n,
{
    if n <= 0 {
        Seq::empty()
    } else {
        asc_matching(sc, ms, n - 1) + if sc[n - 1] >= ms {
            seq![n - 1]
        } else {
            Seq::empty()
        }
    }
}

/// The result order: score descending, then item length ascending, then
/// handle ascending. A total order on handles, so results are fully
/// determined.
pub open spec fn leq_rank(corpus: Seq<Seq<char>>, sc: Seq<int>, a: int, b: int) -> bool {
    ||| sc[a] > sc[b]
    ||| (sc[a] == sc[b] && corpus[a].len() < corpus[b].len())
    ||| (sc[a] == sc[b] && corpus[a].len() == corpus[b].len() && a <= b)
}

/// `x` inserted into `s` before the first element that does not precede
/// `x` in the order [`leq_rank`].
pub open spec fn insert_rank(
    corpus: Seq<Seq<char>>,
    sc: Seq<int>,
    s: Seq<int>,
    x: int,
) -> Seq<int>
    decreases s.len(),
{
    if s.len() == 0 {
        seq![x]
    } else if leq_rank(corpus, sc, s[0], x) {
        seq![s[0]] + insert_rank(corpus, sc, s.drop_first(), x)
    } else {
        seq![x] + s
    }
}

/// Insertion sort of `s` under the order [`leq_rank`].
pub open spec fn sort_rank(corpus: Seq<Seq<char>>, sc: Seq<int>, s: Seq<int>) -> Seq<int>
    decreases s.len(),
{
    if s.len() == 0 {
        Seq::empty()
    } else {
        insert_rank(corpus, sc, sort_rank(corpus, sc, s.drop_last()), s.last())
    }
}

/// The ranked result: qualifying handles sorted by [`leq_rank`], cut to
/// `limit`.
pub open spec fn rank_take(corpus: Seq<Seq<char>>, sc: Seq<int>, ms: int, limit: int) -> Seq<
    int,
> {
    let sorted = sort_rank(corpus, sc, asc_matching(sc, ms, sc.len() as int));
    if sorted.len() > limit {
        sorted.take(limit)
    } else {
        sorted
    }
}

/// The integer views of a vector of scores.
pub open spec fn ints_of(s: Seq<usize>) -> Seq<int> {
    Seq::new(s.len(), |i: int| s[i] as int)
}

/// The full answer of a query, as a sequence of item handles.
///
/// `iseps` are the separators the indexes were built with; `qseps` the
/// separators of the configuration the query runs under (the same set,
/// unless a caller passes a different configuration at query time).
/// `mql`, `mwl` and `mwc` are the frozen corpus statistics.
pub open spec fn query_spec(
    corpus: Seq<Seq<char>>,
    iseps: Seq<char>,
    qseps: Seq<char>,
    limit: int,
    budget: int,
    mql: int,
    mwl: int,
    mwc: int,
    q: Seq<char>,
) -> Seq<int> {
    if q.len() == 0 || q.len() > mql {
        Seq::empty()
    } else {
        let toks = query_tokens(normalize(q), qseps, mwl);
        if toks.len() == 0 || toks.len() > mwc {
            Seq::empty()
        } else {
            let known = known_words(corpus, iseps, toks);
            let unknown = capped(unknown_words(corpus, iseps, toks), budget);
            let pool_mode = known.len() > 0;
            let sc0 = init_scores(corpus, pool_mode, pool_of(corpus, iseps, known));
            if unknown.len() == 0 {
                if pool_mode {
                    rank_take(corpus, sc0, 1, limit)
                } else {
                    Seq::empty()
                }
            } else {
                let st0 = ScoreState {
                    budget_left: budget,
                    visited: Set::empty(),
                    hits: 0,
                    scores: sc0,
                };
                let st = run_sched(
                    corpus,
                    iseps,
                    pool_mode,
                    if q.len() >= 3 {
                        q.len() - 3
                    } else {
                        0
                    },
                    unknown,
                    budget,
                    0,
                    0,
                    st0,
                );
                rank_take(corpus, st.scores, min_score_of(st.hits), limit)
            }
        }
    }
}

} // verus!
