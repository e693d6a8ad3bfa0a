//! The match engine: one-shot index construction and queries.

use crate::config::QuickMatchConfig;
use crate::index::{
    lemma_push_contains, lemma_sorted_last, strictly_inc, PostingsIndex,
};
use crate::model::{
    capped, collect_tokens, corpus_of, has_window, init_scores, ints_of, item_has_trigram,
    known_words, max_item_len, max_worded_len, min_score_of, pool_of, query_spec, query_tokens,
    rank_take, run_sched, tindex_ok, trigram_known, unknown_words, windex_ok, word_known,
    ScoreState,
};
use crate::pool::compute_pool;
use crate::rank::{item_lens, rank_take_exec};
use crate::schedule::run_schedule_exec;
use crate::text::{chars_of, normalize, normalize_chars, split_words, views_of, word_in, words_of};
use vstd::prelude::*;

verus! {

/// Trigrams occurring in the first `j` words of `wsv`.
pub open spec fn tri_pref(wsv: Seq<Seq<char>>, j: int, t: Seq<char>) -> bool {
    exists|k: int| 0 <= k < j && #[trigger] has_window(wsv[k], t)
}

/// Trigrams occurring as a window of `w` starting before `p`.
pub open spec fn win_pref(w: Seq<char>, p: int, t: Seq<char>) -> bool {
    exists|q: int| 0 <= q < p && q + 3 <= w.len() && #[trigger] w.subrange(q, q + 3) == t
}

/// The fuzzy match engine: a fixed corpus of items, an exact-word index, a
/// trigram index, and the frozen corpus statistics.
///
/// All lengths are measured in characters. Items are expected to be
/// pre-normalized (lowercase, trimmed) by the caller; queries are
/// normalized by the engine.
pub struct QuickMatch {
    pub(crate) config: QuickMatchConfig,
    pub(crate) items: Vec<String>,
    pub(crate) max_word_count: usize,
    pub(crate) max_word_len: usize,
    pub(crate) max_query_len: usize,
    pub(crate) word_index: PostingsIndex,
    pub(crate) trigram_index: PostingsIndex,
}

impl QuickMatch {
    /// The character sequences of the indexed items.
    pub closed spec fn spec_corpus(&self) -> Seq<Seq<char>> {
        corpus_of(self.items@)
    }

    /// The configuration the engine was built with.
    pub closed spec fn spec_config(&self) -> QuickMatchConfig {
        self.config
    }

    /// The longest query admitted, in characters.
    pub closed spec fn spec_max_query_len(&self) -> usize {
        self.max_query_len
    }

    /// The longest query word admitted, in characters.
    pub closed spec fn spec_max_word_len(&self) -> usize {
        self.max_word_len
    }

    /// The largest number of query words admitted.
    pub closed spec fn spec_max_word_count(&self) -> usize {
        self.max_word_count
    }

    /// The engine invariant: both indexes describe the corpus exactly, and
    /// the statistics carry the frozen build-time maxima.
    pub closed spec fn wf(&self) -> bool {
        &&& self.config.wf()
        &&& windex_ok(self.word_index, self.spec_corpus(), self.config.spec_separators())
        &&& tindex_ok(self.trigram_index, self.spec_corpus(), self.config.spec_separators())
        &&& self.max_query_len as int == max_item_len(self.spec_corpus()) + 6
        &&& self.max_word_len as int == max_worded_len(
            self.spec_corpus(),
            self.config.spec_separators(),
        ) + 4
        &&& self.max_word_count as int == self.max_word_len as int + 2
    }

    /// What the statistics are, in terms of the corpus.
    pub proof fn lemma_stats(&self)
        requires
            self.wf(),
        ensures
            self.spec_max_query_len() as int == max_item_len(self.spec_corpus()) + 6,
            self.spec_max_word_len() as int == max_worded_len(
                self.spec_corpus(),
                self.spec_config().spec_separators(),
            ) + 4,
            self.spec_max_word_count() as int == self.spec_max_word_len() as int + 2,
            self.spec_config().wf(),
    {
    }

    /// Builds an engine over `items` with the default configuration. Items
    /// are expected to be pre-normalized (lowercase) by the caller.
    pub fn new(items: Vec<String>) -> (r: QuickMatch)
        requires
            forall|i: int|
                0 <= i < items@.len() ==> (#[trigger] items@[i]@.len()) + 6 <= usize::MAX,
        ensures
            r.wf(),
            r.spec_corpus() == corpus_of(items@),
            r.spec_config().spec_separators() == seq!['_', '-', ' '],
            r.spec_config().spec_limit() == crate::config::DEFAULT_LIMIT,
            r.spec_config().spec_trigram_budget() == crate::config::DEFAULT_TRIGRAM_BUDGET,
    {
        QuickMatch::new_with(items, QuickMatchConfig::new())
    }

    /// Builds an engine over `items` with the given configuration. Items
    /// are expected to be pre-normalized (lowercase) by the caller.
    pub fn new_with(items: Vec<String>, config: QuickMatchConfig) -> (r: QuickMatch)
        requires
            config.wf(),
            forall|i: int|
                0 <= i < items@.len() ==> (#[trigger] items@[i]@.len()) + 6 <= usize::MAX,
        ensures
            r.wf(),
            r.spec_corpus() == corpus_of(items@),
            r.spec_config() == config,
    {
        let ghost corpus = corpus_of(items@);
        let seps = crate::index::copy_chars(config.separators());
        let ghost gseps = config.spec_separators();
        let n = items.len();
        proof {
            lemma_max_item_len_in(corpus);
            lemma_max_worded_le(corpus, gseps);
        }

        // Pass 1: the word index and the two length maxima.
        let mut wi = PostingsIndex::new();
        let mut max_il: usize = 0;
        let mut max_wl: usize = 0;
        let mut i: usize = 0;
        proof {
            assert(corpus.take(0) =~= Seq::<Seq<char>>::empty());
        }
        while i < n
            invariant
                seps@ == gseps,
                n == items@.len(),
                corpus == corpus_of(items@),
                forall|k: int|
                    0 <= k < corpus.len() ==> (#[trigger] corpus[k].len()) + 6 <= usize::MAX,
                i <= n,
                wi.slots_wf(),
                forall|w: Seq<char>|
                    #[trigger] wi.has_key(w) <==> word_known(corpus.take(i as int), gseps, w),
                forall|w: Seq<char>| strictly_inc(#[trigger] wi.posting(w)),
                forall|w: Seq<char>, x: usize|
                    #[trigger] wi.posting(w).contains(x) <==> (x as int) < i && words_of(
                        corpus[x as int],
                        gseps,
                    ).contains(w),
                max_il as int == max_item_len(corpus.take(i as int)),
                max_wl as int == max_worded_len(corpus.take(i as int), gseps),
                max_il + 6 <= usize::MAX,
                max_wl <= max_il,
            decreases n - i,
        {
            let cs = chars_of(items[i].as_str());
            let ws = split_words(&cs, &seps);
            let ghost wsv = views_of(ws@);
            proof {
                assert(corpus[i as int] == items@[i as int]@);
                assert(wsv == words_of(corpus[i as int], gseps));
                assert(wsv.take(0) =~= Seq::<Seq<char>>::empty());
                assert forall|w: Seq<char>| #[trigger] wi.has_key(w) <==> word_known(
                    corpus.take(i as int),
                    gseps,
                    w,
                ) || wsv.take(0).contains(w) by {}
            }
            let m = ws.len();
            let mut j: usize = 0;
            while j < m
                invariant
                    seps@ == gseps,
                    n == items@.len(),
                    corpus == corpus_of(items@),
                    i < n,
                    j <= m,
                    m == ws@.len(),
                    wsv == views_of(ws@),
                    wsv == words_of(corpus[i as int], gseps),
                    wi.slots_wf(),
                    forall|w: Seq<char>|
                        #[trigger] wi.has_key(w) <==> word_known(corpus.take(i as int), gseps, w)
                            || wsv.take(j as int).contains(w),
                    forall|w: Seq<char>| strictly_inc(#[trigger] wi.posting(w)),
                    forall|w: Seq<char>, x: usize|
                        #[trigger] wi.posting(w).contains(x) <==> ((x as int) < i && words_of(
                            corpus[x as int],
                            gseps,
                        ).contains(w)) || ((x as int) == i && wsv.take(j as int).contains(w)),
                decreases m - j,
            {
                add_word_step(
                    &mut wi,
                    &ws[j],
                    i,
                    Ghost(corpus),
                    Ghost(gseps),
                    Ghost(wsv),
                    Ghost(j as int),
                );
                j = j + 1;
            }
            // Fold the finished item into the prefix invariant.
            proof {
                assert(wsv.take(m as int) =~= wsv);
                assert(corpus.take(i + 1).drop_last() =~= corpus.take(i as int));
                assert(corpus.take(i + 1).last() == corpus[i as int]);
                assert forall|w: Seq<char>| #[trigger] word_known(corpus.take(i + 1), gseps, w)
                    <==> (word_known(corpus.take(i as int), gseps, w) || wsv.contains(w)) by {
                    lemma_word_known_snoc(corpus, gseps, i as int, w);
                }
            }
            let il = items[i].as_str().unicode_len();
            proof {
                assert(corpus[i as int].len() == il);
                assert(il + 6 <= usize::MAX);
            }
            if il > max_il {
                max_il = il;
            }
            if ws.len() > 0 {
                if il > max_wl {
                    max_wl = il;
                }
            }
            proof {
                assert(max_il as int == max_item_len(corpus.take(i + 1)));
                assert(max_wl as int == max_worded_len(corpus.take(i + 1), gseps));
            }
            i = i + 1;
        }
        proof {
            assert(corpus.take(n as int) =~= corpus);
        }

        // Pass 2: the trigram index.
        let mut ti = PostingsIndex::new();
        let mut i2: usize = 0;
        proof {
            assert(corpus.take(0) =~= Seq::<Seq<char>>::empty());
        }
        while i2 < n
            invariant
                seps@ == gseps,
                n == items@.len(),
                corpus == corpus_of(items@),
                i2 <= n,
                ti.slots_wf(),
                forall|t: Seq<char>|
                    #[trigger] ti.has_key(t) <==> trigram_known(corpus.take(i2 as int), gseps, t),
                forall|t: Seq<char>| strictly_inc(#[trigger] ti.posting(t)),
                forall|t: Seq<char>, x: usize|
                    #[trigger] ti.posting(t).contains(x) <==> (x as int) < i2 && item_has_trigram(
                        corpus,
                        gseps,
                        x as int,
                        t,
                    ),
            decreases n - i2,
        {
            let cs = chars_of(items[i2].as_str());
            let ws = split_words(&cs, &seps);
            let ghost wsv = views_of(ws@);
            proof {
                assert(corpus[i2 as int] == items@[i2 as int]@);
                assert(wsv == words_of(corpus[i2 as int], gseps));
            }
            let m = ws.len();
            let mut j: usize = 0;
            while j < m
                invariant
                    seps@ == gseps,
                    n == items@.len(),
                    corpus == corpus_of(items@),
                    i2 < n,
                    j <= m,
                    m == ws@.len(),
                    wsv == views_of(ws@),
                    wsv == words_of(corpus[i2 as int], gseps),
                    ti.slots_wf(),
                    forall|t: Seq<char>|
                        #[trigger] ti.has_key(t) <==> trigram_known(
                            corpus.take(i2 as int),
                            gseps,
                            t,
                        ) || tri_pref(wsv, j as int, t),
                    forall|t: Seq<char>| strictly_inc(#[trigger] ti.posting(t)),
                    forall|t: Seq<char>, x: usize|
                        #[trigger] ti.posting(t).contains(x) <==> ((x as int) < i2
                            && item_has_trigram(corpus, gseps, x as int, t)) || ((x as int) == i2
                            && tri_pref(wsv, j as int, t)),
                decreases m - j,
            {
                let wlen = ws[j].len();
                if wlen >= 3 {
                    let mut p: usize = 0;
                    while p < wlen - 2
                        invariant
                            seps@ == gseps,
                            n == items@.len(),
                            corpus == corpus_of(items@),
                            i2 < n,
                            j < m,
                            m == ws@.len(),
                            wsv == views_of(ws@),
                            wsv == words_of(corpus[i2 as int], gseps),
                            wlen == ws@[j as int]@.len(),
                            wlen >= 3,
                            p <= wlen - 2,
                            ti.slots_wf(),
                            forall|t: Seq<char>|
                                #[trigger] ti.has_key(t) <==> trigram_known(
                                    corpus.take(i2 as int),
                                    gseps,
                                    t,
                                ) || tri_pref(wsv, j as int, t) || win_pref(
                                    wsv[j as int],
                                    p as int,
                                    t,
                                ),
                            forall|t: Seq<char>| strictly_inc(#[trigger] ti.posting(t)),
                            forall|t: Seq<char>, x: usize|
                                #[trigger] ti.posting(t).contains(x) <==> ((x as int) < i2
                                    && item_has_trigram(corpus, gseps, x as int, t)) || ((
                                x as int) == i2 && (tri_pref(wsv, j as int, t) || win_pref(
                                    wsv[j as int],
                                    p as int,
                                    t,
                                ))),
                        decreases wlen - p,
                    {
                        let mut tv: Vec<char> = Vec::new();
                        tv.push(ws[j][p]);
                        tv.push(ws[j][p + 1]);
                        tv.push(ws[j][p + 2]);
                        proof {
                            assert(tv@ =~= wsv[j as int].subrange(p as int, p as int + 3));
                        }
                        add_tri_step(
                            &mut ti,
                            &tv,
                            i2,
                            Ghost(corpus),
                            Ghost(gseps),
                            Ghost(wsv),
                            Ghost(j as int),
                            Ghost(p as int),
                        );
                        p = p + 1;
                    }
                    proof {
                        assert forall|t: Seq<char>|
                            win_pref(wsv[j as int], wlen - 2, t) <==> has_window(
                            wsv[j as int],
                            t,
                        ) by {
                            if has_window(wsv[j as int], t) {
                                let q = choose|q: int|
                                    0 <= q && q + 3 <= wsv[j as int].len() && #[trigger] wsv[j as int].subrange(q, q + 3) == t;
                                assert(q < wlen - 2);
                            }
                        }
                        lemma_tri_pref_snoc(wsv, j as int);
                    }
                } else {
                    proof {
                        assert forall|t: Seq<char>| !has_window(wsv[j as int], t) by {
                            if has_window(wsv[j as int], t) {
                                let q = choose|q: int|
                                    0 <= q && q + 3 <= wsv[j as int].len() && #[trigger] wsv[j as int].subrange(q, q + 3) == t;
                            }
                        }
                        lemma_tri_pref_snoc(wsv, j as int);
                    }
                }
                j = j + 1;
            }
            proof {
                assert(corpus.take(i2 + 1).drop_last() =~= corpus.take(i2 as int));
                assert(corpus.take(i2 + 1).last() == corpus[i2 as int]);
                assert forall|t: Seq<char>|
                    tri_pref(wsv, m as int, t) <==> item_has_trigram(
                    corpus,
                    gseps,
                    i2 as int,
                    t,
                ) by {
                    if tri_pref(wsv, m as int, t) {
                        let k = choose|k: int| 0 <= k < m && #[trigger] has_window(wsv[k], t);
                        assert(words_of(corpus[i2 as int], gseps).contains(wsv[k]));
                    }
                    if item_has_trigram(corpus, gseps, i2 as int, t) {
                        let w = choose|w: Seq<char>|
                            words_of(corpus[i2 as int], gseps).contains(w) && has_window(w, t);
                        let k = choose|k: int| 0 <= k < wsv.len() && #[trigger] wsv[k] == w;
                        assert(has_window(wsv[k], t));
                    }
                }
                assert forall|t: Seq<char>| #[trigger] trigram_known(corpus.take(i2 + 1), gseps, t)
                    <==> (trigram_known(corpus.take(i2 as int), gseps, t) || item_has_trigram(
                    corpus,
                    gseps,
                    i2 as int,
                    t,
                )) by {
                    lemma_trigram_known_snoc(corpus, gseps, i2 as int, t);
                }
            }
            i2 = i2 + 1;
        }
        proof {
            assert(corpus.take(n as int) =~= corpus);
        }

        let max_query_len = max_il + 6;
        let max_word_len = max_wl + 4;
        let max_word_count = max_wl + 6;
        QuickMatch {
            config,
            items,
            max_word_count,
            max_word_len,
            max_query_len,
            word_index: wi,
            trigram_index: ti,
        }
    }
}

/// The result handles resolve to the returned item texts.
pub open spec fn results_match(corpus: Seq<Seq<char>>, qs: Seq<int>, res: Seq<String>) -> bool {
    &&& res.len() == qs.len()
    &&& forall|i: int|
        0 <= i < qs.len() ==> 0 <= #[trigger] qs[i] < corpus.len() && res[i]@ == corpus[qs[i]]
}

impl QuickMatch {
    /// Answers a query with the engine's own configuration.
    ///
    /// The result is exactly [`query_spec`] of the engine's corpus,
    /// configuration and statistics: the same query on the same engine
    /// always returns the same sequence.
    pub fn matches(&self, query: &str) -> (res: Vec<String>)
        requires
            self.wf(),
        ensures
            results_match(
                self.spec_corpus(),
                query_spec(
                    self.spec_corpus(),
                    self.spec_config().spec_separators(),
                    self.spec_config().spec_separators(),
                    self.spec_config().spec_limit() as int,
                    self.spec_config().spec_trigram_budget() as int,
                    self.spec_max_query_len() as int,
                    self.spec_max_word_len() as int,
                    self.spec_max_word_count() as int,
                    query@,
                ),
                res@,
            ),
    {
        self.matches_with(query, &self.config)
    }

    /// Answers a query under the given configuration (separators, limit
    /// and trigram budget of `config`; indexes and statistics of the
    /// engine).
    pub fn matches_with(&self, query: &str, config: &QuickMatchConfig) -> (res: Vec<String>)
        requires
            self.wf(),
            config.wf(),
        ensures
            results_match(
                self.spec_corpus(),
                query_spec(
                    self.spec_corpus(),
                    self.spec_config().spec_separators(),
                    config.spec_separators(),
                    config.spec_limit() as int,
                    config.spec_trigram_budget() as int,
                    self.spec_max_query_len() as int,
                    self.spec_max_word_len() as int,
                    self.spec_max_word_count() as int,
                    query@,
                ),
                res@,
            ),
    {
        let ghost corpus = self.spec_corpus();
        let ghost iseps = self.config.spec_separators();
        let ghost qseps = config.spec_separators();
        let limit = config.limit();
        let budget = config.trigram_budget();
        proof {
            config.lemma_wf();
        }
        let ghost qs = query_spec(
            corpus,
            iseps,
            qseps,
            limit as int,
            budget as int,
            self.max_query_len as int,
            self.max_word_len as int,
            self.max_word_count as int,
            query@,
        );

        // Guards: empty or overlong queries yield no matches.
        let qv = chars_of(query);
        let qlen = qv.len();
        if qlen == 0 || qlen > self.max_query_len {
            proof {
                assert(qs =~= Seq::<int>::empty());
            }
            return Vec::new();
        }

        // Normalize and tokenize the query.
        let nq = normalize_chars(&qv);
        let ws = split_words(&nq, config.separators());
        let ghost wsv2 = views_of(ws@);
        let ghost toks_target = query_tokens(normalize(query@), qseps, self.max_word_len as int);
        proof {
            assert(wsv2 == words_of(normalize(query@), qseps));
        }
        let wslen: usize = ws.len();
        let mut toks: Vec<Vec<char>> = Vec::new();
        proof {
            assert(views_of(toks@) =~= Seq::<Seq<char>>::empty());
        }
        let mut k: usize = 0;
        while k < wslen
            invariant
                wslen == ws@.len(),
                wsv2 == views_of(ws@),
                k <= wslen,
                toks_target == collect_tokens(
                    wsv2,
                    k as int,
                    views_of(toks@),
                    self.max_word_len as int,
                ),
            decreases wslen - k,
        {
            let wl = ws[k].len();
            if wl <= self.max_word_len && !word_in(&toks, &ws[k]) {
                let ghost before = toks@;
                let tk = crate::index::copy_chars(&ws[k]);
                toks.push(tk);
                proof {
                    assert(views_of(toks@) =~= views_of(before).push(wsv2[k as int]));
                }
            }
            k = k + 1;
        }
        proof {
            assert(views_of(toks@) == toks_target);
        }
        let tlen: usize = toks.len();
        if tlen == 0 || tlen > self.max_word_count {
            proof {
                assert(qs =~= Seq::<int>::empty());
            }
            return Vec::new();
        }

        // Classify the tokens against the word index.
        let ghost tv = views_of(toks@);
        let mut known: Vec<Vec<char>> = Vec::new();
        let mut unknown: Vec<Vec<char>> = Vec::new();
        let mut k2: usize = 0;
        proof {
            assert(tv.take(0) =~= Seq::<Seq<char>>::empty());
            assert(views_of(known@) =~= known_words(corpus, iseps, tv.take(0)));
            assert(unknown_words(corpus, iseps, tv.take(0)) =~= Seq::<Seq<char>>::empty());
            assert(views_of(unknown@) =~= capped(
                unknown_words(corpus, iseps, tv.take(0)),
                budget as int,
            ));
        }
        while k2 < tlen
            invariant
                self.wf(),
                corpus == self.spec_corpus(),
                iseps == self.config.spec_separators(),
                tlen == toks@.len(),
                tv == views_of(toks@),
                k2 <= tlen,
                views_of(known@) == known_words(corpus, iseps, tv.take(k2 as int)),
                views_of(unknown@) == capped(
                    unknown_words(corpus, iseps, tv.take(k2 as int)),
                    budget as int,
                ),
                forall|q: int|
                    0 <= q < known@.len() ==> word_known(corpus, iseps, #[trigger] known@[q]@),
                forall|q: int|
                    0 <= q < unknown@.len() ==> (#[trigger] unknown@[q]@.len()) >= 3,
                unknown@.len() <= budget,
            decreases tlen - k2,
        {
            proof {
                assert(tv.take(k2 + 1).drop_last() =~= tv.take(k2 as int));
                assert(tv.take(k2 + 1).last() == tv[k2 as int]);
                assert(tv[k2 as int] == toks@[k2 as int]@);
            }
            let ghost uw_old = unknown_words(corpus, iseps, tv.take(k2 as int));
            let ghost uw_new = unknown_words(corpus, iseps, tv.take(k2 + 1));
            match self.word_index.get(&toks[k2]) {
                Some(_) => {
                    let ghost before = known@;
                    let tk = crate::index::copy_chars(&toks[k2]);
                    known.push(tk);
                    proof {
                        assert(views_of(known@) =~= views_of(before).push(tv[k2 as int]));
                        assert(views_of(known@) =~= known_words(corpus, iseps, tv.take(k2 + 1)));
                        assert(uw_new =~= uw_old);
                    }
                },
                None => {
                    proof {
                        assert(!word_known(corpus, iseps, tv[k2 as int]));
                        assert(views_of(known@) =~= known_words(corpus, iseps, tv.take(k2 + 1)));
                    }
                    let wl2 = toks[k2].len();
                    if wl2 >= 3 {
                        proof {
                            assert(uw_new =~= uw_old.push(tv[k2 as int]));
                        }
                        if unknown.len() < budget {
                            let ghost before = unknown@;
                            let tk = crate::index::copy_chars(&toks[k2]);
                            unknown.push(tk);
                            proof {
                                assert(views_of(unknown@) =~= views_of(before).push(
                                    tv[k2 as int],
                                ));
                                if uw_old.len() > budget {
                                    assert(false);
                                }
                                assert(uw_new.len() <= budget);
                                assert(views_of(unknown@) =~= capped(uw_new, budget as int));
                            }
                        } else {
                            proof {
                                assert(uw_old.len() >= budget);
                                assert(uw_new.take(budget as int) =~= uw_old.take(budget as int));
                                assert(views_of(unknown@) =~= capped(uw_new, budget as int));
                            }
                        }
                    } else {
                        proof {
                            assert(uw_new =~= uw_old);
                        }
                    }
                },
            }
            k2 = k2 + 1;
        }
        proof {
            assert(tv.take(tlen as int) =~= tv);
        }
        let pool_mode = known.len() > 0;

        // Seed the dense score vector.
        let n: usize = self.items.len();
        proof {
            assert(corpus.len() == n);
        }
        let mut sc: Vec<usize> = Vec::new();
        let mut z: usize = 0;
        while z < n
            invariant
                z <= n,
                sc@.len() == z,
                forall|q: int| 0 <= q < z ==> (#[trigger] sc@[q]) == 0,
            decreases n - z,
        {
            sc.push(0);
            z = z + 1;
        }
        let ghost kviews = views_of(known@);
        let ghost gpool = pool_of(corpus, iseps, kviews);
        if pool_mode {
            let pool = compute_pool(&self.word_index, &known, Ghost(corpus), Ghost(iseps));
            let plen: usize = pool.len();
            let mut q: usize = 0;
            while q < plen
                invariant
                    plen == pool@.len(),
                    q <= plen,
                    sc@.len() == corpus.len(),
                    corpus.len() <= usize::MAX,
                    forall|y: int| 0 <= y < pool@.len() ==> (#[trigger] pool@[y] as int) < corpus.len(),
                    strictly_inc(pool@),
                    forall|x: usize|
                        #[trigger] pool@.contains(x) <==> gpool.contains(x as int),
                    forall|h: int|
                        0 <= h < corpus.len() ==> (#[trigger] sc@[h]) == if pool@.take(
                            q as int,
                        ).contains(h as usize) {
                            1usize
                        } else {
                            0usize
                        },
                decreases plen - q,
            {
                let ghost sc_pre = sc@;
                let x = pool[q];
                sc[x] = 1;
                proof {
                    assert(pool@.take(q + 1) =~= pool@.take(q as int).push(x));
                    assert forall|h: int|
                        0 <= h < corpus.len() implies (#[trigger] sc@[h]) == if pool@.take(
                        q + 1,
                    ).contains(h as usize) {
                        1usize
                    } else {
                        0usize
                    } by {
                        assert(h == (h as usize) as int);
                        assert((sc_pre[h]) == if pool@.take(q as int).contains(h as usize) {
                            1usize
                        } else {
                            0usize
                        });
                        lemma_push_contains(pool@.take(q as int), x, h as usize);
                    }
                }
                q = q + 1;
            }
            proof {
                assert(pool@.take(plen as int) =~= pool@);
                assert forall|h: int|
                    0 <= h < corpus.len() implies ints_of(sc@)[h] == init_scores(
                    corpus,
                    true,
                    gpool,
                )[h] by {
                    let hu = h as usize;
                    assert(h == hu as int);
                    assert((sc@[h]) == if pool@.contains(hu) {
                        1usize
                    } else {
                        0usize
                    });
                }
                assert(ints_of(sc@) =~= init_scores(corpus, true, gpool));
            }
        } else {
            proof {
                assert(ints_of(sc@) =~= init_scores(corpus, false, gpool));
            }
        }

        // Dispatch.
        if unknown.len() == 0 {
            if !pool_mode {
                proof {
                    assert(qs =~= Seq::<int>::empty());
                }
                return Vec::new();
            }
            let out_h = rank_take_exec(&self.items, &sc, 1, limit);
            let res = collect_results(&self.items, &out_h);
            proof {
                assert(qs == rank_take(corpus, init_scores(corpus, true, gpool), 1, limit as int));
                assert(qs == ints_of(out_h@));
            }
            return res;
        }
        let lens = item_lens(&self.items);
        let min_len: usize = if qlen >= 3 {
            qlen - 3
        } else {
            0
        };
        let ghost sc0 = ints_of(sc@);
        let hits = run_schedule_exec(
            &self.trigram_index,
            &lens,
            &unknown,
            pool_mode,
            min_len,
            budget,
            &mut sc,
            Ghost(corpus),
            Ghost(iseps),
        );
        let ghost st0 = ScoreState {
            budget_left: budget as int,
            visited: Set::empty(),
            hits: 0,
            scores: sc0,
        };
        let ghost stf = run_sched(
            corpus,
            iseps,
            pool_mode,
            min_len as int,
            views_of(unknown@),
            budget as int,
            0,
            0,
            st0,
        );
        let ms: usize = if (hits + 1) / 2 >= 1 {
            (hits + 1) / 2
        } else {
            1
        };
        proof {
            assert(ms as int == min_score_of(stf.hits));
            assert(ints_of(sc@) == stf.scores);
            assert(stf.scores.len() == corpus.len());
            assert(sc@.len() == corpus.len());
        }
        let out_h = rank_take_exec(&self.items, &sc, ms, limit);
        let res = collect_results(&self.items, &out_h);
        proof {
            assert(qs == rank_take(corpus, stf.scores, min_score_of(stf.hits), limit as int));
            assert(qs == ints_of(out_h@));
        }
        res
    }
}

/// Resolves result handles to (clones of) the item texts.
fn collect_results(items: &Vec<String>, hs: &Vec<usize>) -> (res: Vec<String>)
    requires
        forall|q: int| 0 <= q < hs@.len() ==> (#[trigger] hs@[q] as int) < items@.len(),
    ensures
        res@.len() == hs@.len(),
        forall|i: int|
            0 <= i < hs@.len() ==> (#[trigger] res@[i]@) == corpus_of(items@)[hs@[i] as int],
{
    let n: usize = hs.len();
    let mut res: Vec<String> = Vec::new();
    let mut i: usize = 0;
    while i < n
        invariant
            n == hs@.len(),
            forall|q: int| 0 <= q < hs@.len() ==> (#[trigger] hs@[q] as int) < items@.len(),
            i <= n,
            res@.len() == i,
            forall|q: int|
                0 <= q < i ==> (#[trigger] res@[q]@) == corpus_of(items@)[hs@[q] as int],
        decreases n - i,
    {
        res.push(items[hs[i]].clone());
        i = i + 1;
    }
    res
}

/// Adds the `j`-th word of item `h` to the word index, preserving the
/// prefix invariant of the build loop.
fn add_word_step(
    wi: &mut PostingsIndex,
    k: &Vec<char>,
    h: usize,
    Ghost(corpus): Ghost<Seq<Seq<char>>>,
    Ghost(gseps): Ghost<Seq<char>>,
    Ghost(wsv): Ghost<Seq<Seq<char>>>,
    Ghost(j): Ghost<int>,
)
    requires
        old(wi).slots_wf(),
        (h as int) < corpus.len(),
        0 <= j < wsv.len(),
        wsv == words_of(corpus[h as int], gseps),
        k@ == wsv[j],
        forall|w: Seq<char>|
            #[trigger] old(wi).has_key(w) <==> word_known(corpus.take(h as int), gseps, w)
                || wsv.take(j).contains(w),
        forall|w: Seq<char>| strictly_inc(#[trigger] old(wi).posting(w)),
        forall|w: Seq<char>, x: usize|
            #[trigger] old(wi).posting(w).contains(x) <==> ((x as int) < h && words_of(
                corpus[x as int],
                gseps,
            ).contains(w)) || ((x as int) == h && wsv.take(j).contains(w)),
    ensures
        final(wi).slots_wf(),
        forall|w: Seq<char>|
            #[trigger] final(wi).has_key(w) <==> word_known(corpus.take(h as int), gseps, w)
                || wsv.take(j + 1).contains(w),
        forall|w: Seq<char>| strictly_inc(#[trigger] final(wi).posting(w)),
        forall|w: Seq<char>, x: usize|
            #[trigger] final(wi).posting(w).contains(x) <==> ((x as int) < h && words_of(
                corpus[x as int],
                gseps,
            ).contains(w)) || ((x as int) == h && wsv.take(j + 1).contains(w)),
{
    let ghost w0 = k@;
    let ghost p_old = old(wi).posting(w0);
    proof {
        assert forall|a: int| 0 <= a < p_old.len() implies p_old[a] <= h by {
            assert(p_old.contains(p_old[a]));
        }
        lemma_sorted_last(p_old, h);
        assert(wsv.take(j + 1) =~= wsv.take(j).push(wsv[j]));
        assert(wsv.take(j + 1).contains(w0)) by {
            assert(wsv.take(j + 1)[j] == w0);
        }
    }
    wi.add(k, h);
    proof {
        let p_new = wi.posting(w0);
        // Membership of the updated posting list.
        if p_old.len() > 0 && p_old.last() == h {
            assert(p_new == p_old);
            assert(p_old.contains(h));
        } else {
            assert(p_new == p_old.push(h));
            assert(!p_old.contains(h));
            assert forall|x: usize| #[trigger] p_new.contains(x) <==> (p_old.contains(x) || x
                == h) by {
                lemma_push_contains(p_old, h, x);
            }
            assert forall|a: int, b: int| 0 <= a < b < p_new.len() implies p_new[a] < p_new[b] by {
                if b == p_new.len() - 1 {
                    assert(p_old.contains(p_old[a]));
                    assert(p_old[a] <= h);
                    assert(p_old[a] != h);
                }
            }
            assert(strictly_inc(p_new));
        }
        // Other keys are untouched; the token set grows by w0 only.
        assert forall|w: Seq<char>, x: usize| #[trigger] wi.posting(w).contains(x) <==> ((
        x as int) < h && words_of(corpus[x as int], gseps).contains(w)) || ((x as int) == h
            && wsv.take(j + 1).contains(w)) by {
            if w != w0 {
                assert(wi.posting(w) == old(wi).posting(w));
                if wsv.take(j + 1).contains(w) {
                    let q = choose|q: int| 0 <= q < j + 1 && #[trigger] wsv.take(j + 1)[q] == w;
                    assert(q != j);
                    assert(wsv.take(j)[q] == w);
                    assert(wsv.take(j).contains(w));
                }
                if wsv.take(j).contains(w) {
                    let q = choose|q: int| 0 <= q < j && #[trigger] wsv.take(j)[q] == w;
                    assert(wsv.take(j + 1)[q] == w);
                }
            }
        }
        assert forall|w: Seq<char>| #[trigger] wi.has_key(w) <==> word_known(
            corpus.take(h as int),
            gseps,
            w,
        ) || wsv.take(j + 1).contains(w) by {
            if w != w0 {
                if wsv.take(j + 1).contains(w) {
                    let q = choose|q: int| 0 <= q < j + 1 && #[trigger] wsv.take(j + 1)[q] == w;
                    assert(q != j);
                    assert(wsv.take(j)[q] == w);
                    assert(wsv.take(j).contains(w));
                }
                if wsv.take(j).contains(w) {
                    let q = choose|q: int| 0 <= q < j && #[trigger] wsv.take(j)[q] == w;
                    assert(wsv.take(j + 1)[q] == w);
                }
            }
        }
        assert forall|w: Seq<char>| strictly_inc(#[trigger] wi.posting(w)) by {
            if w != w0 {
                assert(wi.posting(w) == old(wi).posting(w));
            }
        }
    }
}

/// Adds the window starting at `p` of the `j`-th word of item `h` to the
/// trigram index, preserving the prefix invariant of the build loop.
fn add_tri_step(
    ti: &mut PostingsIndex,
    k: &Vec<char>,
    h: usize,
    Ghost(corpus): Ghost<Seq<Seq<char>>>,
    Ghost(gseps): Ghost<Seq<char>>,
    Ghost(wsv): Ghost<Seq<Seq<char>>>,
    Ghost(j): Ghost<int>,
    Ghost(p): Ghost<int>,
)
    requires
        old(ti).slots_wf(),
        (h as int) < corpus.len(),
        0 <= j < wsv.len(),
        0 <= p && p + 3 <= wsv[j].len(),
        wsv == words_of(corpus[h as int], gseps),
        k@ == wsv[j].subrange(p, p + 3),
        forall|t: Seq<char>|
            #[trigger] old(ti).has_key(t) <==> trigram_known(corpus.take(h as int), gseps, t)
                || tri_pref(wsv, j, t) || win_pref(wsv[j], p, t),
        forall|t: Seq<char>| strictly_inc(#[trigger] old(ti).posting(t)),
        forall|t: Seq<char>, x: usize|
            #[trigger] old(ti).posting(t).contains(x) <==> ((x as int) < h && item_has_trigram(
                corpus,
                gseps,
                x as int,
                t,
            )) || ((x as int) == h && (tri_pref(wsv, j, t) || win_pref(wsv[j], p, t))),
    ensures
        final(ti).slots_wf(),
        forall|t: Seq<char>|
            #[trigger] final(ti).has_key(t) <==> trigram_known(corpus.take(h as int), gseps, t)
                || tri_pref(wsv, j, t) || win_pref(wsv[j], p + 1, t),
        forall|t: Seq<char>| strictly_inc(#[trigger] final(ti).posting(t)),
        forall|t: Seq<char>, x: usize|
            #[trigger] final(ti).posting(t).contains(x) <==> ((x as int) < h && item_has_trigram(
                corpus,
                gseps,
                x as int,
                t,
            )) || ((x as int) == h && (tri_pref(wsv, j, t) || win_pref(wsv[j], p + 1, t))),
{
    let ghost t0 = k@;
    let ghost p_old = old(ti).posting(t0);
    proof {
        assert forall|a: int| 0 <= a < p_old.len() implies p_old[a] <= h by {
            assert(p_old.contains(p_old[a]));
        }
        lemma_sorted_last(p_old, h);
        assert(win_pref(wsv[j], p + 1, t0));
        assert forall|t: Seq<char>|
            t != t0 implies (win_pref(wsv[j], p + 1, t) <==> win_pref(wsv[j], p, t)) by {
            if win_pref(wsv[j], p + 1, t) {
                let q = choose|q: int|
                    0 <= q < p + 1 && q + 3 <= wsv[j].len() && #[trigger] wsv[j].subrange(q, q + 3) == t;
                assert(q != p);
            }
        }
    }
    ti.add(k, h);
    proof {
        let p_new = ti.posting(t0);
        if p_old.len() > 0 && p_old.last() == h {
            assert(p_new == p_old);
            assert(p_old.contains(h));
        } else {
            assert(p_new == p_old.push(h));
            assert(!p_old.contains(h));
            assert forall|x: usize| #[trigger] p_new.contains(x) <==> (p_old.contains(x) || x
                == h) by {
                lemma_push_contains(p_old, h, x);
            }
            assert forall|a: int, b: int| 0 <= a < b < p_new.len() implies p_new[a] < p_new[b] by {
                if b == p_new.len() - 1 {
                    assert(p_old.contains(p_old[a]));
                    assert(p_old[a] <= h);
                    assert(p_old[a] != h);
                }
            }
            assert(strictly_inc(p_new));
        }
        assert forall|t: Seq<char>| strictly_inc(#[trigger] ti.posting(t)) by {
            if t != t0 {
                assert(ti.posting(t) == old(ti).posting(t));
            }
        }
    }
}

/// Unfolding step for [`tri_pref`]: the trigrams of the first `j + 1` words
/// are those of the first `j` plus the windows of word `j`.
pub proof fn lemma_tri_pref_snoc(wsv: Seq<Seq<char>>, j: int)
    requires
        0 <= j < wsv.len(),
    ensures
        forall|t: Seq<char>|
            #[trigger] tri_pref(wsv, j + 1, t) <==> (tri_pref(wsv, j, t) || has_window(
                wsv[j],
                t,
            )),
{
    assert forall|t: Seq<char>|
        #[trigger] tri_pref(wsv, j + 1, t) <==> (tri_pref(wsv, j, t) || has_window(
            wsv[j],
            t,
        )) by {
        if tri_pref(wsv, j + 1, t) {
            let k = choose|k: int| 0 <= k < j + 1 && #[trigger] has_window(wsv[k], t);
            if k < j {
                assert(tri_pref(wsv, j, t));
            }
        }
        if tri_pref(wsv, j, t) {
            let k = choose|k: int| 0 <= k < j && #[trigger] has_window(wsv[k], t);
            assert(0 <= k < j + 1 && has_window(wsv[k], t));
        }
        if has_window(wsv[j], t) {
            assert(0 <= j < j + 1 && has_window(wsv[j], t));
        }
    }
}

/// A word of a longer corpus prefix is a word of the shorter prefix or of
/// the item at its end.
pub proof fn lemma_word_known_snoc(
    corpus: Seq<Seq<char>>,
    seps: Seq<char>,
    i: int,
    w: Seq<char>,
)
    requires
        0 <= i < corpus.len(),
    ensures
        word_known(corpus.take(i + 1), seps, w) <==> (word_known(corpus.take(i), seps, w)
            || words_of(corpus[i], seps).contains(w)),
{
    if word_known(corpus.take(i + 1), seps, w) {
        let h = choose|h: int|
            0 <= h < corpus.take(i + 1).len() && words_of(
                #[trigger] corpus.take(i + 1)[h],
                seps,
            ).contains(w);
        if h < i {
            assert(corpus.take(i)[h] == corpus[h]);
            assert(words_of(corpus.take(i)[h], seps).contains(w));
        } else {
            assert(corpus.take(i + 1)[h] == corpus[i]);
        }
    }
    if word_known(corpus.take(i), seps, w) {
        let h = choose|h: int|
            0 <= h < corpus.take(i).len() && words_of(#[trigger] corpus.take(i)[h], seps).contains(
                w,
            );
        assert(corpus.take(i + 1)[h] == corpus[h]);
        assert(words_of(corpus.take(i + 1)[h], seps).contains(w));
    }
    if words_of(corpus[i], seps).contains(w) {
        assert(corpus.take(i + 1)[i] == corpus[i]);
        assert(words_of(corpus.take(i + 1)[i], seps).contains(w));
    }
}

/// A trigram of a longer corpus prefix is one of the shorter prefix or of
/// the item at its end.
pub proof fn lemma_trigram_known_snoc(
    corpus: Seq<Seq<char>>,
    seps: Seq<char>,
    i: int,
    t: Seq<char>,
)
    requires
        0 <= i < corpus.len(),
    ensures
        trigram_known(corpus.take(i + 1), seps, t) <==> (trigram_known(corpus.take(i), seps, t)
            || item_has_trigram(corpus, seps, i, t)),
{
    assert forall|h: int|
        0 <= h < i + 1 implies (item_has_trigram(corpus.take(i + 1), seps, h, t)
        <==> item_has_trigram(corpus, seps, h, t)) by {
        assert(corpus.take(i + 1)[h] == corpus[h]);
    }
    assert forall|h: int|
        0 <= h < i implies (item_has_trigram(corpus.take(i), seps, h, t) <==> item_has_trigram(
        corpus,
        seps,
        h,
        t,
    )) by {
        assert(corpus.take(i)[h] == corpus[h]);
    }
    if trigram_known(corpus.take(i + 1), seps, t) {
        let h = choose|h: int|
            0 <= h < corpus.take(i + 1).len() && #[trigger] item_has_trigram(corpus.take(i + 1), seps, h, t);
        if h < i {
            assert(item_has_trigram(corpus.take(i), seps, h, t));
        }
    }
    if trigram_known(corpus.take(i), seps, t) {
        let h = choose|h: int|
            0 <= h < corpus.take(i).len() && #[trigger] item_has_trigram(corpus.take(i), seps, h, t);
        assert(item_has_trigram(corpus.take(i + 1), seps, h, t));
    }
    if item_has_trigram(corpus, seps, i, t) {
        assert(item_has_trigram(corpus.take(i + 1), seps, i, t));
    }
}

/// The maximum item length bounds every item and is attained (or the
/// corpus is empty).
pub proof fn lemma_max_item_len_in(corpus: Seq<Seq<char>>)
    ensures
        0 <= max_item_len(corpus),
        forall|h: int| 0 <= h < corpus.len() ==> (#[trigger] corpus[h].len()) <= max_item_len(
            corpus,
        ),
        max_item_len(corpus) == 0 || exists|h: int|
            0 <= h < corpus.len() && (#[trigger] corpus[h].len()) == max_item_len(corpus),
    decreases corpus.len(),
{
    if corpus.len() > 0 {
        lemma_max_item_len_in(corpus.drop_last());
        assert forall|h: int|
            0 <= h < corpus.len() implies (#[trigger] corpus[h].len()) <= max_item_len(
            corpus,
        ) by {
            if h < corpus.len() - 1 {
                assert(corpus.drop_last()[h] == corpus[h]);
            }
        }
        if max_item_len(corpus) != 0 {
            if corpus.last().len() as int == max_item_len(corpus) {
                assert(corpus[corpus.len() - 1].len() == max_item_len(corpus));
            } else {
                let h = choose|h: int|
                    0 <= h < corpus.drop_last().len() && (#[trigger] corpus.drop_last()[h].len())
                        == max_item_len(corpus.drop_last());
                assert(corpus[h].len() == max_item_len(corpus));
            }
        }
    }
}

/// The worded maximum never exceeds the overall maximum.
pub proof fn lemma_max_worded_le(corpus: Seq<Seq<char>>, seps: Seq<char>)
    ensures
        0 <= max_worded_len(corpus, seps) <= max_item_len(corpus),
    decreases corpus.len(),
{
    if corpus.len() > 0 {
        lemma_max_worded_le(corpus.drop_last(), seps);
    }
}

} // verus!
