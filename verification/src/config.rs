use vstd::prelude::*;

verus! {

/// Maximum value the trigram budget can be configured to.
pub const MAX_TRIGRAM_BUDGET: usize = 20;

/// Default number of results returned by a query.
pub const DEFAULT_LIMIT: usize = 100;

/// Default trigram budget.
pub const DEFAULT_TRIGRAM_BUDGET: usize = 6;

/// Tuning knobs of the match engine.
///
/// All constructors clamp their arguments, so every reachable value
/// satisfies [`QuickMatchConfig::wf`]: the limit is at least 1 and the
/// trigram budget is at most [`MAX_TRIGRAM_BUDGET`].
pub struct QuickMatchConfig {
    /// Characters that split items and queries into words.
    pub(crate) separators: Vec<char>,
    /// Maximum number of results to return (at least 1).
    pub(crate) limit: usize,
    /// Budget of fresh trigrams probed per query (0 disables fuzzy matching).
    pub(crate) trigram_budget: usize,
}

impl QuickMatchConfig {
    /// The invariant every constructed configuration satisfies.
    pub closed spec fn wf(&self) -> bool {
        &&& self.limit >= 1
        &&& self.trigram_budget <= MAX_TRIGRAM_BUDGET
    }

    pub closed spec fn spec_separators(&self) -> Seq<char> {
        self.separators@
    }

    pub closed spec fn spec_limit(&self) -> usize {
        self.limit
    }

    pub closed spec fn spec_trigram_budget(&self) -> usize {
        self.trigram_budget
    }

    /// What well-formedness guarantees about the two numeric knobs.
    pub proof fn lemma_wf(&self)
        requires
            self.wf(),
        ensures
            self.spec_limit() >= 1,
            self.spec_trigram_budget() <= MAX_TRIGRAM_BUDGET,
    {
    }

    /// Well-formedness follows from the two numeric bounds.
    pub proof fn lemma_wf_intro(&self)
        requires
            self.spec_limit() >= 1,
            self.spec_trigram_budget() <= MAX_TRIGRAM_BUDGET,
        ensures
            self.wf(),
    {
    }

    /// The default configuration: separators `'_'`, `'-'`, `' '`,
    /// limit 100, trigram budget 6.
    pub fn new() -> (c: Self)
        ensures
            c.wf(),
            c.spec_separators() == seq!['_', '-', ' '],
            c.spec_limit() == DEFAULT_LIMIT,
            c.spec_trigram_budget() == DEFAULT_TRIGRAM_BUDGET,
    {
        let mut separators: Vec<char> = Vec::new();
        separators.push('_');
        separators.push('-');
        separators.push(' ');
        proof {
            assert(separators@ =~= seq!['_', '-', ' ']);
        }
        QuickMatchConfig { separators, limit: DEFAULT_LIMIT, trigram_budget: DEFAULT_TRIGRAM_BUDGET }
    }

    /// Sets the result limit; values below 1 are clamped to 1.
    pub fn with_limit(self, limit: usize) -> (c: Self)
        ensures
            c.spec_limit() == if limit >= 1 { limit } else { 1usize },
            c.spec_trigram_budget() == self.spec_trigram_budget(),
            c.spec_separators() == self.spec_separators(),
            self.wf() ==> c.wf(),
    {
        let l: usize = if limit >= 1 { limit } else { 1 };
        QuickMatchConfig { limit: l, ..self }
    }

    /// Sets the trigram budget, clamped into `[0, MAX_TRIGRAM_BUDGET]`.
    pub fn with_trigram_budget(self, trigram_budget: usize) -> (c: Self)
        ensures
            c.spec_trigram_budget() == if trigram_budget <= MAX_TRIGRAM_BUDGET {
                trigram_budget
            } else {
                MAX_TRIGRAM_BUDGET
            },
            c.spec_limit() == self.spec_limit(),
            c.spec_separators() == self.spec_separators(),
            self.wf() ==> c.wf(),
    {
        let b: usize = if trigram_budget <= MAX_TRIGRAM_BUDGET {
            trigram_budget
        } else {
            MAX_TRIGRAM_BUDGET
        };
        QuickMatchConfig { trigram_budget: b, ..self }
    }

    /// Replaces the separator set.
    pub fn with_separators(self, separators: Vec<char>) -> (c: Self)
        ensures
            c.spec_separators() == separators@,
            c.spec_limit() == self.spec_limit(),
            c.spec_trigram_budget() == self.spec_trigram_budget(),
            self.wf() ==> c.wf(),
    {
        QuickMatchConfig { separators, ..self }
    }

    pub fn limit(&self) -> (r: usize)
        ensures
            r == self.spec_limit(),
    {
        self.limit
    }

    pub fn trigram_budget(&self) -> (r: usize)
        ensures
            r == self.spec_trigram_budget(),
    {
        self.trigram_budget
    }

    pub fn separators(&self) -> (r: &Vec<char>)
        ensures
            r@ == self.spec_separators(),
    {
        &self.separators
    }
}

impl Default for QuickMatchConfig {
    fn default() -> (c: Self)
        ensures
            c.wf(),
            c.spec_separators() == seq!['_', '-', ' '],
            c.spec_limit() == DEFAULT_LIMIT,
            c.spec_trigram_budget() == DEFAULT_TRIGRAM_BUDGET,
    {
        QuickMatchConfig::new()
    }
}

} // verus!
