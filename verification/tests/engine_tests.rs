use quickmatch::{QuickMatch, QuickMatchConfig};

fn products() -> Vec<String> {
    vec![
        "apple iphone 15 pro",
        "apple macbook pro 16",
        "apple airpods pro",
        "samsung galaxy s24",
        "samsung galaxy tab",
        "sony playstation 5",
        "sony wh-1000xm5 headphones",
        "microsoft surface pro",
        "microsoft xbox series x",
        "dell xps 13 laptop",
        "dell ultrasharp monitor",
        "logitech mx master mouse",
        "logitech mechanical keyboard",
        "canon eos r5 camera",
        "nikon z9 camera",
        "gopro hero 12",
    ]
    .into_iter()
    .map(|s| s.to_string())
    .collect()
}

fn engine() -> QuickMatch {
    QuickMatch::new(products())
}

#[test]
fn exact_word_single() {
    let m = engine();
    let r = m.matches("apple");
    assert_eq!(
        r,
        vec![
            "apple airpods pro".to_string(),
            "apple iphone 15 pro".to_string(),
            "apple macbook pro 16".to_string(),
        ]
    );
}

#[test]
fn exact_word_shared_token() {
    let m = engine();
    let r = m.matches("pro");
    assert_eq!(
        r,
        vec![
            "apple airpods pro".to_string(),
            "apple iphone 15 pro".to_string(),
            "apple macbook pro 16".to_string(),
            "microsoft surface pro".to_string(),
        ]
    );
}

#[test]
fn exact_word_intersection() {
    let m = engine();
    let r = m.matches("apple pro");
    assert_eq!(
        r,
        vec![
            "apple airpods pro".to_string(),
            "apple iphone 15 pro".to_string(),
            "apple macbook pro 16".to_string(),
        ]
    );
}

#[test]
fn exact_word_hyphen_split() {
    let m = engine();
    let r = m.matches("headphones");
    assert_eq!(r, vec!["sony wh-1000xm5 headphones".to_string()]);
}

#[test]
fn fuzzy_typo_hits_trigrams() {
    let m = engine();
    let r = m.matches("hedphones");
    assert!(r.contains(&"sony wh-1000xm5 headphones".to_string()));
    assert_eq!(r[0], "sony wh-1000xm5 headphones".to_string());
}

#[test]
fn empty_and_whitespace_queries() {
    let m = engine();
    assert!(m.matches("").is_empty());
    assert!(m.matches("   ").is_empty());
}

#[test]
fn garbage_query_no_hits() {
    let m = engine();
    assert!(m.matches("xzqxzqxzq").is_empty());
}

#[test]
fn limit_one_returns_shortest() {
    let m = QuickMatch::new_with(products(), QuickMatchConfig::new().with_limit(1));
    let r = m.matches("apple");
    assert_eq!(r, vec!["apple airpods pro".to_string()]);
}

#[test]
fn overlong_query_rejected() {
    let m = engine();
    // The longest item has 26 characters, so queries over 32 are refused.
    let q = "a".repeat(33);
    assert!(m.matches(&q).is_empty());
}

#[test]
fn empty_corpus_returns_nothing() {
    let m = QuickMatch::new(Vec::new());
    assert!(m.matches("apple").is_empty());
    assert!(m.matches("hedphones").is_empty());
    assert!(m.matches("").is_empty());
}

#[test]
fn repeated_queries_are_deterministic() {
    let m = engine();
    for q in ["apple", "pro", "hedphones", "galaxy tab", "  apple  "] {
        assert_eq!(m.matches(q), m.matches(q));
    }
}

#[test]
fn case_insensitive_query() {
    let m = engine();
    assert_eq!(m.matches("APPLE"), m.matches("apple"));
    assert_eq!(m.matches("Apple Pro"), m.matches("apple pro"));
}

#[test]
fn whitespace_padding_ignored() {
    let m = engine();
    assert_eq!(m.matches("  apple  "), m.matches("apple"));
    assert_eq!(m.matches("\tapple pro\t"), m.matches("apple pro"));
}

#[test]
fn non_ascii_suffix_inert() {
    let m = engine();
    assert_eq!(m.matches("apple\u{e9}"), m.matches("apple"));
    assert_eq!(m.matches("apple pro\u{3042}"), m.matches("apple pro"));
}

#[test]
fn pool_purity_tokens_present() {
    let m = engine();
    for item in m.matches("apple pro") {
        let words: Vec<&str> = item.split(['_', '-', ' ']).collect();
        assert!(words.contains(&"apple"));
        assert!(words.contains(&"pro"));
    }
}

#[test]
fn open_mode_length_plausibility() {
    let m = engine();
    // "hedphones" is not a word of the corpus: open mode, raw length 9.
    for item in m.matches("hedphones") {
        assert!(item.len() >= 9 - 3);
    }
}

#[test]
fn no_duplicate_results() {
    let m = engine();
    for q in ["apple", "pro", "hedphones", "apple pro"] {
        let r = m.matches(q);
        for i in 0..r.len() {
            for j in (i + 1)..r.len() {
                assert_ne!(r[i], r[j]);
            }
        }
    }
}

#[test]
fn zero_budget_disables_fuzzy() {
    let m = QuickMatch::new_with(products(), QuickMatchConfig::new().with_trigram_budget(0));
    assert!(m.matches("hedphones").is_empty());
    // Exact matching still works.
    assert_eq!(m.matches("headphones"), vec!["sony wh-1000xm5 headphones".to_string()]);
}

#[test]
fn duplicate_words_in_item_fold() {
    let m = QuickMatch::new(vec!["pro pro".to_string(), "pro".to_string()]);
    let r = m.matches("pro");
    assert_eq!(r, vec!["pro".to_string(), "pro pro".to_string()]);
}

#[test]
fn matches_with_other_separators() {
    let m = engine();
    let commas = QuickMatchConfig::new().with_separators(vec![',']);
    let r = m.matches_with("apple,pro", &commas);
    assert_eq!(
        r,
        vec![
            "apple airpods pro".to_string(),
            "apple iphone 15 pro".to_string(),
            "apple macbook pro 16".to_string(),
        ]
    );
}

#[test]
fn fuzzy_scores_rank_best_first() {
    let m = engine();
    let r = m.matches("hedphones");
    // The item sharing four of the probed trigrams outranks the item
    // sharing only two.
    assert_eq!(
        r,
        vec![
            "sony wh-1000xm5 headphones".to_string(),
            "apple iphone 15 pro".to_string(),
        ]
    );
}

#[test]
fn known_word_pool_refined_by_trigrams() {
    let m = engine();
    // "sony" is known; "playstation" is known too, so the pool is their
    // intersection.
    let r = m.matches("sony playstation");
    assert_eq!(r, vec!["sony playstation 5".to_string()]);
}

#[test]
fn unknown_word_longer_than_gate_dropped() {
    let m = engine();
    // The word cap is 26 + 4 = 30; a 31-character token is dropped, which
    // leaves no usable words at all.
    let q = "b".repeat(31);
    assert!(m.matches(&q).is_empty());
}

#[test]
fn smaller_budget_still_admits_strong_match() {
    // With a budget of 2 only the head and tail trigrams are probed; the
    // single tail hit is enough to clear the half-the-hits threshold.
    let m = QuickMatch::new_with(products(), QuickMatchConfig::new().with_trigram_budget(2));
    let r = m.matches("hedphones");
    assert_eq!(r, vec!["sony wh-1000xm5 headphones".to_string()]);
}

#[test]
fn duplicate_items_both_returned() {
    let m = QuickMatch::new(vec!["pro".to_string(), "pro".to_string()]);
    let r = m.matches("pro");
    assert_eq!(r, vec!["pro".to_string(), "pro".to_string()]);
}
