use quickmatch::QuickMatchConfig;

#[test]
fn defaults() {
    let c = QuickMatchConfig::new();
    assert_eq!(c.limit(), 100);
    assert_eq!(c.trigram_budget(), 6);
    assert_eq!(c.separators(), &vec!['_', '-', ' ']);
}

#[test]
fn default_trait_matches_new() {
    let c = QuickMatchConfig::default();
    assert_eq!(c.limit(), 100);
    assert_eq!(c.trigram_budget(), 6);
}

#[test]
fn limit_clamped_to_one() {
    let c = QuickMatchConfig::new().with_limit(0);
    assert_eq!(c.limit(), 1);
    let c = QuickMatchConfig::new().with_limit(7);
    assert_eq!(c.limit(), 7);
}

#[test]
fn trigram_budget_clamped_to_twenty() {
    let c = QuickMatchConfig::new().with_trigram_budget(25);
    assert_eq!(c.trigram_budget(), 20);
    let c = QuickMatchConfig::new().with_trigram_budget(0);
    assert_eq!(c.trigram_budget(), 0);
    let c = QuickMatchConfig::new().with_trigram_budget(9);
    assert_eq!(c.trigram_budget(), 9);
}

#[test]
fn separators_replaced() {
    let c = QuickMatchConfig::new().with_separators(vec![',', ';']);
    assert_eq!(c.separators(), &vec![',', ';']);
    assert_eq!(c.limit(), 100);
}

#[test]
fn builders_chain() {
    let c = QuickMatchConfig::new()
        .with_limit(3)
        .with_trigram_budget(2)
        .with_separators(vec![' ']);
    assert_eq!(c.limit(), 3);
    assert_eq!(c.trigram_budget(), 2);
    assert_eq!(c.separators(), &vec![' ']);
}
