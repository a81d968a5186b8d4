use stranger::rules::Rule;

/// `ALL` is the one list a sixth rule can be left off.
#[test]
fn all_five_rules_are_in_all() {
    let mut ranks: Vec<usize> = Rule::ALL.iter().map(|r| r.rank()).collect();
    assert_eq!(ranks, (0..Rule::ALL.len()).collect::<Vec<_>>());
    ranks.dedup();
    assert_eq!(ranks.len(), Rule::ALL.len());
}
