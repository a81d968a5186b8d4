use stranger::report::risk;
use stranger::rules::{Finding, Rule, Severity};

fn at(sev: Severity, n: usize) -> Vec<Finding> {
    (0..n)
        .map(|i| Finding {
            rule: Rule::Slopsquat,
            severity: sev,
            package: format!("p{i}"),
            version: String::new(),
            detail: String::new(),
        })
        .collect()
}

#[test]
fn nothing_scores_zero() {
    assert_eq!(risk(&[]), 0);
}

/// The bands must not overlap.
#[test]
fn a_worse_severity_always_outranks_more_of_a_lesser_one() {
    assert!(risk(&at(Severity::Critical, 1)) > risk(&at(Severity::High, 10_000)));
    assert!(risk(&at(Severity::High, 1)) > risk(&at(Severity::Medium, 10_000)));
    assert!(risk(&at(Severity::Medium, 1)) > risk(&at(Severity::Low, 10_000)));
    assert!(risk(&at(Severity::Low, 1)) > risk(&[]));
}

#[test]
fn volume_moves_the_number_without_ever_filling_the_band() {
    let (one, ten, many) = (
        risk(&at(Severity::High, 1)),
        risk(&at(Severity::High, 10)),
        risk(&at(Severity::High, 100_000)),
    );
    assert!(one < ten && ten < many, "{one} {ten} {many}");
    assert!(many < 75, "a High tree must never reach the Critical band");
}

/// The band has to come from a max rather than from the first element.
#[test]
fn the_band_comes_from_the_worst_finding_not_the_first() {
    let mut mixed = at(Severity::Low, 3);
    mixed.extend(at(Severity::Critical, 1));
    assert_eq!(risk(&mixed), risk(&at(Severity::Critical, 1)));
}
