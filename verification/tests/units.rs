use std::cmp::Ordering;
use stranger::cli::{self, Command, Format};
use stranger::corpus::{self, Corpus};
use stranger::distance;
use stranger::error::Error;
use stranger::lock::Ecosystem;
use stranger::rules::{worse, Severity};
use stranger::semver::Version;
use stranger::term;
use stranger::walk::{self, FileKind};

fn args(v: &[&str]) -> Vec<String> {
    v.iter().map(|s| s.to_string()).collect()
}

#[test]
fn a_version_parses_leniently() {
    let v = Version::parse(" v1.2-rc.1+sha.5114f85 ").unwrap();
    assert_eq!((v.major, v.minor, v.patch), (1, 2, 0));
    assert_eq!(v.pre, ["rc", "1"]);
    assert!(Version::parse("1.2.3.4").is_none());
    assert!(Version::parse("x.1").is_none());
}

#[test]
fn prerelease_precedence_follows_semver() {
    let p = |s: &str| Version::parse(s).unwrap();
    assert_eq!(p("1.0.0-rc.1").precedence(&p("1.0.0")), Ordering::Less);
    assert_eq!(p("1.0.0-alpha").precedence(&p("1.0.0-alpha.1")), Ordering::Less);
    assert_eq!(p("1.0.0-alpha.1").precedence(&p("1.0.0-alpha.beta")), Ordering::Less);
    assert_eq!(p("1.0.0-2").precedence(&p("1.0.0-10")), Ordering::Less);
    assert_eq!(p("2.0.0").precedence(&p("1.9.9")), Ordering::Greater);
    assert_eq!(p("1.0.0+a").precedence(&p("1.0.0+b")), Ordering::Equal);
}

#[test]
fn edit_distance_counts_a_transposition_once() {
    assert_eq!(distance::damerau_levenshtein("abc", "acb"), 1);
    assert_eq!(distance::damerau_levenshtein("kitten", "sitting"), 3);
    assert_eq!(distance::damerau_levenshtein("", "abc"), 3);
    assert_eq!(distance::within("lodash", "lodahs", 2), Some(1));
    assert_eq!(distance::within("lodash", "react", 2), None);
}

#[test]
fn the_edit_budget_grows_with_length_up_to_two() {
    assert_eq!(distance::budget_for(4), 0);
    assert_eq!(distance::budget_for(5), 1);
    assert_eq!(distance::budget_for(14), 2);
    assert_eq!(distance::budget_for(100), 2);
}

#[test]
fn python_names_normalise_as_pep_503_says() {
    assert_eq!(corpus::normalize(Ecosystem::PyPi, "Foo.Bar__baz"), "foo-bar-baz");
    assert_eq!(corpus::normalize(Ecosystem::Npm, "Foo.Bar"), "foo.bar");
}

#[test]
fn a_corpus_answers_membership_by_normalised_name() {
    let c = Corpus::from_text("left-pad\nlodash\n", "requests\n", "serde\n").unwrap();
    assert!(corpus::contains(&c, Ecosystem::Npm, "lodash"));
    assert!(corpus::contains(&c, Ecosystem::PyPi, "Requests"));
    assert!(!corpus::contains(&c, Ecosystem::Crates, "tokio"));
    assert!(!corpus::contains(&Corpus::empty(), Ecosystem::Npm, "lodash"));
}

#[test]
fn a_corpus_refuses_names_that_are_not_normalised() {
    assert!(Corpus::from_text("Lodash\n", "", "").is_none());
    assert!(Corpus::from_text("", "foo_bar\n", "").is_none());
    assert!(Corpus::from_text("", "foo-bar\n", "").is_some());
    assert!(Corpus::from_text("b\na\n", "", "").is_none());
}

#[test]
fn the_nearest_name_prefers_fewer_edits_then_the_shorter_name() {
    let names: Vec<String> = ["lodash", "lodash.merge", "react", "reacts"].iter().map(|n| n.to_string()).collect();
    assert_eq!(corpus::nearest_in(&names, Ecosystem::Npm, "lodasx"), Some(("lodash".to_string(), 1)));
    assert_eq!(corpus::nearest_in(&names, Ecosystem::Npm, "reactx"), Some(("react".to_string(), 1)));
    assert_eq!(corpus::nearest_in(&names, Ecosystem::Npm, "lod"), None);
    assert_eq!(corpus::nearest_in(&names, Ecosystem::Npm, "zzzzzz"), None);
}

#[test]
fn terminal_text_is_sanitised_and_padded() {
    assert_eq!(term::sanitize("a\u{1b}[2Jb"), "a\u{fffd}[2Jb");
    assert_eq!(term::pad("ab", 4), "ab  ");
    assert_eq!(term::pad("abcdef", 4), "abcdef");
    assert!(!term::decide(true, None, Some("1"), true));
    assert!(!term::decide(false, Some("1"), None, true));
    assert!(term::decide(false, Some(""), Some("1"), false));
    assert!(term::decide(false, None, None, true));
}

#[test]
fn the_walk_skips_vendored_and_hidden_directories() {
    assert_eq!(walk::skip_reason("node_modules", 0), Some("on the skip list"));
    assert_eq!(walk::skip_reason(".cache", 0), Some("hidden"));
    assert_eq!(walk::skip_reason("src", walk::MAX_DEPTH), Some("below MAX_DEPTH"));
    assert_eq!(walk::skip_reason("src", 1), None);
    assert_eq!(walk::skip_reason(".", 0), None);
}

#[test]
fn files_are_told_apart_by_name() {
    assert_eq!(walk::file_kind("pnpm-lock.yaml"), FileKind::Lockfile);
    assert_eq!(walk::file_kind("npm-xl.package-lock.json"), FileKind::Lockfile);
    assert_eq!(walk::file_kind("Gemfile.lock"), FileKind::NoReader("Gemfile.lock"));
    assert_eq!(walk::file_kind("README.md"), FileKind::Other);
}

#[test]
fn the_command_line_parses() {
    assert!(matches!(cli::parse(args(&["stranger"])), Ok(Command::Help)));
    assert!(matches!(cli::parse(args(&["stranger", "-V"])), Ok(Command::Version)));
    match cli::parse(args(&["stranger", "scan", "--format=json", "--fail-on", "high", "repo"])) {
        Ok(Command::Scan(o)) => {
            assert_eq!(o.path, "repo");
            assert_eq!(o.format, Format::Json);
            assert_eq!(o.fail_on, Some(Severity::High));
        },
        other => panic!("{other:?}"),
    }
    match cli::parse(args(&["stranger", "frob"])) {
        Err(Error::Usage(m)) => assert_eq!(m, "unknown command `frob`; stranger takes `scan`, `tree` or `diff`"),
        other => panic!("{other:?}"),
    }
    match cli::parse(args(&["stranger", "scan", "--format", "xml"])) {
        Err(Error::Usage(m)) => assert_eq!(m, "--format takes `human` or `json`, not `xml`"),
        other => panic!("{other:?}"),
    }
}

#[test]
fn everything_after_a_bare_double_dash_is_a_path() {
    match cli::parse(args(&["stranger", "scan", "--", "-v"])) {
        Ok(Command::Scan(o)) => {
            assert_eq!(o.path, "-v");
            assert!(!o.verbose);
        },
        other => panic!("{other:?}"),
    }
    match cli::parse(args(&["stranger", "scan", "-q", "--", "--help"])) {
        Ok(Command::Scan(o)) => {
            assert_eq!(o.path, "--help");
            assert!(o.quiet);
        },
        other => panic!("{other:?}"),
    }
}

#[test]
fn exit_codes_gate_on_the_threshold() {
    assert_eq!(cli::exit_code(0, false, None, None), 2);
    assert_eq!(cli::exit_code(3, true, None, None), 2);
    assert_eq!(cli::exit_code(3, false, Some(Severity::High), Some(Severity::Critical)), 1);
    assert_eq!(cli::exit_code(3, false, Some(Severity::High), Some(Severity::High)), 1);
    assert_eq!(cli::exit_code(3, false, Some(Severity::Critical), Some(Severity::High)), 0);
    assert_eq!(cli::exit_code(3, false, None, Some(Severity::Critical)), 0);
}

#[test]
fn severities_parse_and_rank() {
    assert_eq!(Severity::parse("medium"), Some(Severity::Medium));
    assert_eq!(Severity::parse("Critical"), Some(Severity::Critical));
    assert_eq!(Severity::parse("urgent"), None);
    assert!(Severity::Critical.level() > Severity::Low.level());
    assert_eq!(Severity::High.name(), "high");
}

#[test]
fn the_worse_of_two_severities_is_kept_and_any_beats_none() {
    assert_eq!(worse(None, None), None);
    assert_eq!(worse(None, Some(Severity::Low)), Some(Severity::Low));
    assert_eq!(worse(Some(Severity::Medium), None), Some(Severity::Medium));
    assert_eq!(worse(Some(Severity::High), Some(Severity::Medium)), Some(Severity::High));
    assert_eq!(worse(Some(Severity::Low), Some(Severity::Critical)), Some(Severity::Critical));
}

#[test]
fn distance_is_zero_only_for_equal_names_and_the_same_both_ways() {
    assert_eq!(distance::damerau_levenshtein("lodash", "lodash"), 0);
    assert_eq!(distance::damerau_levenshtein("ca", "abc"), 2);
    assert_eq!(distance::damerau_levenshtein("abc", "ca"), 2);
    assert_eq!(distance::damerau_levenshtein("kitten", "sitting"), distance::damerau_levenshtein("sitting", "kitten"));
    assert!(distance::damerau_levenshtein("a", "b") > 0);
}

#[test]
fn normalising_twice_changes_nothing() {
    let once = corpus::normalize(Ecosystem::PyPi, "Foo__.Bar-baz");
    assert_eq!(once, "foo-bar-baz");
    assert_eq!(corpus::normalize(Ecosystem::PyPi, &once), once);
    let npm = corpus::normalize(Ecosystem::Npm, "Left_Pad");
    assert_eq!(corpus::normalize(Ecosystem::Npm, &npm), npm);
}

#[test]
fn a_json_string_reads_back_as_itself() {
    let s = "a\"b\\c\nd\te\u{1}f\u{7f}é";
    let text = stranger::report::string(s);
    match stranger::json::parse(&text) {
        Ok(stranger::json::Value::String(back)) => assert_eq!(back, s),
        _ => panic!("expected the string back"),
    }
}

#[test]
fn every_known_lockfile_name_picks_its_own_reader() {
    let formats: Vec<stranger::lock::Format> = stranger::lock::KNOWN
        .iter()
        .map(|k| stranger::lock::Format::of(k).unwrap())
        .collect();
    for i in 0..formats.len() {
        for j in i + 1..formats.len() {
            assert_ne!(formats[i], formats[j]);
        }
    }
    assert_eq!(stranger::lock::Format::of("fixtures/npm-xl.package-lock.json"), Some(stranger::lock::Format::Npm));
    assert_eq!(stranger::lock::Format::of("Gemfile.lock"), None);
}
