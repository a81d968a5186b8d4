use stranger::lock::{Format, KNOWN};

/// The two lists of suffixes have to name the same eight files.
#[test]
fn every_known_name_has_a_format() {
    let mut formats: Vec<Format> = KNOWN
        .iter()
        .map(|k| Format::of(k).unwrap_or_else(|| panic!("{k} has no reader")))
        .collect();
    let seen = formats.len();
    formats.dedup();
    assert_eq!(formats.len(), seen, "two names picked the same reader");
}

/// The match is on the end of the name, and a name nothing claims stays
/// unclaimed.
#[test]
fn a_prefixed_fixture_still_picks_its_reader() {
    assert_eq!(Format::of("npm-xl.package-lock.json"), Some(Format::Npm));
    assert_eq!(Format::of("reqs-s.requirements.txt"), Some(Format::Pip));
    assert_eq!(Format::of("yarn-l.yarn.lock"), Some(Format::Yarn));
    assert_eq!(Format::of("packages.lock.json"), None);
    assert_eq!(Format::of("bun.lockb"), None);
}
