use std::cmp::Ordering::{Equal, Greater, Less};

use apt_edsp::scenario::version::{cmp_non_digit, EpochErrorKind, Version};

#[test]
fn parse() {
    let all_components = Version::parse("1:foo:bar-baz-qux").unwrap();
    assert_eq!(1, all_components.epoch());
    assert_eq!("foo:bar-baz", all_components.version());
    assert_eq!("qux", all_components.revision());

    let no_epoch = Version::parse("foo.123+bar-baz-qux").unwrap();
    assert_eq!(0, no_epoch.epoch());
    assert_eq!("foo.123+bar-baz", no_epoch.version());
    assert_eq!("qux", no_epoch.revision());

    let no_revision = Version::parse("90:foo.123+bar").unwrap();
    assert_eq!(90, no_revision.epoch());
    assert_eq!("foo.123+bar", no_revision.version());
    assert_eq!("", no_revision.revision());

    let no_epoch_and_revision = Version::parse("foo.123+bar~baz").unwrap();
    assert_eq!(0, no_epoch_and_revision.epoch());
    assert_eq!("foo.123+bar~baz", no_epoch_and_revision.version());
    assert_eq!("", no_epoch_and_revision.revision());

    assert_eq!(
        EpochErrorKind::InvalidDigit,
        Version::parse("foo:bar").unwrap_err().kind()
    )
}

#[test]
fn cmp_string() {
    assert_eq!(Less, cmp_non_digit("~", "+"));
    assert_eq!(Greater, cmp_non_digit("~r", "~d"));
}

#[test]
fn ord() {
    let source = vec![
        ("1.1.1", Less, "1.1.2"),
        ("1b", Greater, "1a"),
        ("1~~", Less, "1~~a"),
        ("1~~a", Less, "1~"),
        ("1", Less, "1.1"),
        ("1.0", Less, "1.1"),
        ("1.2", Less, "1.11"),
        ("1.0-1", Less, "1.1"),
        ("1.0-1", Less, "1.0-12"),
        // make them different for sorting
        ("1:1.0-0", Equal, "1:1.0"),
        ("1.0", Equal, "1.0"),
        ("1.0-1", Equal, "1.0-1"),
        ("1:1.0-1", Equal, "1:1.0-1"),
        ("1:1.0", Equal, "1:1.0"),
        ("1.0-1", Less, "1.0-2"),
        ("1.0final-5", Greater, "1.0a7-2"),
        ("0.9.2-5", Less, "0.9.2+cvs.1.0.dev.2004.07.28-1"),
        ("1:500", Less, "1:5000"),
        ("100:500", Greater, "11:5000"),
        ("1.0.4-2", Greater, "1.0pre7-2"),
        ("1.5~rc1", Less, "1.5"),
        ("1.5~rc1", Less, "1.5+1"),
        ("1.5~rc1", Less, "1.5~rc2"),
        ("1.5~rc1", Greater, "1.5~dev0"),
    ];

    for e in source {
        assert_eq!(
            Version::parse(e.0).unwrap().cmp(&Version::parse(e.2).unwrap()),
            e.1,
            "{:#?} vs {:#?}",
            Version::parse(e.0).unwrap(),
            Version::parse(e.2).unwrap()
        );
    }
}

#[test]
fn eq() {
    let source = vec![("1.1+git2021", "0:1.1+git2021")];
    for e in &source {
        assert_eq!(Version::parse(e.0).unwrap(), Version::parse(e.1).unwrap());
    }
}

#[test]
fn round_trip_original_text() {
    for s in ["1:foo:bar-baz-qux", "0:1.1+git2021", "1.5~rc1", "", "a b c"] {
        assert_eq!(s, Version::parse(s).unwrap().as_str());
    }
}

#[test]
fn epoch_error_kinds() {
    assert_eq!(EpochErrorKind::Empty, Version::parse(":rest").unwrap_err().kind());
    assert_eq!(
        EpochErrorKind::InvalidDigit,
        Version::parse("+:rest").unwrap_err().kind()
    );
    assert_eq!(
        EpochErrorKind::InvalidDigit,
        Version::parse("1x:rest").unwrap_err().kind()
    );
    assert_eq!(
        EpochErrorKind::PosOverflow,
        Version::parse("99999999999999999999:rest").unwrap_err().kind()
    );
    // a plus sign alone counts as a sign, not a digit
    assert_eq!(42, Version::parse("+42:rest").unwrap().epoch());
    let err = Version::parse("foo:bar").unwrap_err();
    assert_eq!("foo", err.text);
}

#[test]
fn epoch_dominates() {
    assert_eq!(
        Greater,
        Version::parse("100:500").unwrap().cmp(&Version::parse("11:5000").unwrap())
    );
}

#[test]
fn tilde_sorts_lowest() {
    let a = Version::parse("1.5~rc1").unwrap();
    assert_eq!(Less, a.cmp(&Version::parse("1.5").unwrap()));
    assert_eq!(Less, a.cmp(&Version::parse("1.5~rc2").unwrap()));
    assert_eq!(Greater, a.cmp(&Version::parse("1.5~dev0").unwrap()));
}

#[test]
fn letters_before_other_characters() {
    assert_eq!(
        Greater,
        Version::parse("1.0final-5").unwrap().cmp(&Version::parse("1.0a7-2").unwrap())
    );
}

#[test]
fn default_epoch_is_zero() {
    assert_eq!(
        Version::parse("1.1+git2021").unwrap(),
        Version::parse("0:1.1+git2021").unwrap()
    );
    assert_eq!(
        Equal,
        Version::parse("1.1+git2021").unwrap().cmp(&Version::parse("0:1.1+git2021").unwrap())
    );
}

#[test]
fn long_digit_runs_compare_numerically() {
    // far beyond any fixed-width accumulator
    let small = Version::parse("1.99999999999999999999999999999999999998").unwrap();
    let large = Version::parse("1.99999999999999999999999999999999999999").unwrap();
    assert_eq!(Less, small.cmp(&large));
    assert_eq!(Equal, small.cmp(&small));
    let padded = Version::parse("1.0099999999999999999999999999999999999998").unwrap();
    assert_eq!(Equal, small.cmp(&padded));
}
