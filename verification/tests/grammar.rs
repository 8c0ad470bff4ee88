use apt_edsp::scenario::relations::{
    Dependency, DependencyParseError, Relation, VersionSet, VersionSetParseError,
};
use apt_edsp::scenario::{ArchQualifiedPackageName, Version};

#[test]
fn relation_tokens() {
    for (text, rel) in [
        ("<<", Relation::Earlier),
        ("<=", Relation::EarlierEqual),
        ("=", Relation::Equal),
        (">=", Relation::LaterEqual),
        (">>", Relation::Later),
    ] {
        assert_eq!(text, rel.as_str());
        let (parsed, used) = Relation::parse(text).unwrap();
        assert_eq!(rel, parsed);
        assert_eq!(text.len(), used);
    }
    assert!(Relation::parse("~=").is_none());
    assert!(Relation::parse(">").is_none());
    assert!(Relation::parse("<").is_none());
}

#[test]
fn version_set_without_constraint() {
    let vs = VersionSet::from_str("foo").unwrap();
    assert_eq!("foo", vs.package);
    assert!(vs.constraint.is_none());
    assert_eq!("foo", vs.to_string());
}

#[test]
fn version_set_with_each_relation() {
    for (text, rel) in [
        ("foo (<< 2.2.1)", Relation::Earlier),
        ("foo (<= 2.2.1)", Relation::EarlierEqual),
        ("foo (= 2.2.1)", Relation::Equal),
        ("foo (>= 2.2.1)", Relation::LaterEqual),
        ("foo (>> 2.2.1)", Relation::Later),
    ] {
        let vs = VersionSet::from_str(text).unwrap();
        assert_eq!("foo", vs.package);
        let (r, v) = vs.constraint.as_ref().unwrap();
        assert_eq!(rel, *r);
        assert_eq!("2.2.1", v.as_str());
        assert_eq!(text, vs.to_string());
    }
}

#[test]
fn version_set_tolerates_loose_padding() {
    let vs = VersionSet::from_str("foo   (=   1.0)  ").unwrap();
    assert_eq!("foo", vs.package);
    let (r, v) = vs.constraint.as_ref().unwrap();
    assert_eq!(Relation::Equal, *r);
    assert_eq!("1.0", v.as_str());
    // the formatted form is the canonical one
    assert_eq!("foo (= 1.0)", vs.to_string());
}

#[test]
fn empty_package_name_is_rejected() {
    assert!(matches!(
        VersionSet::from_str("(>= 1.0)"),
        Err(VersionSetParseError::EmptyPackageName(_))
    ));
}

#[test]
fn bad_constraint_spec_is_rejected() {
    assert!(matches!(
        VersionSet::from_str("foo (>= )"),
        Err(VersionSetParseError::BadConstraintSpec(_))
    ));
    assert!(matches!(
        VersionSet::from_str("foo (~~ 1.0)"),
        Err(VersionSetParseError::BadConstraintSpec(_))
    ));
    assert!(matches!(
        VersionSet::from_str("foo (>= 1.0"),
        Err(VersionSetParseError::BadConstraintSpec(_))
    ));
    assert!(matches!(
        VersionSet::from_str("foo (>= 1.0) bar"),
        Err(VersionSetParseError::BadConstraintSpec(_))
    ));
    // the trace holds the text from the point where parsing diverged
    match VersionSet::from_str("foo (>= )") {
        Err(VersionSetParseError::BadConstraintSpec(trace)) => {
            assert_eq!("(>= )", trace);
        }
        other => panic!("expected a constraint error, got {:?}", other),
    }
}

#[test]
fn bad_version_is_rejected() {
    // any text parses as a version unless its epoch prefix is malformed
    match VersionSet::from_str("foo (>= b:ad)") {
        Err(VersionSetParseError::BadVersion(inner)) => {
            assert_eq!("b", inner.text);
        }
        other => panic!("expected a version error, got {:?}", other),
    }
    assert!(matches!(
        VersionSet::from_str("foo (>= x:1.0)"),
        Err(VersionSetParseError::BadVersion(_))
    ));
}

#[test]
fn dependency_without_alternates() {
    let d = Dependency::from_str("foo").unwrap();
    assert_eq!("foo", d.first.package);
    assert!(d.alternates.is_empty());
    assert_eq!("foo", d.to_string());
}

#[test]
fn alternate_errors_carry_their_index() {
    match Dependency::from_str("foo | (bad)") {
        Err(DependencyParseError::Alternate(index, inner)) => {
            assert_eq!(1, index);
            assert!(matches!(inner, VersionSetParseError::EmptyPackageName(_)));
        }
        other => panic!("expected an alternate error, got {:?}", other),
    }
    match Dependency::from_str("(bad) | foo") {
        Err(DependencyParseError::Alternate(index, _)) => assert_eq!(0, index),
        other => panic!("expected an alternate error, got {:?}", other),
    }
    match Dependency::from_str("foo | bar | baz (= b:ad)") {
        Err(DependencyParseError::Alternate(index, inner)) => {
            assert_eq!(2, index);
            assert!(matches!(inner, VersionSetParseError::BadVersion(_)));
        }
        other => panic!("expected an alternate error, got {:?}", other),
    }
}

#[test]
fn dependency_end_to_end() {
    let text = "foo (= v1.0.0) | bar | baz (>> 0.1~1)";
    let d = Dependency::from_str(text).unwrap();

    assert_eq!("foo", d.first.package);
    let (r, v) = d.first.constraint.as_ref().unwrap();
    assert_eq!(Relation::Equal, *r);
    assert_eq!("v1.0.0", v.as_str());

    assert_eq!(2, d.alternates.len());
    assert_eq!("bar", d.alternates[0].package);
    assert!(d.alternates[0].constraint.is_none());
    assert_eq!("baz", d.alternates[1].package);
    let (r1, v1) = d.alternates[1].constraint.as_ref().unwrap();
    assert_eq!(Relation::Later, *r1);
    assert_eq!("0.1~1", v1.as_str());

    assert_eq!(text, d.to_string());

    let expected = Dependency {
        first: VersionSet {
            package: "foo".into(),
            constraint: Some((Relation::Equal, Version::parse("v1.0.0").unwrap())),
        },
        alternates: vec![
            VersionSet { package: "bar".into(), constraint: None },
            VersionSet {
                package: "baz".into(),
                constraint: Some((Relation::Later, Version::parse("0.1~1").unwrap())),
            },
        ],
    };
    assert_eq!(expected, d);
}

#[test]
fn dependency_round_trips() {
    for text in [
        "foo",
        "foo (= 1.0)",
        "foo (<< 2:1.0-1) | bar",
        "a | b | c | d",
        "x (>= 0.1~beta) | y (<< 3)",
    ] {
        let d = Dependency::from_str(text).unwrap();
        assert_eq!(text, d.to_string());
    }
}

#[test]
fn empty_tail_after_bar_means_no_alternates() {
    let d = Dependency::from_str("foo |").unwrap();
    assert_eq!("foo", d.first.package);
    assert!(d.alternates.is_empty());
}

#[test]
fn arch_qualified_package_names() {
    let a = ArchQualifiedPackageName::from_str("vim:amd64").unwrap();
    assert_eq!("vim", a.name);
    assert_eq!("amd64", a.architecture);
    assert_eq!("vim:amd64", a.to_string());
    assert!(ArchQualifiedPackageName::from_str("vim").is_err());
}
