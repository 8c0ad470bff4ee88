use std::collections::HashMap;

use apt_edsp::scenario::{Package, Version};
use apt_edsp::Bool;

fn sample_package() -> Package {
    Package {
        package: "bar".into(),
        version: Version::parse("0.1.2").unwrap(),
        architecture: "amd64".into(),
        installed: Bool::yes(),
        hold: Bool::no(),
        id: "234".into(),
        pin: 500,
        candidate: Bool::yes(),
        automatic: Bool::no(),
        depends: Vec::new(),
        conflicts: Vec::new(),
        extra: HashMap::new(),
    }
}

#[test]
fn install_stanza_copies_the_package_fields() {
    let p = sample_package();
    let i = p.to_install();
    assert_eq!("234", i.install);
    assert_eq!(Some("bar".to_string()), i.package);
    assert_eq!("0.1.2", i.version.as_ref().unwrap().as_str());
    assert_eq!(Some("amd64".to_string()), i.architecture);
    assert!(i.extra.is_empty());
}

#[test]
fn remove_stanza_copies_the_package_fields() {
    let p = sample_package();
    let r = p.to_remove();
    assert_eq!("234", r.remove);
    assert_eq!(Some("bar".to_string()), r.package);
    assert_eq!("0.1.2", r.version.as_ref().unwrap().as_str());
    assert_eq!(Some("amd64".to_string()), r.architecture);
    assert!(r.extra.is_empty());
}

#[test]
fn autoremove_stanza_holds_the_identifier_alone() {
    let p = sample_package();
    let a = p.to_autoremove();
    assert_eq!("234", a.autoremove);
    assert!(a.extra.is_empty());
}
