use apt_edsp::Bool;

type BoolDefaultFalse = Bool<false>;

#[test]
fn consts() {
    assert_eq!(BoolDefaultFalse::yes(), Bool(true));
    assert_eq!(BoolDefaultFalse::no(), Bool(false));

    assert_eq!(BoolDefaultFalse::yes(), Bool::<false>::yes());
    assert_eq!(BoolDefaultFalse::no(), Bool::<false>::no());
}

#[test]
fn textual_form() {
    assert_eq!("yes", Bool::<false>::yes().as_str());
    assert_eq!("no", Bool::<false>::no().as_str());
    assert_eq!("yes", Bool::<true>::yes().as_str());
}

#[test]
fn parse_yes_and_no() {
    assert_eq!(Ok(Bool(true)), Bool::<false>::from_str("yes"));
    assert_eq!(Ok(Bool(false)), Bool::<false>::from_str("no"));
    assert!(Bool::<false>::from_str("maybe").is_err());
    assert!(Bool::<false>::from_str("").is_err());
    assert!(Bool::<false>::from_str("Yes").is_err());
}

#[test]
fn default_follows_parameter() {
    assert_eq!(Bool(true), Bool::<true>::default());
    assert_eq!(Bool(false), Bool::<false>::default());
}
