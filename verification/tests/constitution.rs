use rahn::constitution::Constitution;

#[test]
fn parse_and_round_trip() {
    let text = "# comment\n\nrequire-connectivity api db\nrequire-connectivity api lb\n";
    let c = Constitution::parse(text).unwrap();
    assert_eq!(c.connectivity_requirements.len(), 2);
    assert_eq!(
        c.to_text(),
        "# RAHN constitution\nrequire-connectivity api db\nrequire-connectivity api lb\n"
    );
    assert_eq!(Constitution::parse(&c.to_text()).unwrap(), c);
}

#[test]
fn unknown_keyword_rejected() {
    let err = Constitution::parse("require-magic a b").unwrap_err();
    assert!(err.message.contains("unknown requirement"));
}

#[test]
fn missing_argument_rejected() {
    assert!(Constitution::parse("require-connectivity a").is_err());
}

#[test]
fn extra_argument_rejected() {
    assert!(Constitution::parse("require-connectivity a b c").is_err());
}

#[test]
fn invalid_id_rejected() {
    assert!(Constitution::parse("require-connectivity a 'bad id'").is_err());
}
