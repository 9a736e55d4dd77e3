use process_rules::application::ApplicationId;

#[test]
fn validates_identifiers_at_construction() {
    assert!(ApplicationId::parse("valid-id").is_ok());
    assert!(ApplicationId::parse("Invalid").is_err());
}

#[test]
fn application_ids_accept_single_hyphens_between_slug_characters() {
    assert_eq!(ApplicationId::parse("a").map(|id| id.as_str().to_owned()), Ok("a".to_owned()));
    assert!(ApplicationId::parse("app-2-go").is_ok());
    assert!(ApplicationId::parse("").is_err());
    assert!(ApplicationId::parse("-leading").is_err());
    assert!(ApplicationId::parse("trailing-").is_err());
    assert!(ApplicationId::parse("double--hyphen").is_err());
    assert!(ApplicationId::parse("under_score").is_err());
}
