use process_rules::diagnostic::{Diagnostic, Severity};
use process_rules::error::Error;

#[test]
fn diagnostics_render_location_severity_code_and_context() {
    let plain = Diagnostic::error("invalid-regions", "rules/other.toml", "bad".to_owned());
    assert_eq!(plain.render(), "rules/other.toml: error[invalid-regions]: bad");
    let full = Diagnostic::warning("windows-missing-exe", "rules/a.toml", "no suffix".to_owned())
        .application("helper".to_owned())
        .field("windows")
        .position(12, 3);
    assert_eq!(
        full.render(),
        "rules/a.toml:12:3: warning[windows-missing-exe]: no suffix (application=helper, field=windows)"
    );
    let field_only = Diagnostic::new(Severity::Error, "x", "f", "m".to_owned()).field("linux");
    assert_eq!(field_only.render(), "f: error[x]: m (field=linux)");
    assert!(plain.is_error());
    assert!(!full.is_error());
    assert_eq!(Severity::Warning.as_str(), "warning");
}

#[test]
fn exit_codes_follow_error_categories() {
    assert_eq!(Error::ValidationFailed { errors: 2 }.exit_code(), 3);
    assert_eq!(Error::InvalidCollection("x".to_owned()).exit_code(), 4);
    assert_eq!(Error::UnavailableCollection("only-ad".to_owned()).exit_code(), 4);
    assert_eq!(
        Error::NotFound { process: "missing".to_owned(), platform: "all".to_owned() }.exit_code(),
        4
    );
    assert_eq!(
        Error::InvalidOutput { path: "out".to_owned(), reason: "r".to_owned() }.exit_code(),
        1
    );
    assert_eq!(
        Error::Io { operation: "write artifact", path: "p".to_owned(), source: "s".to_owned() }.exit_code(),
        1
    );
    assert_eq!(Error::Json("bad".to_owned()).exit_code(), 1);
}
