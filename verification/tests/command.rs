use process_rules::catalog::Catalog;
use process_rules::command::{build_selection, explain_query, explanation_report, validation_summary};
use process_rules::error::Error;
use process_rules::loader::{
    RawApplication, RawRegions, RawRuleFile, RuleFile, RuleFileContent, RulesListing, load_catalog,
};
use process_rules::output::render_mihomo;
use process_rules::platform::{Platform, PlatformSelection};

type TestResult<T = ()> = Result<T, Box<dyn std::error::Error>>;

fn strings(values: &[&str]) -> Vec<String> {
    values.iter().map(|value| (*value).to_owned()).collect()
}

fn application(regions: RawRegions) -> RawApplication {
    RawApplication { display_name: None, regions, windows: None, android: None, linux: None, macos: None }
}

fn fixture() -> RulesListing {
    let mut china = application(RawRegions::Only(strings(&["cn-mainland"])));
    china.display_name = Some("China".to_owned());
    china.windows = Some(strings(&["China.exe"]));
    let mut mixed = application(RawRegions::Only(strings(&["cn-mainland", "jp"])));
    mixed.windows = Some(strings(&["Mixed.exe"]));
    let mut outside = application(RawRegions::Except(strings(&["cn-mainland", "us"])));
    outside.linux = Some(strings(&["outside"]));
    let mut global = application(RawRegions::Any("any".to_owned()));
    global.android = Some(strings(&["org.example.global"]));
    RulesListing::Listed {
        entry_errors: vec![],
        files: vec![RuleFile {
            path: "rules/other.toml".to_owned(),
            stem: Some("other".to_owned()),
            content: RuleFileContent::Parsed(RawRuleFile {
                version: 1,
                applications: vec![
                    ("china".to_owned(), china),
                    ("global".to_owned(), global),
                    ("mixed".to_owned(), mixed),
                    ("outside".to_owned(), outside),
                ],
            }),
        }],
    }
}

fn catalog() -> TestResult<Catalog> {
    Ok(load_catalog("rules", fixture(), false).into_catalog().map_err(|error| error.render())?)
}

#[test]
fn validation_summary_counts_applications_and_warnings() {
    let outcome = load_catalog("rules", fixture(), false);
    match validation_summary(&outcome) {
        Ok(text) => assert_eq!(text, "valid: 4 application(s), 0 warning(s)"),
        Err(error) => panic!("unexpected {error:?}"),
    }
    let empty = load_catalog("rules", RulesListing::Listed { entry_errors: vec![], files: vec![] }, true);
    match validation_summary(&empty) {
        Err(Error::ValidationFailed { errors }) => assert_eq!(errors, 1),
        other => panic!("unexpected {other:?}"),
    }
}

#[test]
fn build_selection_renders_one_artifact() -> TestResult {
    let catalog = catalog()?;
    let names = build_selection(&catalog, PlatformSelection::Platform(Platform::Windows), "contain-cn-mainland")
        .map_err(|error| error.render())?;
    assert_eq!(render_mihomo(&names), "PROCESS-NAME,China.exe\nPROCESS-NAME,Mixed.exe\n");
    let outside = build_selection(&catalog, PlatformSelection::All, "not-contain-us").map_err(|error| error.render())?;
    assert_eq!(
        render_mihomo(&outside),
        "PROCESS-NAME,China.exe\nPROCESS-NAME,Mixed.exe\nPROCESS-NAME,outside\n"
    );
    Ok(())
}

#[test]
fn invalid_and_unavailable_collections_are_query_errors() -> TestResult {
    let catalog = catalog()?;
    let invalid = build_selection(&catalog, PlatformSelection::Platform(Platform::Linux), "cn-ish");
    match invalid {
        Err(error @ Error::InvalidCollection(_)) => {
            assert_eq!(error.exit_code(), 4);
            assert_eq!(
                error.render(),
                "invalid collection `cn-ish`; expected any, only-<region>, contain-<region>, or not-contain-<region>"
            );
        }
        other => panic!("unexpected {other:?}"),
    }
    assert!(matches!(
        build_selection(&catalog, PlatformSelection::Platform(Platform::Linux), "only-cn"),
        Err(Error::InvalidCollection(_))
    ));
    match build_selection(&catalog, PlatformSelection::Platform(Platform::Linux), "only-ad") {
        Err(error @ Error::UnavailableCollection(_)) => {
            assert_eq!(error.exit_code(), 4);
            assert!(error.render().contains("region does not occur in the catalog"));
        }
        other => panic!("unexpected {other:?}"),
    }
    Ok(())
}

#[test]
fn explain_reports_matches_or_not_found() -> TestResult {
    let catalog = catalog()?;
    let found = explain_query(&catalog, PlatformSelection::All, "china.EXE").map_err(|error| error.render())?;
    let text = explanation_report(&found);
    assert!(text.contains("application: china\n"));
    assert!(text.contains("regions: cn-mainland\n"));
    assert_eq!(
        text,
        "application: china\ndisplay-name: China\ncategory: other\nplatform: windows\nprocess: China.exe\nregions: cn-mainland\ncollections: only-cn-mainland, contain-cn-mainland, not-contain-jp, not-contain-us\n"
    );
    match explain_query(&catalog, PlatformSelection::All, "missing") {
        Err(error @ Error::NotFound { .. }) => {
            assert_eq!(error.exit_code(), 4);
            assert_eq!(error.render(), "no process rule matched `missing` on all");
        }
        other => panic!("unexpected {other:?}"),
    }
    Ok(())
}

#[test]
fn explanation_reports_separate_records_with_a_blank_line() -> TestResult {
    let catalog = catalog()?;
    let mut records = explain_query(&catalog, PlatformSelection::All, "mixed.exe").map_err(|error| error.render())?;
    records.extend(explain_query(&catalog, PlatformSelection::All, "OUTSIDE").map_err(|error| error.render())?);
    let text = explanation_report(&records);
    assert_eq!(
        text,
        "application: mixed\ncategory: other\nplatform: windows\nprocess: Mixed.exe\nregions: cn-mainland, jp\ncollections: contain-cn-mainland, contain-jp, not-contain-us\n\napplication: outside\ncategory: other\nplatform: linux\nprocess: outside\nregions: except cn-mainland, us\ncollections: not-contain-cn-mainland, contain-jp, not-contain-us\n"
    );
    assert_eq!(explanation_report(&[]), "");
    Ok(())
}

#[test]
fn error_messages_match_each_category() {
    assert_eq!(
        Error::ValidationFailed { errors: 12 }.render(),
        "source validation failed with 12 error(s)"
    );
    assert_eq!(
        Error::UnavailableCollection("only-ad".to_owned()).render(),
        "collection `only-ad` is not available because its region does not occur in the catalog"
    );
    assert_eq!(
        Error::InvalidOutput { path: "dist".to_owned(), reason: "destination directory must be empty".to_owned() }.render(),
        "invalid output path `dist`: destination directory must be empty"
    );
    assert_eq!(
        Error::Io { operation: "write artifact", path: "a.list".to_owned(), source: "disk full".to_owned() }.render(),
        "failed to write artifact `a.list`: disk full"
    );
    assert_eq!(Error::Json("eof".to_owned()).render(), "failed to serialize JSON: eof");
}
