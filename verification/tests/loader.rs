use process_rules::collection::Collection;
use process_rules::diagnostic::Severity;
use process_rules::error::Error;
use process_rules::loader::{
    RawApplication, RawRegions, RawRuleFile, RuleFile, RuleFileContent, RulesListing,
    ValidationOutcome, byte_offset_position, load_catalog, validate_regions,
};
use process_rules::platform::{PlatformSelection, ProcessName};
use process_rules::region::Region;

type TestResult<T = ()> = Result<T, Box<dyn std::error::Error>>;

fn strings(values: &[&str]) -> Vec<String> {
    values.iter().map(|value| (*value).to_owned()).collect()
}

fn application(regions: RawRegions) -> RawApplication {
    RawApplication {
        display_name: None,
        regions,
        windows: None,
        android: None,
        linux: None,
        macos: None,
    }
}

fn parsed_file(stem: &str, applications: Vec<(&str, RawApplication)>) -> RuleFile {
    RuleFile {
        path: format!("rules/{stem}.toml"),
        stem: Some(stem.to_owned()),
        content: RuleFileContent::Parsed(RawRuleFile {
            version: 1,
            applications: applications
                .into_iter()
                .map(|(id, app)| (id.to_owned(), app))
                .collect(),
        }),
    }
}

fn listed(files: Vec<RuleFile>) -> RulesListing {
    RulesListing::Listed { entry_errors: vec![], files }
}

fn codes(outcome: &ValidationOutcome) -> Vec<&'static str> {
    outcome.diagnostics().iter().map(|diagnostic| diagnostic.code).collect()
}

fn names(values: &[ProcessName]) -> Vec<&str> {
    values.iter().map(ProcessName::as_str).collect()
}

fn region(value: &str) -> TestResult<Region> {
    Ok(value.parse()?)
}

fn messaging() -> RulesListing {
    let mut china = application(RawRegions::Only(strings(&["cn-mainland"])));
    china.windows = Some(strings(&["China.exe"]));
    let mut mixed = application(RawRegions::Only(strings(&["cn-mainland", "jp"])));
    mixed.linux = Some(strings(&["mixed"]));
    let mut outside = application(RawRegions::Except(strings(&["cn-mainland"])));
    outside.windows = Some(strings(&["Outside.exe"]));
    let mut global = application(RawRegions::Any("any".to_owned()));
    global.android = Some(strings(&["org.example.global"]));
    listed(vec![parsed_file(
        "messaging",
        vec![
            ("china-only", china),
            ("global", global),
            ("mixed", mixed),
            ("outside-china", outside),
        ],
    )])
}

#[test]
fn loads_and_selects_region_collections() -> TestResult {
    let outcome = load_catalog("rules", messaging(), false);
    assert_eq!(outcome.error_count(), 0, "{:?}", outcome.diagnostics());
    let catalog = outcome.catalog().ok_or("expected a valid catalog")?;
    assert_eq!(
        catalog.collections().iter().map(Collection::name).collect::<Vec<_>>(),
        vec![
            "any",
            "only-cn-mainland",
            "contain-cn-mainland",
            "not-contain-cn-mainland",
            "only-jp",
            "contain-jp",
            "not-contain-jp",
        ]
    );
    let pick = |collection: Collection| {
        catalog
            .select(PlatformSelection::All, &collection)
            .map(|selected| names(&selected).into_iter().map(str::to_owned).collect::<Vec<_>>())
    };
    assert_eq!(pick(Collection::only(region("cn-mainland")?)), Some(strings(&["China.exe"])));
    assert_eq!(pick(Collection::excluding(region("cn-mainland")?)), Some(strings(&["Outside.exe"])));
    assert_eq!(pick(Collection::containing(region("jp")?)), Some(strings(&["mixed", "Outside.exe"])));
    assert_eq!(pick(Collection::containing(region("cn-mainland")?)), Some(strings(&["China.exe", "mixed"])));
    assert_eq!(pick(Collection::excluding(region("jp")?)), Some(strings(&["China.exe"])));
    assert_eq!(pick(Collection::Any), Some(strings(&["org.example.global"])));
    assert_eq!(pick(Collection::only(region("us")?)), None);
    assert_eq!(catalog.application_count(), 4);
    Ok(())
}

#[test]
fn same_name_on_different_platforms_is_deduplicated_when_regions_agree() -> TestResult {
    let mut one = application(RawRegions::Only(strings(&["jp"])));
    one.windows = Some(strings(&["Shared.exe"]));
    let mut two = application(RawRegions::Only(strings(&["jp"])));
    two.linux = Some(strings(&["shared.EXE"]));
    let outcome = load_catalog("rules", listed(vec![parsed_file("other", vec![("one", one), ("two", two)])]), false);
    assert_eq!(outcome.error_count(), 0, "{:?}", outcome.diagnostics());
    let selected = outcome
        .catalog()
        .ok_or("expected a valid catalog")?
        .select(PlatformSelection::All, &Collection::containing(region("jp")?))
        .ok_or("expected contain-jp to be available")?;
    assert_eq!(names(&selected), vec!["Shared.exe"]);
    Ok(())
}

#[test]
fn rejects_case_insensitive_platform_collisions() {
    let mut first = application(RawRegions::Only(strings(&["jp"])));
    first.windows = Some(strings(&["Agent.exe"]));
    let mut second = application(RawRegions::Only(strings(&["jp"])));
    second.windows = Some(strings(&["agent.EXE"]));
    let outcome = load_catalog(
        "rules",
        listed(vec![parsed_file("other", vec![("first", first), ("second", second)])]),
        false,
    );
    assert!(outcome.catalog().is_none());
    assert!(codes(&outcome).contains(&"duplicate-process-name"));
    assert_eq!(
        outcome.diagnostics()[0].render(),
        "rules/other.toml: error[duplicate-process-name]: `agent.EXE` duplicates `Agent.exe` from application `first` on windows; matching is case-insensitive (application=second, field=windows)"
    );
}

#[test]
fn conflicting_regions_across_platforms_are_reported_once() {
    let mut first = application(RawRegions::Only(strings(&["jp"])));
    first.windows = Some(strings(&["Tool.exe"]));
    let mut second = application(RawRegions::Only(strings(&["us"])));
    second.linux = Some(strings(&["tool.exe"]));
    second.macos = Some(strings(&["TOOL.EXE"]));
    let outcome = load_catalog(
        "rules",
        listed(vec![parsed_file("other", vec![("first", first), ("second", second)])]),
        false,
    );
    assert!(outcome.catalog().is_none());
    assert_eq!(codes(&outcome), vec!["conflicting-all-platform-regions"]);
}

#[test]
fn reports_multiple_schema_invariants_in_one_pass() {
    let mut broken = application(RawRegions::Except(vec![]));
    broken.display_name = Some("first\nsecond".to_owned());
    broken.windows = Some(vec![]);
    broken.android = Some(strings(&["not-a-package"]));
    broken.linux = Some(strings(&["directory/program"]));
    let outcome = load_catalog("rules", listed(vec![parsed_file("broken", vec![("broken", broken)])]), false);
    let codes = codes(&outcome);
    assert!(codes.contains(&"invalid-display-name"));
    assert!(codes.contains(&"invalid-regions"));
    assert!(codes.contains(&"empty-platform-list"));
    assert!(codes.contains(&"invalid-android-package"));
    assert!(codes.contains(&"invalid-process-name"));
    assert!(outcome.catalog().is_none());
}

#[test]
fn duplicate_application_ids_are_global_across_categories() {
    let make = || {
        let mut app = application(RawRegions::Only(strings(&["jp"])));
        app.linux = Some(strings(&["demo"]));
        app
    };
    let outcome = load_catalog(
        "rules",
        listed(vec![
            parsed_file("first", vec![("duplicate", make())]),
            parsed_file("second", vec![("duplicate", make())]),
        ]),
        false,
    );
    assert!(codes(&outcome).contains(&"duplicate-application-id"));
}

#[test]
fn windows_suffix_warning_does_not_block_generation() {
    let mut helper = application(RawRegions::Any("any".to_owned()));
    helper.windows = Some(strings(&["helper"]));
    let outcome = load_catalog("rules", listed(vec![parsed_file("other", vec![("helper", helper)])]), false);
    assert_eq!(outcome.error_count(), 0);
    assert_eq!(outcome.warning_count(), 1);
    assert!(outcome.catalog().is_some());
    assert_eq!(outcome.diagnostics()[0].severity, Severity::Warning);
}

#[test]
fn empty_catalog_is_rejected_only_when_required() {
    let empty = || listed(vec![parsed_file("other", vec![])]);
    let lenient = load_catalog("rules", empty(), false);
    assert!(lenient.catalog().is_some());
    assert!(lenient.diagnostics().is_empty());
    let strict = load_catalog("rules", empty(), true);
    assert!(strict.catalog().is_none());
    assert_eq!(codes(&strict), vec!["empty-catalog"]);
    assert!(matches!(strict.into_catalog(), Err(Error::ValidationFailed { errors: 1 })));
}

#[test]
fn unreadable_sources_are_reported_with_positions() {
    let invalid = RuleFile {
        path: "rules/bad.toml".to_owned(),
        stem: Some("bad".to_owned()),
        content: RuleFileContent::Invalid {
            message: "expected `=`".to_owned(),
            source: "version = 1\n[x\n".to_owned(),
            offset: Some(14),
        },
    };
    let unreadable = RuleFile {
        path: "rules/gone.toml".to_owned(),
        stem: Some("gone".to_owned()),
        content: RuleFileContent::Unreadable("permission denied".to_owned()),
    };
    let outcome = load_catalog(
        "rules",
        RulesListing::Listed { entry_errors: strings(&["broken entry"]), files: vec![invalid, unreadable] },
        false,
    );
    assert!(outcome.catalog().is_none());
    assert_eq!(
        codes(&outcome),
        vec!["rules-dir-entry-unreadable", "invalid-toml", "rule-file-unreadable"]
    );
    assert_eq!(outcome.diagnostics()[1].line, Some(2));
    assert_eq!(outcome.diagnostics()[1].column, Some(3));
    let missing = load_catalog("rules", RulesListing::Unreadable("not found".to_owned()), false);
    assert_eq!(codes(&missing), vec!["rules-dir-unreadable"]);
    assert_eq!(missing.error_count(), 1);
}

#[test]
fn wrong_schema_version_is_an_error() {
    let mut file = parsed_file("other", vec![]);
    if let RuleFileContent::Parsed(raw) = &mut file.content {
        raw.version = 2;
    }
    let outcome = load_catalog("rules", listed(vec![file]), false);
    assert_eq!(codes(&outcome), vec!["unsupported-version"]);
}

#[test]
fn applications_are_ordered_by_id_across_files() -> TestResult {
    let make = |name: &str| {
        let mut app = application(RawRegions::Any("any".to_owned()));
        app.linux = Some(strings(&[name]));
        app
    };
    let outcome = load_catalog(
        "rules",
        listed(vec![
            parsed_file("b", vec![("zeta", make("z")), ("alpha", make("a"))]),
            parsed_file("a", vec![("mid", make("m"))]),
        ]),
        false,
    );
    let catalog = outcome.into_catalog().map_err(|error| format!("{error:?}"))?;
    let ids = catalog.applications().iter().map(|app| app.id().as_str().to_owned()).collect::<Vec<_>>();
    assert_eq!(ids, strings(&["alpha", "mid", "zeta"]));
    assert_eq!(catalog.applications()[1].category(), "a");
    Ok(())
}

#[test]
fn region_fields_are_validated() {
    assert!(validate_regions(RawRegions::Any("any".to_owned())).is_ok());
    assert!(validate_regions(RawRegions::Any("all".to_owned())).is_err());
    assert!(validate_regions(RawRegions::Only(strings(&["jp", "hk"]))).is_ok());
    assert!(validate_regions(RawRegions::Only(strings(&["jp", "jp"]))).is_err());
    assert!(validate_regions(RawRegions::Except(strings(&["xx"]))).is_err());
}

#[test]
fn byte_offsets_become_one_based_lines_and_columns() {
    assert_eq!(byte_offset_position("abc", 0), (1, 1));
    assert_eq!(byte_offset_position("abc\ndef", 5), (2, 2));
    assert_eq!(byte_offset_position("é\nx", 1), (1, 2));
    assert_eq!(byte_offset_position("éa", 2), (1, 2));
    assert_eq!(byte_offset_position("ab", 10), (1, 3));
}

#[test]
fn error_and_warning_counts_cover_every_diagnostic() {
    let mut helper = application(RawRegions::Any("any".to_owned()));
    helper.windows = Some(strings(&["helper", "Tool.exe", "bad/name"]));
    let outcome = load_catalog("rules", listed(vec![parsed_file("other", vec![("helper", helper)])]), false);
    assert_eq!(outcome.error_count(), 1);
    assert_eq!(outcome.warning_count(), 1);
    assert_eq!(outcome.error_count() + outcome.warning_count(), outcome.diagnostics().len());
    assert!(outcome.catalog().is_none());
}

#[test]
fn applications_without_process_names_are_rejected() {
    let nameless = application(RawRegions::Only(strings(&["jp"])));
    let mut empty_lists = application(RawRegions::Only(strings(&["jp"])));
    empty_lists.linux = Some(vec![]);
    let outcome = load_catalog(
        "rules",
        listed(vec![parsed_file("other", vec![("empty-lists", empty_lists), ("nameless", nameless)])]),
        false,
    );
    assert!(outcome.catalog().is_none());
    let found = codes(&outcome);
    assert!(found.contains(&"missing-process-name"));
    assert!(found.contains(&"empty-platform-list"));
}

#[test]
fn glob_process_names_are_rejected_in_rule_files() {
    let mut wildcard = application(RawRegions::Only(strings(&["jp"])));
    wildcard.windows = Some(strings(&["*.exe"]));
    let outcome = load_catalog("rules", listed(vec![parsed_file("other", vec![("wildcard", wildcard)])]), false);
    assert!(outcome.catalog().is_none());
    assert_eq!(codes(&outcome), vec!["invalid-process-name"]);
}

#[test]
fn loaded_applications_carry_their_file_and_category() -> TestResult {
    let make = |name: &str| {
        let mut app = application(RawRegions::Only(strings(&["jp"])));
        app.linux = Some(strings(&[name]));
        app
    };
    let outcome = load_catalog(
        "rules",
        listed(vec![
            parsed_file("games", vec![("beta", make("b"))]),
            parsed_file("media", vec![("alpha", make("a"))]),
        ]),
        false,
    );
    let catalog = outcome.into_catalog().map_err(|error| format!("{error:?}"))?;
    let apps = catalog.applications();
    assert_eq!(apps[0].id().as_str(), "alpha");
    assert_eq!(apps[0].category(), "media");
    assert_eq!(apps[0].source(), "rules/media.toml");
    assert_eq!(apps[1].category(), "games");
    assert_eq!(apps[1].source(), "rules/games.toml");
    Ok(())
}

#[test]
fn rule_files_are_loaded_in_path_order_whatever_the_listing_order() {
    let make = || {
        let mut app = application(RawRegions::Only(strings(&["jp"])));
        app.linux = Some(strings(&["demo"]));
        app
    };
    let outcome = load_catalog(
        "rules",
        listed(vec![
            parsed_file("second", vec![("duplicate", make())]),
            parsed_file("first", vec![("duplicate", make())]),
        ]),
        false,
    );
    let duplicate = &outcome.diagnostics()[0];
    assert_eq!(duplicate.code, "duplicate-application-id");
    assert_eq!(duplicate.file, "rules/second.toml");
    assert_eq!(
        duplicate.message,
        "application ID `duplicate` was already defined in `rules/first.toml`"
    );
    let reordered = load_catalog(
        "rules",
        listed(vec![
            parsed_file("first", vec![("duplicate", make())]),
            parsed_file("second", vec![("duplicate", make())]),
        ]),
        false,
    );
    assert_eq!(outcome.diagnostics(), reordered.diagnostics());
}
