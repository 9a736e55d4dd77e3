use process_rules::collection::Collection;
use process_rules::loader::{
    RawApplication, RawRegions, RawRuleFile, RuleFile, RuleFileContent, RulesListing, load_catalog,
};
use process_rules::catalog::Catalog;
use process_rules::output::{plan_build, render_mihomo, sha256_hex};
use process_rules::platform::{Platform, PlatformSelection, ProcessName};
use process_rules::region::Region;

type TestResult<T = ()> = Result<T, Box<dyn std::error::Error>>;

fn strings(values: &[&str]) -> Vec<String> {
    values.iter().map(|value| (*value).to_owned()).collect()
}

fn application(regions: RawRegions) -> RawApplication {
    RawApplication { display_name: None, regions, windows: None, android: None, linux: None, macos: None }
}

fn catalog_of(applications: Vec<(&str, RawApplication)>) -> TestResult<Catalog> {
    let file = RuleFile {
        path: "rules/other.toml".to_owned(),
        stem: Some("other".to_owned()),
        content: RuleFileContent::Parsed(RawRuleFile {
            version: 1,
            applications: applications.into_iter().map(|(id, app)| (id.to_owned(), app)).collect(),
        }),
    };
    let outcome = load_catalog("rules", RulesListing::Listed { entry_errors: vec![], files: vec![file] }, false);
    Ok(outcome.into_catalog().map_err(|error| format!("{error:?}"))?)
}

fn names(values: &[ProcessName]) -> Vec<String> {
    values.iter().map(|name| name.as_str().to_owned()).collect()
}

fn demo_catalog() -> TestResult<Catalog> {
    let mut china = application(RawRegions::Only(strings(&["cn-mainland"])));
    china.display_name = Some("China App".to_owned());
    china.windows = Some(strings(&["China.exe"]));
    china.linux = Some(strings(&["china"]));
    let mut mixed = application(RawRegions::Only(strings(&["cn-mainland", "us"])));
    mixed.windows = Some(strings(&["Mixed.exe", "beta.exe"]));
    mixed.macos = Some(strings(&["mixed.EXE"]));
    catalog_of(vec![("china", china), ("mixed", mixed)])
}

#[test]
fn selection_folds_case_and_sorts_by_lowercase_then_exact_name() -> TestResult {
    let catalog = demo_catalog()?;
    let cn = Region::parse("cn-mainland")?;
    let all = catalog.select_available(PlatformSelection::All, &Collection::containing(cn.clone()));
    assert_eq!(names(&all), strings(&["beta.exe", "china", "China.exe", "Mixed.exe"]));
    let windows = catalog.select_available(PlatformSelection::Platform(Platform::Windows), &Collection::containing(cn.clone()));
    assert_eq!(names(&windows), strings(&["beta.exe", "China.exe", "Mixed.exe"]));
    let macos = catalog.select_available(PlatformSelection::Platform(Platform::Macos), &Collection::only(cn));
    assert!(macos.is_empty());
    let unavailable = catalog.select(PlatformSelection::All, &Collection::only(Region::parse("jp")?));
    assert!(unavailable.is_none());
    assert!(catalog.select_available(PlatformSelection::All, &Collection::only(Region::parse("jp")?)).is_empty());
    Ok(())
}

#[test]
fn explain_lists_every_case_insensitive_match() -> TestResult {
    let catalog = demo_catalog()?;
    let found = catalog.explain(PlatformSelection::All, "MIXED.exe");
    assert_eq!(found.len(), 2);
    assert_eq!(found[0].application, "mixed");
    assert_eq!(found[0].platform, Platform::Windows);
    assert_eq!(found[0].process, "Mixed.exe");
    assert_eq!(found[1].platform, Platform::Macos);
    assert_eq!(found[1].process, "mixed.EXE");
    assert_eq!(found[0].regions.render(), "cn-mainland, us");
    assert_eq!(
        found[0].collections,
        strings(&["contain-cn-mainland", "contain-us"])
    );
    let china = catalog.explain(PlatformSelection::Platform(Platform::Windows), "china.EXE");
    assert_eq!(china.len(), 1);
    assert_eq!(china[0].display_name.as_deref(), Some("China App"));
    assert_eq!(china[0].category, "other");
    assert_eq!(
        china[0].collections,
        strings(&["only-cn-mainland", "contain-cn-mainland", "not-contain-us"])
    );
    assert!(catalog.explain(PlatformSelection::Platform(Platform::Linux), "Mixed.exe").is_empty());
    assert!(catalog.mentions(&Region::parse("us")?));
    assert!(!catalog.mentions(&Region::parse("jp")?));
    Ok(())
}

#[test]
fn build_plan_covers_every_selection_and_collection() -> TestResult {
    let catalog = demo_catalog()?;
    let plan = plan_build(&catalog, "process-rules", "0.1.0", "unknown");
    let collections = catalog.collections();
    assert_eq!(
        collections.iter().map(Collection::name).collect::<Vec<_>>(),
        strings(&[
            "any",
            "only-cn-mainland",
            "contain-cn-mainland",
            "not-contain-cn-mainland",
            "only-us",
            "contain-us",
            "not-contain-us",
        ])
    );
    assert_eq!(plan.files.len(), 5 * collections.len());
    assert_eq!(plan.manifest.artifacts.len(), plan.files.len());
    assert_eq!(plan.manifest.license, "GPL-3.0-or-later");
    assert_eq!(plan.manifest.applications, 2);
    assert_eq!(plan.manifest.schema_version, 1);
    assert_eq!(plan.manifest.generator, "process-rules");
    assert_eq!(plan.manifest.source_commit, "unknown");
    assert_eq!(plan.files[0].path, "mihomo/windows/any.list");
    assert_eq!(plan.files[2].path, "mihomo/windows/contain-cn-mainland.list");
    assert_eq!(plan.files[2].content, "PROCESS-NAME,beta.exe\nPROCESS-NAME,China.exe\nPROCESS-NAME,Mixed.exe\n");
    let last = plan.files.len() - 1;
    assert_eq!(plan.files[last].path, "mihomo/all/not-contain-us.list");
    assert_eq!(plan.files[last].content, "PROCESS-NAME,china\nPROCESS-NAME,China.exe\n");
    for (file, artifact) in plan.files.iter().zip(&plan.manifest.artifacts) {
        assert_eq!(file.path, artifact.path);
        assert_eq!(artifact.sha256, sha256_hex(file.content.as_bytes()));
        assert_eq!(artifact.entries, file.content.lines().count());
    }
    assert_eq!(plan.manifest.artifacts[2].platform, "windows");
    assert_eq!(plan.manifest.artifacts[2].collection, "contain-cn-mainland");
    assert_eq!(plan.manifest.artifacts[2].entries, 3);
    let again = plan_build(&catalog, "process-rules", "0.1.0", "unknown");
    assert_eq!(plan.manifest, again.manifest);
    let names = catalog.select_available(PlatformSelection::Platform(Platform::Windows), &collections[2]);
    assert_eq!(render_mihomo(&names), plan.files[2].content);
    Ok(())
}

#[test]
fn categories_and_ids_do_not_change_the_output() -> TestResult {
    let make = |display: Option<&str>| {
        let mut app = application(RawRegions::Only(strings(&["jp"])));
        app.display_name = display.map(str::to_owned);
        app.windows = Some(strings(&["Game.exe"]));
        app
    };
    let in_file = |stem: &str, id: &str, display: Option<&str>| RuleFile {
        path: format!("rules/{stem}.toml"),
        stem: Some(stem.to_owned()),
        content: RuleFileContent::Parsed(RawRuleFile { version: 1, applications: vec![(id.to_owned(), make(display))] }),
    };
    let first = load_catalog(
        "rules",
        RulesListing::Listed { entry_errors: vec![], files: vec![in_file("games", "game", Some("Game"))] },
        false,
    )
    .into_catalog()
    .map_err(|error| error.render())?;
    let second = load_catalog(
        "rules",
        RulesListing::Listed { entry_errors: vec![], files: vec![in_file("other", "renamed", None)] },
        false,
    )
    .into_catalog()
    .map_err(|error| error.render())?;
    let a = plan_build(&first, "process-rules", "0.1.0", "unknown");
    let b = plan_build(&second, "process-rules", "0.1.0", "unknown");
    assert_eq!(a.manifest, b.manifest);
    assert_eq!(
        a.files.iter().map(|f| (f.path.clone(), f.content.clone())).collect::<Vec<_>>(),
        b.files.iter().map(|f| (f.path.clone(), f.content.clone())).collect::<Vec<_>>()
    );
    Ok(())
}

#[test]
fn complete_build_is_reproducible() -> TestResult {
    let mut demo = application(RawRegions::Only(strings(&["cn-mainland"])));
    demo.linux = Some(strings(&["demo"]));
    let catalog = catalog_of(vec![("demo", demo)])?;
    let first = plan_build(&catalog, "process-rules", "0.1.0", "unknown");
    let second = plan_build(&catalog, "process-rules", "0.1.0", "unknown");
    assert!(first.files.iter().any(|file| file.path == "mihomo/linux/only-cn-mainland.list"));
    assert_eq!(first.manifest, second.manifest);
    let contents = |plan: &process_rules::output::BuildPlan| {
        plan.files.iter().map(|file| (file.path.clone(), file.content.clone())).collect::<Vec<_>>()
    };
    assert_eq!(contents(&first), contents(&second));
    Ok(())
}
