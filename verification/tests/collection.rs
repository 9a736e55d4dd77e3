use process_rules::collection::{Collection, RegionRelation};
use process_rules::region::{Region, RegionSet};

type TestResult<T = ()> = Result<T, Box<dyn std::error::Error>>;

fn region(value: &str) -> TestResult<Region> {
    Ok(value.parse()?)
}

fn regions(values: &[&str]) -> TestResult<RegionSet> {
    let mut parsed = Vec::new();
    for value in values {
        parsed.push(region(value)?);
    }
    Ok(RegionSet::only(parsed)?)
}

fn except(values: &[&str]) -> TestResult<RegionSet> {
    let mut parsed = Vec::new();
    for value in values {
        parsed.push(region(value)?);
    }
    Ok(RegionSet::except(parsed)?)
}

#[test]
fn every_region_uses_the_same_three_relations() -> TestResult {
    let only_cn = regions(&["cn-mainland"])?;
    let only_jp = regions(&["jp"])?;
    let mixed = regions(&["cn-mainland", "jp"])?;
    let except_cn = except(&["cn-mainland"])?;
    let any = RegionSet::any();
    let cn = region("cn-mainland")?;
    let jp = region("jp")?;

    assert!(Collection::only(cn.clone()).matches(&only_cn));
    assert!(Collection::containing(cn.clone()).matches(&only_cn));
    assert!(Collection::containing(cn.clone()).matches(&mixed));
    assert!(Collection::excluding(cn.clone()).matches(&only_jp));

    assert!(Collection::only(jp.clone()).matches(&only_jp));
    assert!(Collection::containing(jp.clone()).matches(&mixed));
    assert!(Collection::excluding(jp).matches(&only_cn));

    assert!(Collection::excluding(cn.clone()).matches(&except_cn));
    assert!(Collection::containing(region("jp")?).matches(&except_cn));
    assert!(!Collection::only(cn).matches(&except_cn));

    assert!(!Collection::excluding(region("us")?).matches(&any));
    assert!(Collection::Any.matches(&any));
    Ok(())
}

#[test]
fn parses_generic_region_collections() -> TestResult {
    assert_eq!(
        "only-cn-mainland".parse::<Collection>(),
        Ok(Collection::only(region("cn-mainland")?))
    );
    assert_eq!(
        "contain-jp".parse::<Collection>(),
        Ok(Collection::containing(region("jp")?))
    );
    assert_eq!(
        "not-contain-us".parse::<Collection>(),
        Ok(Collection::excluding(region("us")?))
    );
    assert!("only-cn".parse::<Collection>().is_err());
    Ok(())
}

#[test]
fn collection_names_parse_back_to_the_same_collection() -> TestResult {
    let collections = [
        Collection::Any,
        Collection::only(region("cn-mainland")?),
        Collection::containing(region("jp")?),
        Collection::excluding(region("us")?),
    ];
    for collection in collections {
        assert_eq!(Collection::parse(&collection.name()), Ok(collection));
    }
    assert_eq!(Collection::only(region("hk")?).name(), "only-hk");
    assert_eq!(Collection::containing(region("hk")?).name(), "contain-hk");
    assert_eq!(Collection::excluding(region("hk")?).name(), "not-contain-hk");
    Ok(())
}

#[test]
fn malformed_collection_names_are_rejected() {
    for value in ["", "all", "only-", "contain-", "not-contain-CN", "only-xx", "only-cn-mainland-x", "ONLY-jp"] {
        assert!(Collection::parse(value).is_err(), "{value}");
    }
}

#[test]
fn exactly_one_relation_holds_for_restricted_and_open_sets() -> TestResult {
    let cn = region("cn-mainland")?;
    let sets = [regions(&["cn-mainland"])?, regions(&["cn-mainland", "jp"])?, regions(&["jp"])?, except(&["cn-mainland"])?];
    for set in &sets {
        let contains = RegionRelation::Contains.holds(set, &cn);
        let excludes = RegionRelation::Excludes.holds(set, &cn);
        assert!(contains != excludes);
    }
    assert!(!RegionRelation::Contains.holds(&RegionSet::any(), &cn));
    assert!(!RegionRelation::Excludes.holds(&RegionSet::any(), &cn));
    assert_eq!(RegionRelation::all().len(), 3);
    assert_eq!(RegionRelation::Only.slug(), "only");
    assert_eq!(RegionRelation::Contains.slug(), "contain");
    assert_eq!(RegionRelation::Excludes.slug(), "not-contain");
    Ok(())
}
