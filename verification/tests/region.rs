use process_rules::region::{Region, RegionSet, canonical_region_ids};

type TestResult<T = ()> = Result<T, Box<dyn std::error::Error>>;

#[test]
fn canonical_registry_is_sorted_and_unique() -> TestResult {
    let ids = canonical_region_ids();
    assert_eq!(ids.len(), 249);
    assert!(ids.windows(2).all(|pair| pair[0].as_str() < pair[1].as_str()));
    assert!(Region::parse("cn").is_err());
    assert!(Region::parse("CN").is_err());
    assert_eq!(Region::parse("cn-mainland")?.as_str(), "cn-mainland");
    assert!(Region::parse("jp").is_ok());
    Ok(())
}

#[test]
fn restricted_region_sets_are_non_empty() -> TestResult {
    assert!(RegionSet::only(vec![]).is_err());
    assert!(RegionSet::except(vec![]).is_err());
    assert!(RegionSet::only(vec![Region::parse("jp")?]).is_ok());
    assert!(RegionSet::except(vec![Region::parse("jp")?]).is_ok());
    Ok(())
}

#[test]
fn exclusion_sets_invert_region_membership() -> TestResult {
    let cn = Region::parse("cn-mainland")?;
    let jp = Region::parse("jp")?;
    let regions = RegionSet::except(vec![cn.clone()])?;

    assert!(!regions.contains(&cn));
    assert!(regions.excludes(&cn));
    assert!(regions.contains(&jp));
    assert!(!regions.excludes(&jp));
    assert_eq!(regions.render(), "except cn-mainland");
    Ok(())
}

#[test]
fn every_canonical_region_parses_to_itself() {
    for id in canonical_region_ids() {
        assert_eq!(Region::parse(id.as_str()).map(|r| r.as_str().to_owned()), Ok(id.as_str().to_owned()));
    }
    assert!(canonical_region_ids().iter().any(|r| r.as_str() == "cn-mainland"));
    assert!(!canonical_region_ids().iter().any(|r| r.as_str() == "cn"));
}

#[test]
fn region_sets_are_sorted_deduplicated_and_rendered() -> TestResult {
    let jp = Region::parse("jp")?;
    let hk = Region::parse("hk")?;
    let set = RegionSet::only(vec![jp.clone(), hk.clone(), jp.clone()])?;
    assert_eq!(set.render(), "hk, jp");
    assert_eq!(
        set.mentioned_regions().iter().map(|r| r.as_str().to_owned()).collect::<Vec<_>>(),
        vec!["hk".to_owned(), "jp".to_owned()]
    );
    assert!(set.contains(&hk) && set.contains(&jp));
    assert!(!set.is_only(&jp));
    assert!(RegionSet::only(vec![jp.clone()])?.is_only(&jp));
    assert_eq!(RegionSet::any().render(), "any");
    assert!(RegionSet::any().is_any());
    assert!(!RegionSet::any().contains(&jp));
    assert!(!RegionSet::any().excludes(&jp));
    assert!(RegionSet::any().mentioned_regions().is_empty());
    Ok(())
}

#[test]
fn region_lists_from_text_report_the_first_problem() {
    let strings = |values: &[&str]| values.iter().map(|v| (*v).to_owned()).collect::<Vec<_>>();
    assert!(RegionSet::parse_only(&strings(&["jp", "us"])).is_ok());
    assert!(RegionSet::parse_only(&strings(&[])).is_err());
    assert!(RegionSet::parse_only(&strings(&["jp", "jp"])).is_err());
    assert!(RegionSet::parse_only(&strings(&["JP"])).is_err());
    assert!(RegionSet::parse_except(&strings(&["cn-mainland"])).is_ok());
    assert!(RegionSet::parse_except(&strings(&[])).is_err());
}
