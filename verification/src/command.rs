//! The decisions behind the command-line queries: which names one artifact holds, what an
//! explain query answers, and how a validation run is summarized.

use vstd::prelude::*;

use crate::application::name_views;
use crate::catalog::{
    Catalog, Explanation, ExplanationView, collection_available, explain_all, explanation_views,
    selection,
};
use crate::collection::{Collection, collection_name, collection_parse};
use crate::diagnostic::{Severity, decimal, decimal_text};
use crate::error::Error;
use crate::loader::{ValidationOutcome, severity_count};
use crate::platform::{PlatformSelection, ProcessName, platform_name, selection_name};
use crate::region::{comma_joined, region_set_text};
use crate::catalog::string_views;

verus! {

/// The names of the artifact of `collection` on `platform`: an error when `collection` is not
/// a collection identifier, or when its region does not occur in the catalog.
pub fn build_selection(catalog: &Catalog, platform: PlatformSelection, collection: &str) -> (r:
    Result<Vec<ProcessName>, Error>)
    ensures
        match collection_parse(collection@) {
            Err(_) => r matches Err(Error::InvalidCollection(text)) && text@ == collection@,
            Ok(c) => if collection_available(catalog@, c) {
                r matches Ok(names) && name_views(names@) == selection(catalog@, platform, c)
            } else {
                r matches Err(Error::UnavailableCollection(name)) && name@ == collection_name(c)
            },
        },
{
    match Collection::parse(collection) {
        Err(_) => Err(Error::InvalidCollection(collection.to_owned())),
        Ok(parsed) => match catalog.select(platform, &parsed) {
            Some(names) => Ok(names),
            None => Err(Error::UnavailableCollection(parsed.name())),
        },
    }
}

/// The records of an explain query, or `NotFound` when nothing matches.
pub fn explain_query(catalog: &Catalog, platform: PlatformSelection, process: &str) -> (r: Result<
    Vec<Explanation>,
    Error,
>)
    ensures
        explain_all(catalog@, catalog@, platform, process@).len() == 0 ==> (r matches Err(
            Error::NotFound { process: p, platform: q },
        ) && p@ == process@ && q@ == selection_name(platform)),
        explain_all(catalog@, catalog@, platform, process@).len() > 0 ==> (r matches Ok(found)
            && explanation_views(found@) == explain_all(catalog@, catalog@, platform, process@)),
{
    let found = catalog.explain(platform, process);
    if found.len() == 0 {
        Err(Error::NotFound { process: process.to_owned(), platform: platform.as_str().to_owned() })
    } else {
        Ok(found)
    }
}

/// The summary line of a successful validation.
pub open spec fn summary_text(applications: nat, warnings: nat) -> Seq<char> {
    "valid: "@ + decimal(applications) + " application(s), "@ + decimal(warnings)
        + " warning(s)"@
}

/// The summary of a validation run: `ValidationFailed` when it found errors, and otherwise
/// the number of applications and of warnings.
pub fn validation_summary(outcome: &ValidationOutcome) -> (r: Result<String, Error>)
    ensures
        severity_count(outcome@.diagnostics, Severity::Error) > 0 ==> (r matches Err(
            Error::ValidationFailed { errors },
        ) && errors == severity_count(outcome@.diagnostics, Severity::Error)),
        severity_count(outcome@.diagnostics, Severity::Error) == 0 ==> (r matches Ok(text) && text@
            == summary_text(
            match outcome@.catalog {
                Some(c) => c.len(),
                None => 0,
            },
            severity_count(outcome@.diagnostics, Severity::Warning),
        )),
{
    let errors = outcome.error_count();
    if errors > 0 {
        return Err(Error::ValidationFailed { errors });
    }
    let warnings = outcome.warning_count();
    let applications = match outcome.catalog() {
        Some(catalog) => catalog.application_count(),
        None => 0,
    };
    let mut text = "valid: ".to_owned();
    let digits = decimal_text(applications);
    text.append(digits.as_str());
    text.append(" application(s), ");
    let digits = decimal_text(warnings);
    text.append(digits.as_str());
    text.append(" warning(s)");
    Ok(text)
}

/// The lines describing one explain record.
pub open spec fn explanation_text(e: ExplanationView) -> Seq<char> {
    "application: "@ + e.application + "\n"@ + match e.display_name {
        Some(name) => "display-name: "@ + name + "\n"@,
        None => Seq::empty(),
    } + "category: "@ + e.category + "\n"@ + "platform: "@ + platform_name(e.platform) + "\n"@
        + "process: "@ + e.process + "\n"@ + "regions: "@ + region_set_text(e.regions) + "\n"@
        + "collections: "@ + comma_joined(e.collections) + "\n"@
}

/// The records of an explain query, separated by blank lines.
pub open spec fn explanations_text(es: Seq<ExplanationView>) -> Seq<char>
    decreases es.len(),
{
    if es.len() == 0 {
        Seq::empty()
    } else if es.len() == 1 {
        explanation_text(es[0])
    } else {
        explanations_text(es.drop_last()) + "\n"@ + explanation_text(es.last())
    }
}

fn join_texts(v: &Vec<String>) -> (r: String)
    ensures
        r@ == comma_joined(string_views(v@)),
{
    let ghost q = string_views(v@);
    let mut r = String::new();
    assert(q.take(0) =~= Seq::<Seq<char>>::empty());
    let mut i: usize = 0;
    while i < v.len()
        invariant
            q == string_views(v@),
            i <= v.len(),
            r@ == comma_joined(q.take(i as int)),
        decreases v.len() - i,
    {
        assert(q.take(i + 1).drop_last() =~= q.take(i as int));
        assert(q.take(i + 1).last() == v@[i as int]@);
        if i > 0 {
            r.append(", ");
        } else {
            assert(q.take(1) =~= seq![q[0]]);
        }
        r.append(v[i].as_str());
        i = i + 1;
    }
    assert(q.take(v.len() as int) =~= q);
    r
}

fn explanation_lines(e: &Explanation) -> (r: String)
    ensures
        r@ == explanation_text(e@),
{
    let mut r = "application: ".to_owned();
    r.append(e.application.as_str());
    r.append("\n");
    match &e.display_name {
        Some(name) => {
            r.append("display-name: ");
            r.append(name.as_str());
            r.append("\n");
        },
        None => {},
    }
    r.append("category: ");
    r.append(e.category.as_str());
    r.append("\n");
    r.append("platform: ");
    r.append(e.platform.as_str());
    r.append("\n");
    r.append("process: ");
    r.append(e.process.as_str());
    r.append("\n");
    r.append("regions: ");
    let regions = e.regions.render();
    r.append(regions.as_str());
    r.append("\n");
    r.append("collections: ");
    let collections = join_texts(&e.collections);
    r.append(collections.as_str());
    r.append("\n");
    r
}

/// The text an explain query prints: each record's lines, with a blank line between records.
pub fn explanation_report(explanations: &[Explanation]) -> (r: String)
    ensures
        r@ == explanations_text(explanation_views(explanations@)),
{
    let ghost es = explanation_views(explanations@);
    let mut r = String::new();
    assert(es.take(0) =~= Seq::<ExplanationView>::empty());
    let mut i: usize = 0;
    while i < explanations.len()
        invariant
            es == explanation_views(explanations@),
            i <= explanations.len(),
            r@ == explanations_text(es.take(i as int)),
        decreases explanations.len() - i,
    {
        assert(es.take(i + 1).drop_last() =~= es.take(i as int));
        assert(es.take(i + 1).last() == explanations@[i as int]@);
        if i > 0 {
            r.append("\n");
        } else {
            assert(es.take(1)[0] == es[0]);
        }
        let lines = explanation_lines(&explanations[i]);
        r.append(lines.as_str());
        i = i + 1;
    }
    assert(es.take(explanations.len() as int) =~= es);
    r
}

} // verus!
