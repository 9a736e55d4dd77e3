//! Validation of parsed rule files into a catalog, with structured diagnostics.

use vstd::prelude::*;

use crate::application::{
    Application, ApplicationId, ApplicationView, PlatformProcesses, ProcessesView, SCHEMA_VERSION,
    app_id_problem, name_views, opt_view,
};
use crate::diagnostic::{
    Diagnostic, DiagnosticView, Severity, plain_diagnostic, with_application, with_field,
};
use crate::platform::{
    NameStatusView, Platform, PlatformNameStatus, ProcessName, name_status, platform_name,
    process_name_problem,
};
use crate::region::{
    RegionSet, RegionSetView, lemma_sorted_members, region_list_problem, sorted_members,
    string_views,
};
use crate::text::{display_name_problem, same_text, validate_display_name};
use crate::outside::{case_fold, case_folded};
use crate::application::platform_names;
use crate::platform::all_platforms;
use crate::catalog::Catalog;
use crate::error::Error;
use crate::text::{chars_less, chars_of, lex_less, text_less, lemma_lex_irreflexive, lemma_lex_asymmetric, lemma_lex_transitive, lemma_lex_total};
use crate::diagnostic::{decimal, decimal_text, with_position};
use vstd::utf8::encode_utf8;

verus! {

broadcast use vstd::seq_lib::lemma_seq_contains_after_push;

/// How an application's `regions` field is written in a rule file.
#[derive(Debug)]
pub enum RawRegions {
    /// A bare string, which must be `any`.
    Any(String),
    /// A list of permitted regions.
    Only(Vec<String>),
    /// A table `{ except = [...] }` listing excluded regions.
    Except(Vec<String>),
}

/// One application table as parsed from a rule file.
#[derive(Debug)]
pub struct RawApplication {
    /// Optional human-facing name.
    pub display_name: Option<String>,
    /// Egress regions.
    pub regions: RawRegions,
    /// Windows executable basenames.
    pub windows: Option<Vec<String>>,
    /// Android package names.
    pub android: Option<Vec<String>>,
    /// Linux process basenames.
    pub linux: Option<Vec<String>>,
    /// macOS executable basenames.
    pub macos: Option<Vec<String>>,
}

/// The view of an optional list of strings.
pub open spec fn opt_strings(o: Option<Vec<String>>) -> Option<Seq<Seq<char>>> {
    match o {
        Some(v) => Some(string_views(v@)),
        None => None,
    }
}

/// The views of a sequence of diagnostics.
pub open spec fn diagnostic_views(s: Seq<Diagnostic>) -> Seq<DiagnosticView> {
    s.map_values(|d: Diagnostic| d@)
}

/// An error about one application and one of its fields.
pub open spec fn field_error(
    code: Seq<char>,
    file: Seq<char>,
    id: Seq<char>,
    field: Seq<char>,
    message: Seq<char>,
) -> DiagnosticView {
    with_field(with_application(plain_diagnostic(Severity::Error, code, file, message), id), field)
}

/// Why a `regions` field is rejected, if it is.
pub open spec fn raw_regions_problem(r: RawRegions) -> Option<Seq<char>> {
    match r {
        RawRegions::Any(v) => if v@ == "any"@ {
            None
        } else {
            Some("regions string must be `any`, found `"@ + v@ + "`"@)
        },
        RawRegions::Only(vals) => region_list_problem(string_views(vals@)),
        RawRegions::Except(vals) => region_list_problem(string_views(vals@)),
    }
}

/// The region set an acceptable `regions` field denotes.
pub open spec fn raw_region_set(r: RawRegions) -> RegionSetView {
    match r {
        RawRegions::Any(_) => RegionSetView::Any,
        RawRegions::Only(vals) => RegionSetView::Only(sorted_members(string_views(vals@))),
        RawRegions::Except(vals) => RegionSetView::Except(sorted_members(string_views(vals@))),
    }
}

/// The diagnostics one source name produces on `platform`.
pub open spec fn name_report(
    file: Seq<char>,
    id: Seq<char>,
    platform: Platform,
    raw: Seq<char>,
) -> Seq<DiagnosticView> {
    match process_name_problem(raw) {
        Some(m) => seq![field_error("invalid-process-name"@, file, id, platform_name(platform), m)],
        None => match name_status(platform, raw) {
            NameStatusView::Valid => Seq::empty(),
            NameStatusView::Warning { code, message } => seq![
                with_field(
                    with_application(plain_diagnostic(Severity::Warning, code, file, message), id),
                    platform_name(platform),
                ),
            ],
            NameStatusView::Error { code, message } => seq![
                field_error(code, file, id, platform_name(platform), message),
            ],
        },
    }
}

/// Whether one source name is kept on `platform`.
pub open spec fn name_accepted(platform: Platform, raw: Seq<char>) -> bool {
    process_name_problem(raw) is None && !(name_status(platform, raw) is Error)
}

/// The diagnostics a list of source names produces, in order.
#[verifier::opaque]
pub open spec fn names_report(
    file: Seq<char>,
    id: Seq<char>,
    platform: Platform,
    raws: Seq<Seq<char>>,
) -> Seq<DiagnosticView>
    decreases raws.len(),
{
    if raws.len() == 0 {
        Seq::empty()
    } else {
        names_report(file, id, platform, raws.drop_last()) + name_report(
            file,
            id,
            platform,
            raws.last(),
        )
    }
}

/// The kept names of a list, in order.
#[verifier::opaque]
pub open spec fn accepted_names(platform: Platform, raws: Seq<Seq<char>>) -> Seq<Seq<char>>
    decreases raws.len(),
{
    if raws.len() == 0 {
        Seq::empty()
    } else {
        accepted_names(platform, raws.drop_last()) + if name_accepted(platform, raws.last()) {
            seq![raws.last()]
        } else {
            Seq::empty()
        }
    }
}

/// The diagnostics of one platform field.
#[verifier::opaque]
pub open spec fn platform_report(
    file: Seq<char>,
    id: Seq<char>,
    platform: Platform,
    raw: Option<Seq<Seq<char>>>,
) -> Seq<DiagnosticView> {
    match raw {
        None => Seq::empty(),
        Some(names) => if names.len() == 0 {
            seq![
                field_error(
                    "empty-platform-list"@,
                    file,
                    id,
                    platform_name(platform),
                    platform_name(platform) + " must be omitted instead of set to an empty array"@,
                ),
            ]
        } else {
            names_report(file, id, platform, names)
        },
    }
}

/// Whether a platform field is acceptable.
#[verifier::opaque]
pub open spec fn platform_valid(platform: Platform, raw: Option<Seq<Seq<char>>>) -> bool {
    match raw {
        None => true,
        Some(names) => names.len() > 0 && forall|i: int|
            0 <= i < names.len() ==> name_accepted(platform, #[trigger] names[i]),
    }
}

/// The names kept from a platform field.
#[verifier::opaque]
pub open spec fn platform_kept(platform: Platform, raw: Option<Seq<Seq<char>>>) -> Seq<Seq<char>> {
    match raw {
        None => Seq::empty(),
        Some(names) => accepted_names(platform, names),
    }
}

/// Validate the `regions` field.
pub fn validate_regions(raw: RawRegions) -> (r: Result<RegionSet, String>)
    ensures
        r is Ok <==> raw_regions_problem(raw) is None,
        r matches Ok(s) ==> s@ == raw_region_set(raw),
        r matches Err(e) ==> raw_regions_problem(raw) == Some(e@),
{
    match raw {
        RawRegions::Any(value) => {
            if same_text(value.as_str(), "any") {
                Ok(RegionSet::any())
            } else {
                let mut message = "regions string must be `any`, found `".to_owned();
                message.append(value.as_str());
                message.append("`");
                Err(message)
            }
        },
        RawRegions::Only(values) => {
            let r = RegionSet::parse_only(values.as_slice());
            proof {
                if let Ok(s) = &r {
                    if let RegionSetView::Only(q) = s@ {
                        lemma_sorted_members(q, string_views(values@));
                    }
                }
            }
            r
        },
        RawRegions::Except(values) => {
            let r = RegionSet::parse_except(values.as_slice());
            proof {
                if let Ok(s) = &r {
                    if let RegionSetView::Except(q) = s@ {
                        lemma_sorted_members(q, string_views(values@));
                    }
                }
            }
            r
        },
    }
}

/// Validate one platform field, appending its diagnostics; returns whether the field is
/// acceptable and the names kept from it.
fn validate_platform_names(
    file: &str,
    id: &ApplicationId,
    platform: Platform,
    raw_names: Option<Vec<String>>,
    diagnostics: &mut Vec<Diagnostic>,
) -> (r: (bool, Vec<ProcessName>))
    ensures
        diagnostic_views(final(diagnostics)@) == diagnostic_views(old(diagnostics)@)
            + platform_report(file@, id@, platform, opt_strings(raw_names)),
        r.0 == platform_valid(platform, opt_strings(raw_names)),
        name_views(r.1@) == platform_kept(platform, opt_strings(raw_names)),
{
    reveal(platform_report);
    reveal(platform_valid);
    reveal(platform_kept);
    reveal(names_report);
    reveal(accepted_names);
    let ghost start = diagnostic_views(diagnostics@);
    let raw_names = match raw_names {
        None => {
            assert(diagnostic_views(diagnostics@) =~= start + Seq::<DiagnosticView>::empty());
            return (true, Vec::new());
        },
        Some(names) => names,
    };
    let ghost raws = string_views(raw_names@);
    if raw_names.len() == 0 {
        let mut message = platform.as_str().to_owned();
        message.append(" must be omitted instead of set to an empty array");
        diagnostics.push(
            Diagnostic::error("empty-platform-list", file, message).application(
                id.to_text(),
            ).field(platform.as_str()),
        );
        assert(diagnostic_views(diagnostics@) =~= start + platform_report(
            file@,
            id@,
            platform,
            Some(raws),
        ));
        let names: Vec<ProcessName> = Vec::new();
        assert(name_views(names@) =~= accepted_names(platform, raws));
        return (false, names);
    }
    let mut names: Vec<ProcessName> = Vec::new();
    let mut valid = true;
    let mut i: usize = 0;
    assert(raws.take(0) =~= Seq::<Seq<char>>::empty());
    assert(diagnostic_views(diagnostics@) =~= start + names_report(file@, id@, platform, raws.take(0)));
    assert(name_views(names@) =~= accepted_names(platform, raws.take(0)));
    while i < raw_names.len()
        invariant
            raws == string_views(raw_names@),
            raws.len() > 0,
            i <= raw_names.len(),
            diagnostic_views(diagnostics@) == start + names_report(
                file@,
                id@,
                platform,
                raws.take(i as int),
            ),
            name_views(names@) == accepted_names(platform, raws.take(i as int)),
            valid == (forall|j: int| 0 <= j < i ==> name_accepted(platform, #[trigger] raws[j])),
        decreases raw_names.len() - i,
    {
        proof {
            reveal(names_report);
            reveal(accepted_names);
        }
        let raw_name = &raw_names[i];
        let ghost x = raw_name@;
        assert(raws[i as int] == x);
        assert(raws.take(i + 1).drop_last() =~= raws.take(i as int));
        assert(raws.take(i + 1).last() == x);
        let ghost before = diagnostic_views(diagnostics@);
        let ghost kept_before = name_views(names@);
        match ProcessName::parse(raw_name.as_str()) {
            Err(message) => {
                diagnostics.push(
                    Diagnostic::error("invalid-process-name", file, message).application(
                        id.to_text(),
                    ).field(platform.as_str()),
                );
                valid = false;
                assert(diagnostic_views(diagnostics@) =~= before + name_report(
                    file@,
                    id@,
                    platform,
                    x,
                ));
                assert(name_views(names@) =~= kept_before + Seq::<Seq<char>>::empty());
            },
            Ok(name) => {
                match platform.check_name(&name) {
                    PlatformNameStatus::Valid => {
                        names.push(name);
                        assert(diagnostic_views(diagnostics@) =~= before + Seq::<
                            DiagnosticView,
                        >::empty());
                        assert(name_views(names@) =~= kept_before + seq![x]);
                    },
                    PlatformNameStatus::Warning { code, message } => {
                        diagnostics.push(
                            Diagnostic::warning(code, file, message).application(
                                id.to_text(),
                            ).field(platform.as_str()),
                        );
                        names.push(name);
                        assert(diagnostic_views(diagnostics@) =~= before + name_report(
                            file@,
                            id@,
                            platform,
                            x,
                        ));
                        assert(name_views(names@) =~= kept_before + seq![x]);
                    },
                    PlatformNameStatus::Error { code, message } => {
                        diagnostics.push(
                            Diagnostic::error(code, file, message).application(
                                id.to_text(),
                            ).field(platform.as_str()),
                        );
                        valid = false;
                        assert(diagnostic_views(diagnostics@) =~= before + name_report(
                            file@,
                            id@,
                            platform,
                            x,
                        ));
                        assert(name_views(names@) =~= kept_before + Seq::<Seq<char>>::empty());
                    },
                }
            },
        }
        i = i + 1;
    }
    assert(raws.take(raw_names.len() as int) =~= raws);
    (valid, names)
}

/// The diagnostic of the `display_name` field, if any.
pub open spec fn display_report(file: Seq<char>, id: Seq<char>, name: Option<Seq<char>>) -> Seq<
    DiagnosticView,
> {
    match name {
        Some(n) => match display_name_problem(n) {
            Some(m) => seq![field_error("invalid-display-name"@, file, id, "display_name"@, m)],
            None => Seq::empty(),
        },
        None => Seq::empty(),
    }
}

/// The diagnostic of the `regions` field, if any.
pub open spec fn regions_report(file: Seq<char>, id: Seq<char>, regions: RawRegions) -> Seq<
    DiagnosticView,
> {
    match raw_regions_problem(regions) {
        Some(m) => seq![field_error("invalid-regions"@, file, id, "regions"@, m)],
        None => Seq::empty(),
    }
}

/// Whether an optional list is present and non-empty.
pub open spec fn has_entries(o: Option<Vec<String>>) -> bool {
    o matches Some(v) && v@.len() > 0
}

/// Whether an application lists at least one name on some platform.
pub open spec fn has_process_name(raw: RawApplication) -> bool {
    has_entries(raw.windows) || has_entries(raw.android) || has_entries(raw.linux) || has_entries(
        raw.macos,
    )
}

/// The diagnostic of an application without any name, if it has none.
pub open spec fn missing_name_report(file: Seq<char>, id: Seq<char>, raw: RawApplication) -> Seq<
    DiagnosticView,
> {
    if has_process_name(raw) {
        Seq::empty()
    } else {
        seq![
            with_application(
                plain_diagnostic(
                    Severity::Error,
                    "missing-process-name"@,
                    file,
                    "application must define at least one process name on one platform"@,
                ),
                id,
            ),
        ]
    }
}

/// Every diagnostic one application table produces, in order.
pub open spec fn application_report(file: Seq<char>, id: Seq<char>, raw: RawApplication) -> Seq<
    DiagnosticView,
> {
    display_report(file, id, opt_view(raw.display_name)) + regions_report(file, id, raw.regions)
        + missing_name_report(file, id, raw) + platform_report(
        file,
        id,
        Platform::Windows,
        opt_strings(raw.windows),
    ) + platform_report(file, id, Platform::Android, opt_strings(raw.android))
        + platform_report(file, id, Platform::Linux, opt_strings(raw.linux)) + platform_report(
        file,
        id,
        Platform::Macos,
        opt_strings(raw.macos),
    )
}

/// Whether an application table is accepted.
pub open spec fn application_valid(raw: RawApplication) -> bool {
    &&& match opt_view(raw.display_name) {
        Some(n) => display_name_problem(n) is None,
        None => true,
    }
    &&& raw_regions_problem(raw.regions) is None
    &&& has_process_name(raw)
    &&& platform_valid(Platform::Windows, opt_strings(raw.windows))
    &&& platform_valid(Platform::Android, opt_strings(raw.android))
    &&& platform_valid(Platform::Linux, opt_strings(raw.linux))
    &&& platform_valid(Platform::Macos, opt_strings(raw.macos))
}

/// The application an accepted table denotes.
pub open spec fn application_of(
    category: Seq<char>,
    file: Seq<char>,
    id: Seq<char>,
    raw: RawApplication,
) -> ApplicationView {
    ApplicationView {
        id,
        display_name: opt_view(raw.display_name),
        category,
        source: file,
        regions: raw_region_set(raw.regions),
        processes: ProcessesView {
            windows: platform_kept(Platform::Windows, opt_strings(raw.windows)),
            android: platform_kept(Platform::Android, opt_strings(raw.android)),
            linux: platform_kept(Platform::Linux, opt_strings(raw.linux)),
            macos: platform_kept(Platform::Macos, opt_strings(raw.macos)),
        },
    }
}

fn has_names(o: &Option<Vec<String>>) -> (r: bool)
    ensures
        r == has_entries(*o),
{
    match o {
        Some(v) => v.len() > 0,
        None => false,
    }
}

/// Validate one application table, appending its diagnostics.
#[verifier::rlimit(60)]
pub fn validate_application(
    id: ApplicationId,
    category: &str,
    file: &str,
    raw: RawApplication,
    diagnostics: &mut Vec<Diagnostic>,
) -> (r: Option<Application>)
    ensures
        diagnostic_views(final(diagnostics)@) == diagnostic_views(old(diagnostics)@)
            + application_report(file@, id@, raw),
        r is Some <==> application_valid(raw),
        r matches Some(a) ==> a@ == application_of(category@, file@, id@, raw),
{
    let ghost start = diagnostic_views(diagnostics@);
    let ghost g = raw;
    let has_process = has_names(&raw.windows) || has_names(&raw.android) || has_names(&raw.linux)
        || has_names(&raw.macos);
    let RawApplication { display_name, regions, windows, android, linux, macos } = raw;
    let display_name_valid = match &display_name {
        Some(name) => match validate_display_name(name.as_str()) {
            Ok(()) => true,
            Err(message) => {
                diagnostics.push(
                    Diagnostic::error("invalid-display-name", file, message).application(
                        id.to_text(),
                    ).field("display_name"),
                );
                false
            },
        },
        None => true,
    };
    assert(diagnostic_views(diagnostics@) =~= start + display_report(
        file@,
        id@,
        opt_view(g.display_name),
    ));
    let ghost after_display = diagnostic_views(diagnostics@);
    let region_set = match validate_regions(regions) {
        Ok(region_set) => Some(region_set),
        Err(message) => {
            diagnostics.push(
                Diagnostic::error("invalid-regions", file, message).application(
                    id.to_text(),
                ).field("regions"),
            );
            None
        },
    };
    assert(diagnostic_views(diagnostics@) =~= after_display + regions_report(
        file@,
        id@,
        g.regions,
    ));
    let ghost after_regions = diagnostic_views(diagnostics@);
    if !has_process {
        diagnostics.push(
            Diagnostic::error(
                "missing-process-name",
                file,
                "application must define at least one process name on one platform".to_owned(),
            ).application(id.to_text()),
        );
    }
    assert(diagnostic_views(diagnostics@) =~= after_regions + missing_name_report(file@, id@, g));
    let ghost after_missing = diagnostic_views(diagnostics@);
    let mut processes = PlatformProcesses::new();
    let (windows_valid, windows_names) = validate_platform_names(
        file,
        &id,
        Platform::Windows,
        windows,
        diagnostics,
    );
    processes.set(Platform::Windows, windows_names);
    let (android_valid, android_names) = validate_platform_names(
        file,
        &id,
        Platform::Android,
        android,
        diagnostics,
    );
    processes.set(Platform::Android, android_names);
    let (linux_valid, linux_names) = validate_platform_names(
        file,
        &id,
        Platform::Linux,
        linux,
        diagnostics,
    );
    processes.set(Platform::Linux, linux_names);
    let (macos_valid, macos_names) = validate_platform_names(
        file,
        &id,
        Platform::Macos,
        macos,
        diagnostics,
    );
    processes.set(Platform::Macos, macos_names);
    assert(diagnostic_views(diagnostics@) =~= start + application_report(file@, id@, g));
    let regions = match region_set {
        Some(regions) => regions,
        None => {
            return None;
        },
    };
    if !display_name_valid || !has_process || !windows_valid || !android_valid || !linux_valid
        || !macos_valid {
        return None;
    }
    let ghost pv = processes@;
    let application = Application::new(
        id,
        display_name,
        category.to_owned(),
        file.to_owned(),
        regions,
        processes,
    );
    proof {
        let want = application_of(category@, file@, id@, g);
        assert(pv.windows == want.processes.windows);
        assert(pv.android == want.processes.android);
        assert(pv.linux == want.processes.linux);
        assert(pv.macos == want.processes.macos);
    }
    Some(application)
}

/// Number of newline bytes.
pub open spec fn newline_count(b: Seq<u8>) -> nat
    decreases b.len(),
{
    if b.len() == 0 {
        0
    } else {
        newline_count(b.drop_last()) + if b.last() == 10u8 {
            1nat
        } else {
            0nat
        }
    }
}

/// Index just after the last newline byte, or 0.
pub open spec fn line_start(b: Seq<u8>) -> int
    decreases b.len(),
{
    if b.len() == 0 {
        0
    } else if b.last() == 10u8 {
        b.len() as int
    } else {
        line_start(b.drop_last())
    }
}

/// Number of bytes that begin a UTF-8 character, that is, are not continuation bytes: the
/// number of characters in UTF-8 text, a character cut short at the end counting as one.
pub open spec fn char_count(b: Seq<u8>) -> nat
    decreases b.len(),
{
    if b.len() == 0 {
        0
    } else {
        char_count(b.drop_last()) + if b.last() < 0x80u8 || b.last() >= 0xc0u8 {
            1nat
        } else {
            0nat
        }
    }
}

/// The one-based line and column of byte `offset` in `bytes`, the offset clamped to the end.
pub open spec fn text_position(bytes: Seq<u8>, offset: int) -> (int, int) {
    let p = bytes.take(if offset < bytes.len() {
        offset
    } else {
        bytes.len() as int
    });
    ((newline_count(p) + 1) as int, (char_count(p.skip(line_start(p))) + 1) as int)
}

proof fn lemma_counts_bounded(b: Seq<u8>)
    ensures
        newline_count(b) <= b.len(),
        0 <= line_start(b) <= b.len(),
        char_count(b) <= b.len(),
    decreases b.len(),
{
    if b.len() > 0 {
        lemma_counts_bounded(b.drop_last());
    }
}

/// The one-based line and column of byte `offset` of `source`.
pub fn byte_offset_position(source: &str, offset: usize) -> (r: (usize, usize))
    requires
        encode_utf8(source@).len() < usize::MAX,
    ensures
        (r.0 as int, r.1 as int) == text_position(encode_utf8(source@), offset as int),
{
    let bytes = source.as_bytes();
    let ghost all = bytes@;
    let end = if offset < bytes.len() {
        offset
    } else {
        bytes.len()
    };
    let ghost p = all.take(end as int);
    let mut line: usize = 1;
    let mut column_start: usize = 0;
    let mut i: usize = 0;
    while i < end
        invariant
            all == bytes@,
            all.len() < usize::MAX,
            end <= all.len(),
            p == all.take(end as int),
            i <= end,
            line as int == newline_count(all.take(i as int)) + 1,
            column_start as int == line_start(all.take(i as int)),
        decreases end - i,
    {
        proof {
            lemma_counts_bounded(all.take(i as int));
        }
        assert(all.take(i + 1).drop_last() =~= all.take(i as int));
        if bytes[i] == 10u8 {
            line = line + 1;
            column_start = i + 1;
        }
        i = i + 1;
    }
    proof {
        lemma_counts_bounded(p);
    }
    let ghost rest = p.skip(column_start as int);
    let mut count: usize = 0;
    let mut j: usize = column_start;
    assert(rest.take(0) =~= Seq::<u8>::empty());
    while j < end
        invariant
            all == bytes@,
            all.len() < usize::MAX,
            end <= all.len(),
            p == all.take(end as int),
            column_start <= j <= end,
            rest == p.skip(column_start as int),
            count as int == char_count(rest.take(j - column_start)),
        decreases end - j,
    {
        proof {
            lemma_counts_bounded(rest.take(j - column_start));
        }
        assert(rest.take(j - column_start + 1).drop_last() =~= rest.take(j - column_start));
        assert(rest.take(j - column_start + 1).last() == bytes@[j as int]);
        if bytes[j] < 0x80u8 || bytes[j] >= 0xc0u8 {
            count = count + 1;
        }
        j = j + 1;
    }
    assert(rest.take(end - column_start) =~= rest);
    assert(all.take(i as int) =~= p);
    proof {
        lemma_counts_bounded(rest);
    }
    (line, count + 1)
}

/// A parsed rule file: its version and its application tables in key order.
#[derive(Debug)]
pub struct RawRuleFile {
    /// The `version` key.
    pub version: u32,
    /// Every other top-level key with its application table.
    pub applications: Vec<(String, RawApplication)>,
}

/// What reading and parsing one rule file produced.
#[derive(Debug)]
pub enum RuleFileContent {
    /// The file could not be read as UTF-8 text; the string describes the I/O error.
    Unreadable(String),
    /// The text is not a valid rule file.
    Invalid {
        /// The parser's message.
        message: String,
        /// The text that was parsed.
        source: String,
        /// Byte offset of the error in `source`, when known.
        offset: Option<usize>,
    },
    /// The parsed content.
    Parsed(RawRuleFile),
}

/// One `*.toml` file of the rules directory.
#[derive(Debug)]
pub struct RuleFile {
    /// The path, as displayed in diagnostics.
    pub path: String,
    /// The file name without its extension, when it is valid UTF-8.
    pub stem: Option<String>,
    /// What reading and parsing the file produced.
    pub content: RuleFileContent,
}

/// `sorted` with `f` put after every file whose path does not follow `f`'s path.
pub open spec fn insert_by_path(sorted: Seq<RuleFile>, f: RuleFile) -> Seq<RuleFile>
    decreases sorted.len(),
{
    if sorted.len() == 0 {
        seq![f]
    } else if lex_less(f.path@, sorted.last().path@) {
        insert_by_path(sorted.drop_last(), f).push(sorted.last())
    } else {
        sorted.push(f)
    }
}

/// Rule files in ascending path order; files with equal paths keep their relative order.
pub open spec fn path_sorted(files: Seq<RuleFile>) -> Seq<RuleFile>
    decreases files.len(),
{
    if files.len() == 0 {
        Seq::empty()
    } else {
        insert_by_path(path_sorted(files.drop_last()), files.last())
    }
}

/// Where `insert_by_path` puts `f`.
spec fn insert_position(sorted: Seq<RuleFile>, f: RuleFile) -> int
    decreases sorted.len(),
{
    if sorted.len() == 0 {
        0
    } else if lex_less(f.path@, sorted.last().path@) {
        insert_position(sorted.drop_last(), f)
    } else {
        sorted.len() as int
    }
}

/// No file of `s` has a path that precedes the path of an earlier file.
pub open spec fn paths_ascending(s: Seq<RuleFile>) -> bool {
    forall|i: int, j: int| 0 <= i < j < s.len() ==> !lex_less((#[trigger] s[j]).path@, (#[trigger] s[i]).path@)
}

proof fn lemma_insert_by_path(s: Seq<RuleFile>, f: RuleFile)
    ensures
        0 <= insert_position(s, f) <= s.len(),
        insert_by_path(s, f) == s.insert(insert_position(s, f), f),
        forall|i: int|
            insert_position(s, f) <= i < s.len() ==> lex_less(f.path@, (#[trigger] s[i]).path@),
        insert_position(s, f) > 0 ==> !lex_less(f.path@, s[insert_position(s, f) - 1].path@),
    decreases s.len(),
{
    if s.len() == 0 {
        assert(seq![f] =~= s.insert(0, f));
    } else if lex_less(f.path@, s.last().path@) {
        let p = s.drop_last();
        lemma_insert_by_path(p, f);
        let k = insert_position(p, f);
        assert(insert_by_path(s, f) =~= s.insert(k, f));
        assert forall|i: int| k <= i < s.len() implies lex_less(f.path@, (#[trigger] s[i]).path@) by {
            if i < p.len() {
                assert(s[i] == p[i]);
            }
        }
        if k > 0 {
            assert(s[k - 1] == p[k - 1]);
        }
    } else {
        assert(s.push(f) =~= s.insert(s.len() as int, f));
    }
}

proof fn lemma_insert_keeps_ascending(s: Seq<RuleFile>, f: RuleFile)
    requires
        paths_ascending(s),
    ensures
        paths_ascending(insert_by_path(s, f)),
{
    lemma_insert_by_path(s, f);
    let k = insert_position(s, f);
    let r = s.insert(k, f);
    assert forall|i: int, j: int| 0 <= i < j < r.len() implies !lex_less((#[trigger] r[j]).path@, (#[trigger] r[i]).path@) by {
        if j < k {
            assert(r[i] == s[i] && r[j] == s[j]);
        } else if j == k {
            assert(r[i] == s[i] && r[j] == f);
            let q = s[k - 1];
            if lex_less(f.path@, s[i].path@) {
                if i < k - 1 {
                    assert(!lex_less(q.path@, s[i].path@));
                    lemma_lex_total(s[i].path@, q.path@);
                    if s[i].path@ != q.path@ {
                        lemma_lex_transitive(f.path@, s[i].path@, q.path@);
                    }
                }
            }
        } else if i == k {
            assert(r[i] == f && r[j] == s[j - 1]);
            assert(lex_less(f.path@, s[j - 1].path@));
            lemma_lex_asymmetric(f.path@, s[j - 1].path@);
        } else if i < k {
            assert(r[i] == s[i] && r[j] == s[j - 1]);
        } else {
            assert(r[i] == s[i - 1] && r[j] == s[j - 1]);
        }
    }
}

/// The files in path order are the same files, each as often, in ascending path order.
pub proof fn law_rule_files_in_path_order(files: Seq<RuleFile>)
    ensures
        path_sorted(files).to_multiset() == files.to_multiset(),
        path_sorted(files).len() == files.len(),
        paths_ascending(path_sorted(files)),
    decreases files.len(),
{
    broadcast use vstd::seq_lib::to_multiset_build, vstd::seq_lib::to_multiset_insert;

    if files.len() == 0 {
        assert(path_sorted(files) =~= files);
    } else {
        let p = files.drop_last();
        law_rule_files_in_path_order(p);
        let sp = path_sorted(p);
        lemma_insert_by_path(sp, files.last());
        lemma_insert_keeps_ascending(sp, files.last());
        assert(p.push(files.last()) =~= files);
        assert(sp.insert(insert_position(sp, files.last()), files.last()).to_multiset()
            == sp.to_multiset().insert(files.last()));
    }
}

/// Two sequences of files in strictly ascending path order with the same members are equal.
proof fn lemma_strict_path_order_equal(a: Seq<RuleFile>, b: Seq<RuleFile>)
    requires
        forall|i: int, j: int| 0 <= i < j < a.len() ==> lex_less((#[trigger] a[i]).path@, (#[trigger] a[j]).path@),
        forall|i: int, j: int| 0 <= i < j < b.len() ==> lex_less((#[trigger] b[i]).path@, (#[trigger] b[j]).path@),
        forall|x: RuleFile| a.contains(x) <==> b.contains(x),
    ensures
        a == b,
    decreases a.len() + b.len(),
{
    if a.len() == 0 {
        if b.len() > 0 {
            assert(b.contains(b[0]));
        }
        assert(a =~= b);
    } else if b.len() == 0 {
        assert(a.contains(a[0]));
    } else {
        assert(a.contains(a[0]));
        assert(b.contains(b[0]));
        let i = choose|i: int| 0 <= i < b.len() && b[i] == a[0];
        let j = choose|j: int| 0 <= j < a.len() && a[j] == b[0];
        if i > 0 {
            assert(lex_less(b[0].path@, b[i].path@));
            lemma_lex_irreflexive(a[0].path@);
            if j > 0 {
                assert(lex_less(a[0].path@, a[j].path@));
                lemma_lex_asymmetric(a[0].path@, b[0].path@);
            }
        }
        assert(a[0] == b[0]);
        let a1 = a.drop_first();
        let b1 = b.drop_first();
        assert forall|x: RuleFile| a1.contains(x) <==> b1.contains(x) by {
            if a1.contains(x) {
                let k = choose|k: int| 0 <= k < a1.len() && a1[k] == x;
                assert(lex_less(a[0].path@, a[k + 1].path@));
                lemma_lex_irreflexive(x.path@);
                assert(b.contains(x));
                let m = choose|m: int| 0 <= m < b.len() && b[m] == x;
                assert(m != 0);
                assert(b1[m - 1] == x);
            }
            if b1.contains(x) {
                let k = choose|k: int| 0 <= k < b1.len() && b1[k] == x;
                assert(lex_less(b[0].path@, b[k + 1].path@));
                lemma_lex_irreflexive(x.path@);
                assert(a.contains(x));
                let m = choose|m: int| 0 <= m < a.len() && a[m] == x;
                assert(m != 0);
                assert(a1[m - 1] == x);
            }
        }
        assert forall|p: int, q: int| 0 <= p < q < a1.len() implies lex_less((#[trigger] a1[p]).path@, (#[trigger] a1[q]).path@) by {
            assert(lex_less(a[p + 1].path@, a[q + 1].path@));
        }
        assert forall|p: int, q: int| 0 <= p < q < b1.len() implies lex_less((#[trigger] b1[p]).path@, (#[trigger] b1[q]).path@) by {
            assert(lex_less(b[p + 1].path@, b[q + 1].path@));
        }
        lemma_strict_path_order_equal(a1, b1);
        assert(a =~= seq![a[0]] + a1);
        assert(b =~= seq![b[0]] + b1);
    }
}

/// No two files of `s` have the same path.
pub open spec fn distinct_paths(s: Seq<RuleFile>) -> bool {
    forall|i: int, j: int| 0 <= i < j < s.len() ==> (#[trigger] s[i]).path@ != (#[trigger] s[j]).path@
}

/// Files ordered from the same files as `a`, whose paths are distinct, are strictly ascending.
proof fn lemma_sorted_strict(r: Seq<RuleFile>, a: Seq<RuleFile>)
    requires
        distinct_paths(a),
        r.to_multiset() == a.to_multiset(),
        paths_ascending(r),
    ensures
        forall|i: int, j: int| 0 <= i < j < r.len() ==> lex_less((#[trigger] r[i]).path@, (#[trigger] r[j]).path@),
        forall|x: RuleFile| r.contains(x) <==> a.contains(x),
{
    broadcast use vstd::seq_lib::to_multiset_contains;

    assert(a.no_duplicates()) by {
        assert forall|i: int, j: int| 0 <= i < a.len() && 0 <= j < a.len() && i != j implies a[i] != a[j] by {
            if i < j {
                assert(a[i].path@ != a[j].path@);
            } else {
                assert(a[j].path@ != a[i].path@);
            }
        }
    }
    a.lemma_multiset_has_no_duplicates();
    r.lemma_multiset_has_no_duplicates_conv();
    assert forall|x: RuleFile| r.contains(x) <==> a.contains(x) by {
        assert(r.contains(x) <==> r.to_multiset().count(x) > 0);
        assert(a.contains(x) <==> a.to_multiset().count(x) > 0);
    }
    assert forall|i: int, j: int| 0 <= i < j < r.len() implies lex_less((#[trigger] r[i]).path@, (#[trigger] r[j]).path@) by {
        assert(r[i] != r[j]);
        assert(r.contains(r[i]) && r.contains(r[j]));
        let ia = choose|k: int| 0 <= k < a.len() && a[k] == r[i];
        let ja = choose|k: int| 0 <= k < a.len() && a[k] == r[j];
        assert(ia != ja);
        if ia < ja {
            assert(a[ia].path@ != a[ja].path@);
        } else {
            assert(a[ja].path@ != a[ia].path@);
        }
        assert(!lex_less(r[j].path@, r[i].path@));
        lemma_lex_total(r[i].path@, r[j].path@);
    }
}

/// The order in which the directory listing hands over rule files with distinct paths does
/// not matter: the same files, in any order, are loaded in the same path order.
pub proof fn law_rule_file_order_ignored(a: Seq<RuleFile>, b: Seq<RuleFile>)
    requires
        distinct_paths(a),
        a.to_multiset() == b.to_multiset(),
    ensures
        path_sorted(a) == path_sorted(b),
{
    law_rule_files_in_path_order(a);
    law_rule_files_in_path_order(b);
    lemma_sorted_strict(path_sorted(a), a);
    lemma_sorted_strict(path_sorted(b), a);
    lemma_strict_path_order_equal(path_sorted(a), path_sorted(b));
}

/// Put rule files in ascending path order, keeping files with equal paths in their order.
fn sort_by_path(files: Vec<RuleFile>) -> (r: Vec<RuleFile>)
    ensures
        r@ == path_sorted(files@),
{
    let ghost all = files@;
    let mut rest = files;
    let n = rest.len();
    let mut sorted: Vec<RuleFile> = Vec::new();
    let mut k: usize = 0;
    assert(all.skip(0) =~= all);
    assert(all.take(0) =~= Seq::<RuleFile>::empty());
    while k < n
        invariant
            n == all.len(),
            k <= n,
            rest@ == all.skip(k as int),
            sorted@ == path_sorted(all.take(k as int)),
        decreases n - k,
    {
        let f = rest.remove(0);
        assert(all.skip(k as int)[0] == f);
        assert(all.skip(k + 1) =~= all.skip(k as int).drop_first());
        assert(all.take(k + 1).drop_last() =~= all.take(k as int));
        assert(all.take(k + 1).last() == f);
        let ghost s = sorted@;
        let mut j: usize = sorted.len();
        assert(s.take(j as int) =~= s);
        while j > 0 && text_less(f.path.as_str(), sorted[j - 1].path.as_str())
            invariant
                j <= sorted.len(),
                s == sorted@,
                insert_position(s, f) == insert_position(s.take(j as int), f),
            decreases j,
        {
            assert(s.take(j as int).drop_last() =~= s.take(j - 1));
            assert(s.take(j as int).last() == s[j - 1]);
            j = j - 1;
        }
        proof {
            lemma_insert_by_path(s, f);
            if j > 0 {
                assert(s.take(j as int).last() == s[j - 1]);
            }
        }
        sorted.insert(j, f);
        k = k + 1;
    }
    assert(all.take(n as int) =~= all);
    sorted
}

/// What listing the rules directory produced.
#[derive(Debug)]
pub enum RulesListing {
    /// The directory could not be read; the string describes the I/O error.
    Unreadable(String),
    /// The directory was read.
    Listed {
        /// Descriptions of the entries that could not be inspected, in listing order.
        entry_errors: Vec<String>,
        /// Its `*.toml` files, in any order; loading takes them in ascending path order.
        files: Vec<RuleFile>,
    },
}

/// The state of loading after some files.
pub struct LoadState {
    /// Accepted applications, in source order.
    pub applications: Seq<ApplicationView>,
    /// Every valid application ID seen, with the file that first defined it.
    pub seen: Seq<(Seq<char>, Seq<char>)>,
    /// Diagnostics so far.
    pub diagnostics: Seq<DiagnosticView>,
}

/// The file that first defined `id`, if any.
pub open spec fn first_definition(seen: Seq<(Seq<char>, Seq<char>)>, id: Seq<char>) -> Option<
    Seq<char>,
>
    decreases seen.len(),
{
    if seen.len() == 0 {
        None
    } else {
        match first_definition(seen.drop_last(), id) {
            Some(p) => Some(p),
            None => if seen.last().0 == id {
                Some(seen.last().1)
            } else {
                None
            },
        }
    }
}

/// `st` with one more diagnostic.
pub open spec fn report(st: LoadState, d: DiagnosticView) -> LoadState {
    LoadState { diagnostics: st.diagnostics.push(d), ..st }
}

/// Load one application table of `file`.
pub open spec fn load_entry(
    st: LoadState,
    file: Seq<char>,
    category: Seq<char>,
    key: Seq<char>,
    raw: RawApplication,
) -> LoadState {
    match app_id_problem(key) {
        Some(m) => report(
            st,
            with_application(
                plain_diagnostic(Severity::Error, "invalid-application-id"@, file, m),
                key,
            ),
        ),
        None => {
            let first = first_definition(st.seen, key);
            let d1 = match first {
                Some(p) => st.diagnostics.push(
                    with_application(
                        plain_diagnostic(
                            Severity::Error,
                            "duplicate-application-id"@,
                            file,
                            "application ID `"@ + key + "` was already defined in `"@ + p + "`"@,
                        ),
                        key,
                    ),
                ),
                None => st.diagnostics,
            };
            LoadState {
                applications: if first is None && application_valid(raw) {
                    st.applications.push(application_of(category, file, key, raw))
                } else {
                    st.applications
                },
                seen: if first is None {
                    st.seen.push((key, file))
                } else {
                    st.seen
                },
                diagnostics: d1 + application_report(file, key, raw),
            }
        },
    }
}

/// Load the application tables of one file, in order.
pub open spec fn load_entries(
    st: LoadState,
    file: Seq<char>,
    category: Seq<char>,
    entries: Seq<(String, RawApplication)>,
) -> LoadState
    decreases entries.len(),
{
    if entries.len() == 0 {
        st
    } else {
        let last = entries.last();
        load_entry(load_entries(st, file, category, entries.drop_last()), file, category, last.0@, last.1)
    }
}

/// The diagnostic of a file that is not valid TOML of the schema.
pub open spec fn invalid_toml_diagnostic(
    file: Seq<char>,
    message: Seq<char>,
    source: Seq<char>,
    offset: Option<usize>,
) -> DiagnosticView {
    let d = plain_diagnostic(Severity::Error, "invalid-toml"@, file, message);
    match offset {
        Some(o) => if encode_utf8(source).len() < usize::MAX {
            let (line, column) = text_position(encode_utf8(source), o as int);
            with_position(d, line as usize, column as usize)
        } else {
            d
        },
        None => d,
    }
}

/// Load one rule file.
pub open spec fn load_file(st: LoadState, f: RuleFile) -> LoadState {
    let file = f.path@;
    match f.stem {
        None => report(
            st,
            plain_diagnostic(
                Severity::Error,
                "invalid-category"@,
                file,
                "rule filename must be valid UTF-8"@,
            ),
        ),
        Some(stem) => match app_id_problem(stem@) {
            Some(m) => report(
                st,
                plain_diagnostic(
                    Severity::Error,
                    "invalid-category"@,
                    file,
                    "invalid category filename: "@ + m,
                ),
            ),
            None => match f.content {
                RuleFileContent::Unreadable(e) => report(
                    st,
                    plain_diagnostic(
                        Severity::Error,
                        "rule-file-unreadable"@,
                        file,
                        "cannot read rule file as UTF-8: "@ + e@,
                    ),
                ),
                RuleFileContent::Invalid { message, source, offset } => report(
                    st,
                    invalid_toml_diagnostic(file, message@, source@, offset),
                ),
                RuleFileContent::Parsed(raw) => load_entries(
                    version_checked(st, file, raw.version),
                    file,
                    stem@,
                    raw.applications@,
                ),
            },
        },
    }
}

/// The state after checking the `version` of a parsed rule file.
pub open spec fn version_checked(st: LoadState, file: Seq<char>, version: u32) -> LoadState {
    if version != SCHEMA_VERSION {
        report(
            st,
            plain_diagnostic(
                Severity::Error,
                "unsupported-version"@,
                file,
                "source version "@ + decimal(version as nat) + " is unsupported; expected "@
                    + decimal(SCHEMA_VERSION as nat),
            ),
        )
    } else {
        st
    }
}

/// Load rule files in order.
pub open spec fn load_files(st: LoadState, files: Seq<RuleFile>) -> LoadState
    decreases files.len(),
{
    if files.len() == 0 {
        st
    } else {
        load_file(load_files(st, files.drop_last()), files.last())
    }
}

/// The diagnostics of directory entries that could not be inspected.
pub open spec fn entry_error_reports(rules_dir: Seq<char>, errors: Seq<Seq<char>>) -> Seq<
    DiagnosticView,
>
    decreases errors.len(),
{
    if errors.len() == 0 {
        Seq::empty()
    } else {
        entry_error_reports(rules_dir, errors.drop_last()).push(
            plain_diagnostic(
                Severity::Error,
                "rules-dir-entry-unreadable"@,
                rules_dir,
                "cannot inspect a rules directory entry: "@ + errors.last(),
            ),
        )
    }
}

/// The state after reading the rules directory and every rule file in it, the files in
/// ascending path order.
pub open spec fn load_listing(rules_dir: Seq<char>, listing: RulesListing) -> LoadState {
    match listing {
        RulesListing::Unreadable(e) => LoadState {
            applications: Seq::empty(),
            seen: Seq::empty(),
            diagnostics: seq![
                plain_diagnostic(
                    Severity::Error,
                    "rules-dir-unreadable"@,
                    rules_dir,
                    "cannot read rules directory: "@ + e@,
                ),
            ],
        },
        RulesListing::Listed { entry_errors, files } => load_files(
            LoadState {
                applications: Seq::empty(),
                seen: Seq::empty(),
                diagnostics: entry_error_reports(rules_dir, string_views(entry_errors@)),
            },
            path_sorted(files@),
        ),
    }
}

/// An application that lists at least one process name on some platform.
pub open spec fn names_some_process(a: ApplicationView) -> bool {
    exists|p: Platform| (#[trigger] platform_names(a.processes, p)).len() > 0
}

/// Every application of `apps` lists some process name.
pub open spec fn all_name_processes(apps: Seq<ApplicationView>) -> bool {
    forall|i: int| 0 <= i < apps.len() ==> names_some_process(#[trigger] apps[i])
}

proof fn lemma_accepted_names_all(platform: Platform, raws: Seq<Seq<char>>)
    requires
        forall|i: int| 0 <= i < raws.len() ==> name_accepted(platform, #[trigger] raws[i]),
    ensures
        accepted_names(platform, raws) == raws,
    decreases raws.len(),
{
    reveal(accepted_names);
    if raws.len() > 0 {
        let p = raws.drop_last();
        assert forall|i: int| 0 <= i < p.len() implies name_accepted(platform, #[trigger] p[i]) by {
            assert(p[i] == raws[i]);
        }
        lemma_accepted_names_all(platform, p);
        assert(name_accepted(platform, raws[raws.len() - 1]));
        assert(p + seq![raws.last()] =~= raws);
    } else {
        assert(raws =~= Seq::<Seq<char>>::empty());
    }
}

proof fn lemma_platform_kept_nonempty(platform: Platform, raw: Option<Vec<String>>)
    requires
        platform_valid(platform, opt_strings(raw)),
        has_entries(raw),
    ensures
        platform_kept(platform, opt_strings(raw)).len() > 0,
{
    reveal(platform_kept);
    reveal(platform_valid);
    let v = raw->Some_0;
    let names = string_views(v@);
    assert(opt_strings(raw) == Some(names));
    assert(forall|i: int| 0 <= i < names.len() ==> name_accepted(platform, #[trigger] names[i]));
    lemma_accepted_names_all(platform, names);
    assert(names.len() == v@.len());
}

/// An accepted application table lists some process name.
proof fn lemma_valid_application_names(category: Seq<char>, file: Seq<char>, id: Seq<char>, raw: RawApplication)
    requires
        application_valid(raw),
    ensures
        names_some_process(application_of(category, file, id, raw)),
{
    let a = application_of(category, file, id, raw);
    if has_entries(raw.windows) {
        lemma_platform_kept_nonempty(Platform::Windows, raw.windows);
        assert(platform_names(a.processes, Platform::Windows).len() > 0);
    } else if has_entries(raw.android) {
        lemma_platform_kept_nonempty(Platform::Android, raw.android);
        assert(platform_names(a.processes, Platform::Android).len() > 0);
    } else if has_entries(raw.linux) {
        lemma_platform_kept_nonempty(Platform::Linux, raw.linux);
        assert(platform_names(a.processes, Platform::Linux).len() > 0);
    } else {
        lemma_platform_kept_nonempty(Platform::Macos, raw.macos);
        assert(platform_names(a.processes, Platform::Macos).len() > 0);
    }
}

proof fn lemma_load_entries_names(
    st: LoadState,
    file: Seq<char>,
    category: Seq<char>,
    entries: Seq<(String, RawApplication)>,
)
    requires
        all_name_processes(st.applications),
    ensures
        all_name_processes(load_entries(st, file, category, entries).applications),
    decreases entries.len(),
{
    if entries.len() > 0 {
        let last = entries.last();
        let st0 = load_entries(st, file, category, entries.drop_last());
        lemma_load_entries_names(st, file, category, entries.drop_last());
        if app_id_problem(last.0@) is None && first_definition(st0.seen, last.0@) is None
            && application_valid(last.1) {
            lemma_valid_application_names(category, file, last.0@, last.1);
            let apps = st0.applications.push(application_of(category, file, last.0@, last.1));
            assert forall|i: int| 0 <= i < apps.len() implies names_some_process(#[trigger] apps[i]) by {
                if i < st0.applications.len() {
                    assert(apps[i] == st0.applications[i]);
                }
            }
        }
    }
}

proof fn lemma_load_files_names(st: LoadState, files: Seq<RuleFile>)
    requires
        all_name_processes(st.applications),
    ensures
        all_name_processes(load_files(st, files).applications),
    decreases files.len(),
{
    if files.len() > 0 {
        lemma_load_files_names(st, files.drop_last());
        let st0 = load_files(st, files.drop_last());
        let f = files.last();
        match f.stem {
            Some(stem) => match f.content {
                RuleFileContent::Parsed(raw) => {
                    lemma_load_entries_names(version_checked(st0, f.path@, raw.version), f.path@, stem@, raw.applications@);
                },
                _ => {},
            },
            None => {},
        }
    }
}

/// Application IDs are unique across the whole rules directory: the catalog, which holds
/// the accepted applications in ID order, never holds two applications with one ID.
pub proof fn law_loaded_catalog_ids_unique(
    rules_dir: Seq<char>,
    listing: RulesListing,
    catalog: Seq<ApplicationView>,
)
    requires
        is_id_ordering(catalog, load_listing(rules_dir, listing).applications),
    ensures
        forall|i: int, j: int|
            0 <= i < j < catalog.len() ==> (#[trigger] catalog[i]).id != (#[trigger] catalog[j]).id,
{
    assert forall|i: int, j: int| 0 <= i < j < catalog.len() implies (#[trigger] catalog[i]).id
        != (#[trigger] catalog[j]).id by {
        assert(lex_less(catalog[i].id, catalog[j].id));
        lemma_lex_irreflexive(catalog[i].id);
    }
}

/// Every application that loading accepts lists at least one process name, and so does
/// every application of the catalog, which holds the accepted applications in ID order.
pub proof fn law_loaded_applications_name_processes(
    rules_dir: Seq<char>,
    listing: RulesListing,
    catalog: Seq<ApplicationView>,
)
    requires
        is_id_ordering(catalog, load_listing(rules_dir, listing).applications),
    ensures
        all_name_processes(load_listing(rules_dir, listing).applications),
        all_name_processes(catalog),
{
    let accepted = load_listing(rules_dir, listing).applications;
    match listing {
        RulesListing::Unreadable(_) => {},
        RulesListing::Listed { entry_errors, files } => {
            lemma_load_files_names(
                LoadState {
                    applications: Seq::empty(),
                    seen: Seq::empty(),
                    diagnostics: entry_error_reports(rules_dir, string_views(entry_errors@)),
                },
                path_sorted(files@),
            );
        },
    }
    assert forall|i: int| 0 <= i < catalog.len() implies names_some_process(#[trigger] catalog[i]) by {
        assert(catalog.contains(catalog[i]));
        assert(accepted.contains(catalog[i]));
        let k = choose|k: int| 0 <= k < accepted.len() && accepted[k] == catalog[i];
        assert(names_some_process(accepted[k]));
    }
}

/// `a` comes from one of `files`: its source is that file's path, and its category is the
/// file name stem recorded with that file.
pub open spec fn from_rule_file(files: Seq<RuleFile>, a: ApplicationView) -> bool {
    exists|k: int|
        0 <= k < files.len() && (#[trigger] files[k]).path@ == a.source && (files[k].stem matches Some(
            stem,
        ) && stem@ == a.category)
}

proof fn lemma_load_entries_categories(
    st: LoadState,
    file: Seq<char>,
    category: Seq<char>,
    entries: Seq<(String, RawApplication)>,
    all: Seq<RuleFile>,
    k: int,
)
    requires
        0 <= k < all.len(),
        all[k].path@ == file,
        all[k].stem matches Some(stem) && stem@ == category,
        forall|i: int| 0 <= i < st.applications.len() ==> from_rule_file(all, #[trigger] st.applications[i]),
    ensures
        forall|i: int|
            0 <= i < load_entries(st, file, category, entries).applications.len() ==> from_rule_file(
                all,
                #[trigger] load_entries(st, file, category, entries).applications[i],
            ),
    decreases entries.len(),
{
    if entries.len() > 0 {
        let last = entries.last();
        let st0 = load_entries(st, file, category, entries.drop_last());
        lemma_load_entries_categories(st, file, category, entries.drop_last(), all, k);
        if app_id_problem(last.0@) is None && first_definition(st0.seen, last.0@) is None
            && application_valid(last.1) {
            let a = application_of(category, file, last.0@, last.1);
            assert(from_rule_file(all, a)) by {
                assert(all[k].path@ == a.source);
            }
            let apps = st0.applications.push(a);
            assert forall|i: int| 0 <= i < apps.len() implies from_rule_file(all, #[trigger] apps[i]) by {
                if i < st0.applications.len() {
                    assert(apps[i] == st0.applications[i]);
                }
            }
        }
    }
}

proof fn lemma_load_files_categories(st: LoadState, files: Seq<RuleFile>, all: Seq<RuleFile>)
    requires
        files.len() <= all.len(),
        forall|i: int| 0 <= i < files.len() ==> #[trigger] files[i] == all[i],
        forall|i: int| 0 <= i < st.applications.len() ==> from_rule_file(all, #[trigger] st.applications[i]),
    ensures
        forall|i: int|
            0 <= i < load_files(st, files).applications.len() ==> from_rule_file(
                all,
                #[trigger] load_files(st, files).applications[i],
            ),
    decreases files.len(),
{
    if files.len() > 0 {
        let p = files.drop_last();
        assert forall|i: int| 0 <= i < p.len() implies #[trigger] p[i] == all[i] by {
            assert(p[i] == files[i]);
        }
        lemma_load_files_categories(st, p, all);
        let st0 = load_files(st, p);
        let f = files.last();
        let k = files.len() - 1;
        assert(files[k] == all[k]);
        match f.stem {
            Some(stem) => match f.content {
                RuleFileContent::Parsed(raw) => {
                    lemma_load_entries_categories(version_checked(st0, f.path@, raw.version), f.path@, stem@, raw.applications@, all, k);
                },
                _ => {},
            },
            None => {},
        }
    }
}

/// What a load that reports no error yields: its catalog holds the accepted applications in
/// strictly increasing ID order, so no ID occurs twice; every application lists some process
/// name; every application's category is the file name stem recorded with the rule file it
/// comes from, and its source is that file's path; no platform lists two names that are equal
/// ignoring case; and names equal ignoring case on different platforms have one region set.
pub proof fn law_loaded_catalog(
    rules_dir: Seq<char>,
    listing: RulesListing,
    require_non_empty: bool,
    catalog: Seq<ApplicationView>,
)
    requires
        !has_error(load_diagnostics(rules_dir, listing, require_non_empty)),
        is_id_ordering(catalog, load_listing(rules_dir, listing).applications),
    ensures
        catalog == loaded_applications(rules_dir, listing),
        id_sorted(catalog),
        forall|i: int, j: int|
            0 <= i < j < catalog.len() ==> (#[trigger] catalog[i]).id != (#[trigger] catalog[j]).id,
        all_name_processes(catalog),
        listing matches RulesListing::Listed { files, .. } ==> forall|i: int|
            0 <= i < catalog.len() ==> from_rule_file(files@, #[trigger] catalog[i]),
        listing is Unreadable ==> catalog.len() == 0,
        collision_free(all_occurrences(catalog)),
{
    let accepted = load_listing(rules_dir, listing).applications;
    let sorted = sorted_by_id(accepted);
    assert(is_id_ordering(sorted, accepted));
    lemma_id_sorted_equal(sorted, catalog);
    law_loaded_catalog_ids_unique(rules_dir, listing, catalog);
    law_loaded_applications_name_processes(rules_dir, listing, catalog);
    law_loaded_catalog_is_collision_free(rules_dir, listing, require_non_empty);
    match listing {
        RulesListing::Unreadable(_) => {
            if catalog.len() > 0 {
                assert(catalog.contains(catalog[0]));
            }
        },
        RulesListing::Listed { entry_errors, files } => {
            lemma_load_files_categories(
                LoadState {
                    applications: Seq::empty(),
                    seen: Seq::empty(),
                    diagnostics: entry_error_reports(rules_dir, string_views(entry_errors@)),
                },
                path_sorted(files@),
                path_sorted(files@),
            );
            let sorted = path_sorted(files@);
            law_rule_files_in_path_order(files@);
            assert forall|i: int| 0 <= i < catalog.len() implies from_rule_file(
                files@,
                #[trigger] catalog[i],
            ) by {
                broadcast use vstd::seq_lib::to_multiset_contains;

                assert(catalog.contains(catalog[i]));
                assert(accepted.contains(catalog[i]));
                let k = choose|k: int| 0 <= k < accepted.len() && accepted[k] == catalog[i];
                assert(from_rule_file(sorted, accepted[k]));
                let m = choose|m: int|
                    0 <= m < sorted.len() && (#[trigger] sorted[m]).path@ == catalog[i].source && (
                    sorted[m].stem matches Some(stem) && stem@ == catalog[i].category);
                assert(sorted.contains(sorted[m]));
                assert(sorted.to_multiset().count(sorted[m]) > 0);
                assert(files@.contains(sorted[m]));
                let q = choose|q: int| 0 <= q < files@.len() && files@[q] == sorted[m];
                assert(files@[q].path@ == catalog[i].source);
            }
        },
    }
}

/// The list an application table gives for `platform`.
pub open spec fn raw_names(raw: RawApplication, platform: Platform) -> Option<Vec<String>> {
    match platform {
        Platform::Windows => raw.windows,
        Platform::Android => raw.android,
        Platform::Linux => raw.linux,
        Platform::Macos => raw.macos,
    }
}

/// All four platforms count alike: an application table names a process exactly when the
/// list of some platform, whichever it is, is present and non-empty; and an accepted
/// application that holds a name on some platform came from a table that names a process.
pub proof fn law_process_names_on_any_platform(
    raw: RawApplication,
    category: Seq<char>,
    file: Seq<char>,
    id: Seq<char>,
)
    ensures
        has_process_name(raw) <==> exists|p: Platform| #[trigger] has_entries(raw_names(raw, p)),
        names_some_process(application_of(category, file, id, raw)) ==> has_process_name(raw),
{
    if has_process_name(raw) {
        if has_entries(raw.windows) {
            assert(has_entries(raw_names(raw, Platform::Windows)));
        } else if has_entries(raw.android) {
            assert(has_entries(raw_names(raw, Platform::Android)));
        } else if has_entries(raw.linux) {
            assert(has_entries(raw_names(raw, Platform::Linux)));
        } else {
            assert(has_entries(raw_names(raw, Platform::Macos)));
        }
    }
    if exists|p: Platform| #[trigger] has_entries(raw_names(raw, p)) {
        let p = choose|p: Platform| #[trigger] has_entries(raw_names(raw, p));
        match p {
            Platform::Windows => {},
            Platform::Android => {},
            Platform::Linux => {},
            Platform::Macos => {},
        }
    }
    let a = application_of(category, file, id, raw);
    if names_some_process(a) {
        let p = choose|p: Platform| (#[trigger] platform_names(a.processes, p)).len() > 0;
        reveal(platform_kept);
        reveal(accepted_names);
        let field = raw_names(raw, p);
        assert(platform_names(a.processes, p) == platform_kept(p, opt_strings(field))) by {
            match p {
                Platform::Windows => {},
                Platform::Android => {},
                Platform::Linux => {},
                Platform::Macos => {},
            }
        }
        match field {
            Some(v) => {
                if v@.len() == 0 {
                    assert(string_views(v@).len() == 0);
                    assert(accepted_names(p, string_views(v@)) == Seq::<Seq<char>>::empty());
                }
                assert(has_entries(field));
            },
            None => {},
        }
        match p {
            Platform::Windows => {},
            Platform::Android => {},
            Platform::Linux => {},
            Platform::Macos => {},
        }
    }
}

/// The views of the recorded `(id, file)` pairs.
pub open spec fn seen_views(s: Seq<(String, String)>) -> Seq<(Seq<char>, Seq<char>)> {
    s.map_values(|p: (String, String)| (p.0@, p.1@))
}

/// The views of a sequence of applications.
pub open spec fn application_views(s: Seq<Application>) -> Seq<ApplicationView> {
    s.map_values(|a: Application| a@)
}

/// The accepted applications have pairwise different IDs, each of them recorded as seen.
pub open spec fn ids_tracked(st: LoadState) -> bool {
    &&& forall|i: int, j: int|
        0 <= i < j < st.applications.len() ==> (#[trigger] st.applications[i]).id
            != (#[trigger] st.applications[j]).id
    &&& forall|i: int|
        0 <= i < st.applications.len() ==> first_definition(
            st.seen,
            (#[trigger] st.applications[i]).id,
        ) is Some
}

proof fn lemma_first_definition_push(seen: Seq<(Seq<char>, Seq<char>)>, key: Seq<char>, file: Seq<char>, id: Seq<char>)
    requires
        first_definition(seen, key) is None,
    ensures
        first_definition(seen.push((key, file)), id) == if id == key {
            Some(file)
        } else {
            first_definition(seen, id)
        },
{
    assert(seen.push((key, file)).drop_last() =~= seen);
}

fn find_definition(seen: &Vec<(String, String)>, id: &str) -> (r: Option<usize>)
    ensures
        r is None ==> first_definition(seen_views(seen@), id@) is None,
        r matches Some(k) ==> k < seen.len() && first_definition(seen_views(seen@), id@) == Some(
            seen@[k as int].1@,
        ),
{
    let ghost v = seen_views(seen@);
    let key = id.to_owned();
    let mut i: usize = 0;
    while i < seen.len()
        invariant
            v == seen_views(seen@),
            key@ == id@,
            i <= seen.len(),
            first_definition(v.take(i as int), id@) is None,
        decreases seen.len() - i,
    {
        assert(v.take(i + 1).drop_last() =~= v.take(i as int));
        assert(v.take(i + 1).last() == (seen@[i as int].0@, seen@[i as int].1@));
        if seen[i].0 == key {
            proof {
                lemma_first_definition_prefix(v, i as int + 1);
            }
            return Some(i);
        }
        i = i + 1;
    }
    assert(v.take(seen.len() as int) =~= v);
    None
}

proof fn lemma_first_definition_prefix(v: Seq<(Seq<char>, Seq<char>)>, n: int)
    requires
        0 <= n <= v.len(),
    ensures
        forall|id: Seq<char>|
            first_definition(v.take(n), id) is Some ==> first_definition(v, id) == first_definition(
                v.take(n),
                id,
            ),
    decreases v.len() - n,
{
    if n < v.len() {
        lemma_first_definition_prefix(v, n + 1);
        assert(v.take(n + 1).drop_last() =~= v.take(n));
    } else {
        assert(v.take(n) =~= v);
    }
}

/// Load one application table into the state.
#[verifier::rlimit(30)]
fn load_entry_into(
    file: &str,
    category: &str,
    raw_id: String,
    raw_application: RawApplication,
    applications: &mut Vec<Application>,
    seen_ids: &mut Vec<(String, String)>,
    diagnostics: &mut Vec<Diagnostic>,
)
    requires
        ids_tracked(
            LoadState {
                applications: application_views(old(applications)@),
                seen: seen_views(old(seen_ids)@),
                diagnostics: diagnostic_views(old(diagnostics)@),
            },
        ),
    ensures
        ({
            let after = load_entry(
                LoadState {
                    applications: application_views(old(applications)@),
                    seen: seen_views(old(seen_ids)@),
                    diagnostics: diagnostic_views(old(diagnostics)@),
                },
                file@,
                category@,
                raw_id@,
                raw_application,
            );
            &&& application_views(final(applications)@) == after.applications
            &&& seen_views(final(seen_ids)@) == after.seen
            &&& diagnostic_views(final(diagnostics)@) == after.diagnostics
            &&& ids_tracked(after)
        }),
{
    let ghost st = LoadState {
        applications: application_views(applications@),
        seen: seen_views(seen_ids@),
        diagnostics: diagnostic_views(diagnostics@),
    };
    let ghost g = raw_application;
    let id = match ApplicationId::parse(raw_id.as_str()) {
        Ok(id) => id,
        Err(message) => {
            diagnostics.push(
                Diagnostic::error("invalid-application-id", file, message).application(raw_id),
            );
            assert(diagnostic_views(diagnostics@) =~= st.diagnostics.push(
                with_application(
                    plain_diagnostic(Severity::Error, "invalid-application-id"@, file@, message@),
                    raw_id@,
                ),
            ));
            return;
        },
    };
    let duplicate = match find_definition(seen_ids, id.as_str()) {
        Some(k) => {
            let mut message = "application ID `".to_owned();
            message.append(id.as_str());
            message.append("` was already defined in `");
            message.append(seen_ids[k].1.as_str());
            message.append("`");
            let ghost before = diagnostic_views(diagnostics@);
            diagnostics.push(
                Diagnostic::error("duplicate-application-id", file, message).application(
                    id.to_text(),
                ),
            );
            assert(diagnostic_views(diagnostics@) =~= before.push(
                with_application(
                    plain_diagnostic(Severity::Error, "duplicate-application-id"@, file@, message@),
                    id@,
                ),
            ));
            true
        },
        None => {
            let ghost before = seen_views(seen_ids@);
            seen_ids.push((id.to_text(), file.to_owned()));
            assert(seen_views(seen_ids@) =~= before.push((id@, file@)));
            proof {
                assert forall|x: Seq<char>| first_definition(before, x) is Some implies first_definition(
                    seen_views(seen_ids@),
                    x,
                ) is Some by {
                    lemma_first_definition_push(before, id@, file@, x);
                }
            }
            false
        },
    };
    let ghost mid = diagnostic_views(diagnostics@);
    let ghost apps_before = application_views(applications@);
    let ghost key = id@;
    let application = validate_application(id, category, file, raw_application, diagnostics);
    if !duplicate {
        match application {
            Some(application) => {
                applications.push(application);
                assert(application_views(applications@) =~= apps_before.push(
                    application_of(category@, file@, key, g),
                ));
                proof {
                    let na = application_views(applications@);
                    lemma_first_definition_push(st.seen, key, file@, key);
                    assert forall|i: int, j: int| 0 <= i < j < na.len() implies (#[trigger] na[i]).id
                        != (#[trigger] na[j]).id by {
                        if j == na.len() - 1 {
                            assert(first_definition(st.seen, na[i].id) is Some);
                        }
                    }
                }
            },
            None => {},
        }
    }
}

/// The plain state of the loader's buffers.
pub open spec fn state_of(
    applications: Seq<Application>,
    seen: Seq<(String, String)>,
    diagnostics: Seq<Diagnostic>,
) -> LoadState {
    LoadState {
        applications: application_views(applications),
        seen: seen_views(seen),
        diagnostics: diagnostic_views(diagnostics),
    }
}

fn report_into(diagnostics: &mut Vec<Diagnostic>, d: Diagnostic)
    ensures
        diagnostic_views(final(diagnostics)@) == diagnostic_views(old(diagnostics)@).push(d@),
{
    let ghost before = diagnostic_views(diagnostics@);
    diagnostics.push(d);
    assert(diagnostic_views(diagnostics@) =~= before.push(d@));
}

/// Load one rule file into the state.
fn load_rule_file(
    file: RuleFile,
    applications: &mut Vec<Application>,
    seen_ids: &mut Vec<(String, String)>,
    diagnostics: &mut Vec<Diagnostic>,
)
    requires
        ids_tracked(state_of(old(applications)@, old(seen_ids)@, old(diagnostics)@)),
    ensures
        state_of(final(applications)@, final(seen_ids)@, final(diagnostics)@) == load_file(
            state_of(old(applications)@, old(seen_ids)@, old(diagnostics)@),
            file,
        ),
        ids_tracked(state_of(final(applications)@, final(seen_ids)@, final(diagnostics)@)),
{
    let ghost g = file;
    let RuleFile { path, stem, content } = file;
    let stem = match stem {
        None => {
            report_into(
                diagnostics,
                Diagnostic::error(
                    "invalid-category",
                    path.as_str(),
                    "rule filename must be valid UTF-8".to_owned(),
                ),
            );
            return;
        },
        Some(stem) => stem,
    };
    match ApplicationId::parse(stem.as_str()) {
        Err(message) => {
            let mut text = "invalid category filename: ".to_owned();
            text.append(message.as_str());
            report_into(diagnostics, Diagnostic::error("invalid-category", path.as_str(), text));
            return;
        },
        Ok(_) => {},
    }
    match content {
        RuleFileContent::Unreadable(error) => {
            let mut text = "cannot read rule file as UTF-8: ".to_owned();
            text.append(error.as_str());
            report_into(
                diagnostics,
                Diagnostic::error("rule-file-unreadable", path.as_str(), text),
            );
        },
        RuleFileContent::Invalid { message, source, offset } => {
            let ghost m = message@;
            let diagnostic = Diagnostic::error("invalid-toml", path.as_str(), message);
            let diagnostic = match offset {
                Some(offset) => {
                    let text: &str = source.as_str();
                    let size = text.as_bytes().len();
                    if size < usize::MAX {
                        let (line, column) = byte_offset_position(text, offset);
                        diagnostic.position(line, column)
                    } else {
                        diagnostic
                    }
                },
                None => diagnostic,
            };
            assert(diagnostic@ == invalid_toml_diagnostic(path@, m, source@, offset));
            report_into(diagnostics, diagnostic);
        },
        RuleFileContent::Parsed(raw) => {
            if raw.version != SCHEMA_VERSION {
                let mut text = "source version ".to_owned();
                let digits = decimal_text(raw.version as usize);
                text.append(digits.as_str());
                text.append(" is unsupported; expected ");
                let expected = decimal_text(SCHEMA_VERSION as usize);
                text.append(expected.as_str());
                report_into(
                    diagnostics,
                    Diagnostic::error("unsupported-version", path.as_str(), text),
                );
            }
            let ghost st1 = state_of(applications@, seen_ids@, diagnostics@);
            let entries = raw.applications;
            let ghost es = entries@;
            assert(es.take(0) =~= Seq::<(String, RawApplication)>::empty());
            let mut rest = entries;
            let mut i: usize = 0;
            let n = rest.len();
            assert(es.skip(0) =~= es);
            while i < n
                invariant
                    n == es.len(),
                    i <= n,
                    rest@ == es.skip(i as int),
                    state_of(applications@, seen_ids@, diagnostics@) == load_entries(
                        st1,
                        path@,
                        stem@,
                        es.take(i as int),
                    ),
                    ids_tracked(state_of(applications@, seen_ids@, diagnostics@)),
                decreases n - i,
            {
                let entry = rest.remove(0);
                match entry {
                    (raw_id, raw_application) => {
                        assert(es.take(i + 1).drop_last() =~= es.take(i as int));
                        assert(es.take(i + 1).last() == es[i as int]);
                        load_entry_into(
                            path.as_str(),
                            stem.as_str(),
                            raw_id,
                            raw_application,
                            applications,
                            seen_ids,
                            diagnostics,
                        );
                        assert(es.skip(i + 1) =~= es.skip(i as int).subrange(1, (n - i) as int));
                    },
                }
                i = i + 1;
            }
            assert(es.take(n as int) =~= es);
        },
    }
}

/// One process name of one application on one platform.
pub struct Occurrence {
    pub id: Seq<char>,
    pub source: Seq<char>,
    pub regions: RegionSetView,
    pub platform: Platform,
    pub name: Seq<char>,
}

/// The occurrences of the names of `names`.
pub open spec fn occurrences_of(a: ApplicationView, platform: Platform, names: Seq<Seq<char>>) -> Seq<
    Occurrence,
> {
    names.map_values(
        |n: Seq<char>|
            Occurrence { id: a.id, source: a.source, regions: a.regions, platform, name: n },
    )
}

/// The occurrences of one application, platform by platform.
pub open spec fn application_occurrences(a: ApplicationView, platforms: Seq<Platform>) -> Seq<
    Occurrence,
>
    decreases platforms.len(),
{
    if platforms.len() == 0 {
        Seq::empty()
    } else {
        application_occurrences(a, platforms.drop_last()) + occurrences_of(
            a,
            platforms.last(),
            platform_names(a.processes, platforms.last()),
        )
    }
}

/// The occurrences of all applications, in order, over every platform.
pub open spec fn all_occurrences(apps: Seq<ApplicationView>) -> Seq<Occurrence>
    decreases apps.len(),
{
    if apps.len() == 0 {
        Seq::empty()
    } else {
        all_occurrences(apps.drop_last()) + application_occurrences(apps.last(), all_platforms())
    }
}

/// What the collision check has recorded so far.
pub struct CollisionState {
    /// The first occurrence of each folded name on each platform: platform, folding, ID, name.
    pub per_platform: Seq<(Platform, Seq<char>, Seq<char>, Seq<char>)>,
    /// The first occurrence of each folded name: folding, regions, platform, ID, name.
    pub combined: Seq<(Seq<char>, RegionSetView, Platform, Seq<char>, Seq<char>)>,
    /// The foldings already reported as conflicting.
    pub reported: Seq<Seq<char>>,
    /// Diagnostics so far.
    pub diagnostics: Seq<DiagnosticView>,
}

/// The first recorded occurrence of folding `f` on `platform`: its ID and name.
pub open spec fn find_on_platform(
    per: Seq<(Platform, Seq<char>, Seq<char>, Seq<char>)>,
    platform: Platform,
    f: Seq<char>,
) -> Option<(Seq<char>, Seq<char>)>
    decreases per.len(),
{
    if per.len() == 0 {
        None
    } else {
        match find_on_platform(per.drop_last(), platform, f) {
            Some(x) => Some(x),
            None => if per.last().0 == platform && per.last().1 == f {
                Some((per.last().2, per.last().3))
            } else {
                None
            },
        }
    }
}

/// The first recorded occurrence of folding `f`: its regions, platform, ID, and name.
pub open spec fn find_combined(
    combined: Seq<(Seq<char>, RegionSetView, Platform, Seq<char>, Seq<char>)>,
    f: Seq<char>,
) -> Option<(RegionSetView, Platform, Seq<char>, Seq<char>)>
    decreases combined.len(),
{
    if combined.len() == 0 {
        None
    } else {
        match find_combined(combined.drop_last(), f) {
            Some(x) => Some(x),
            None => if combined.last().0 == f {
                Some((combined.last().1, combined.last().2, combined.last().3, combined.last().4))
            } else {
                None
            },
        }
    }
}

/// The message of a name that repeats another on the same platform.
pub open spec fn duplicate_name_message(
    name: Seq<char>,
    first_name: Seq<char>,
    first_app: Seq<char>,
    platform: Platform,
) -> Seq<char> {
    "`"@ + name + "` duplicates `"@ + first_name + "` from application `"@ + first_app + "` on "@
        + platform_name(platform) + "; matching is case-insensitive"@
}

/// The message of a name whose region set differs from an earlier one on another platform.
pub open spec fn conflict_message(
    name: Seq<char>,
    platform: Platform,
    first_name: Seq<char>,
    first_platform: Platform,
    first_app: Seq<char>,
) -> Seq<char> {
    "`"@ + name + "` on "@ + platform_name(platform) + " conflicts with `"@ + first_name
        + "` on "@ + platform_name(first_platform) + " from application `"@ + first_app
        + "`; the all-platform artifact cannot assign one case-insensitive name to two region sets"@
}

/// Check one occurrence.
pub open spec fn collision_step(st: CollisionState, o: Occurrence) -> CollisionState {
    let f = case_folded(o.name);
    let field = platform_name(o.platform);
    let on_platform = find_on_platform(st.per_platform, o.platform, f);
    let d1 = match on_platform {
        Some((first_app, first_name)) => st.diagnostics.push(
            field_error(
                "duplicate-process-name"@,
                o.source,
                o.id,
                field,
                duplicate_name_message(o.name, first_name, first_app, o.platform),
            ),
        ),
        None => st.diagnostics,
    };
    let per1 = if on_platform is None {
        st.per_platform.push((o.platform, f, o.id, o.name))
    } else {
        st.per_platform
    };
    match find_combined(st.combined, f) {
        Some((first_regions, first_platform, first_app, first_name)) => if first_regions
            != o.regions && !st.reported.contains(f) {
            CollisionState {
                per_platform: per1,
                combined: st.combined,
                reported: st.reported.push(f),
                diagnostics: d1.push(
                    field_error(
                        "conflicting-all-platform-regions"@,
                        o.source,
                        o.id,
                        field,
                        conflict_message(o.name, o.platform, first_name, first_platform, first_app),
                    ),
                ),
            }
        } else {
            CollisionState {
                per_platform: per1,
                combined: st.combined,
                reported: st.reported,
                diagnostics: d1,
            }
        },
        None => CollisionState {
            per_platform: per1,
            combined: st.combined.push((f, o.regions, o.platform, o.id, o.name)),
            reported: st.reported,
            diagnostics: d1,
        },
    }
}

/// Check occurrences in order.
pub open spec fn collision_steps(st: CollisionState, os: Seq<Occurrence>) -> CollisionState
    decreases os.len(),
{
    if os.len() == 0 {
        st
    } else {
        collision_step(collision_steps(st, os.drop_last()), os.last())
    }
}

/// The diagnostics the collision check appends for `apps`.
pub open spec fn collision_report(apps: Seq<ApplicationView>) -> Seq<DiagnosticView> {
    collision_steps(
        CollisionState {
            per_platform: Seq::empty(),
            combined: Seq::empty(),
            reported: Seq::empty(),
            diagnostics: Seq::empty(),
        },
        all_occurrences(apps),
    ).diagnostics
}

/// Occurrences that fold to the same name are on different platforms and have equal region
/// sets: no platform lists two names that differ only in case, and a name shared across
/// platforms has one region set.
pub open spec fn collision_free(os: Seq<Occurrence>) -> bool {
    forall|i: int, j: int|
        0 <= i < j < os.len() && case_folded((#[trigger] os[i]).name) == case_folded(
            (#[trigger] os[j]).name,
        ) ==> os[i].platform != os[j].platform && os[i].regions == os[j].regions
}

/// Some occurrence of `os` is on `platform` and folds to `f`.
spec fn seen_on(os: Seq<Occurrence>, platform: Platform, f: Seq<char>) -> bool {
    exists|i: int| 0 <= i < os.len() && (#[trigger] os[i]).platform == platform && case_folded(os[i].name) == f
}

/// Some occurrence of `os` folds to `f`.
spec fn seen_folded(os: Seq<Occurrence>, f: Seq<char>) -> bool {
    exists|i: int| 0 <= i < os.len() && case_folded((#[trigger] os[i]).name) == f
}

/// What the collision check has recorded after the occurrences `os`.
spec fn collision_inv(os: Seq<Occurrence>, st: CollisionState) -> bool {
    &&& st.reported.len() <= st.diagnostics.len()
    &&& forall|k: int| 0 <= k < st.diagnostics.len() ==> (#[trigger] st.diagnostics[k]).severity == Severity::Error
    &&& forall|p: Platform, f: Seq<char>|
        (#[trigger] find_on_platform(st.per_platform, p, f)) is Some <==> seen_on(os, p, f)
    &&& forall|f: Seq<char>| (#[trigger] find_combined(st.combined, f)) is Some <==> seen_folded(os, f)
    &&& st.diagnostics.len() == 0 ==> forall|f: Seq<char>, i: int|
        0 <= i < os.len() && case_folded((#[trigger] os[i]).name) == f && (#[trigger] find_combined(
            st.combined,
            f,
        )) is Some ==> os[i].regions == find_combined(st.combined, f)->Some_0.0
    &&& st.diagnostics.len() == 0 <==> collision_free(os)
}

proof fn lemma_collision_step(os: Seq<Occurrence>, st: CollisionState, o: Occurrence)
    requires
        collision_inv(os, st),
    ensures
        collision_inv(os.push(o), collision_step(st, o)),
{
    let n = os.len() as int;
    let os1 = os.push(o);
    let f = case_folded(o.name);
    let st1 = collision_step(st, o);
    let on_platform = find_on_platform(st.per_platform, o.platform, f);
    let per1 = if on_platform is None {
        st.per_platform.push((o.platform, f, o.id, o.name))
    } else {
        st.per_platform
    };
    assert(st1.per_platform == per1);
    assert forall|i: int| 0 <= i < n implies os1[i] == os[i] by {}
    assert(os1[n] == o);
    assert forall|p: Platform, g: Seq<char>| seen_on(os1, p, g) <==> (seen_on(os, p, g) || (
    o.platform == p && f == g)) by {
        if seen_on(os1, p, g) {
            let i = choose|i: int| 0 <= i < os1.len() && (#[trigger] os1[i]).platform == p && case_folded(os1[i].name) == g;
            if i < n {
                assert(os[i] == os1[i]);
            }
        }
        if seen_on(os, p, g) {
            let i = choose|i: int| 0 <= i < os.len() && (#[trigger] os[i]).platform == p && case_folded(os[i].name) == g;
            assert(os1[i] == os[i]);
        }
        if o.platform == p && f == g {
            assert(os1[n].platform == p);
        }
    }
    assert forall|g: Seq<char>| seen_folded(os1, g) <==> (seen_folded(os, g) || f == g) by {
        if seen_folded(os1, g) {
            let i = choose|i: int| 0 <= i < os1.len() && case_folded((#[trigger] os1[i]).name) == g;
            if i < n {
                assert(os[i] == os1[i]);
            }
        }
        if seen_folded(os, g) {
            let i = choose|i: int| 0 <= i < os.len() && case_folded((#[trigger] os[i]).name) == g;
            assert(os1[i] == os[i]);
        }
        if f == g {
            assert(case_folded(os1[n].name) == g);
        }
    }
    // The per-platform table.
    assert forall|p: Platform, g: Seq<char>|
        (#[trigger] find_on_platform(st1.per_platform, p, g)) is Some <==> seen_on(os1, p, g) by {
        if on_platform is None {
            assert(per1.drop_last() =~= st.per_platform);
        }
    }
    // The all-platform table.
    let combined = find_combined(st.combined, f);
    if combined is None {
        assert(st1.combined == st.combined.push((f, o.regions, o.platform, o.id, o.name)));
        assert(st1.combined.drop_last() =~= st.combined);
    } else {
        assert(st1.combined == st.combined);
    }
    assert forall|g: Seq<char>| (#[trigger] find_combined(st1.combined, g)) is Some <==> seen_folded(os1, g) by {
        if combined is None {
            assert(st1.combined.drop_last() =~= st.combined);
            assert(st1.combined.last().0 == f);
        }
    }
    if st.diagnostics.len() > 0 {
        let (i, j) = choose|i: int, j: int|
            0 <= i < j < os.len() && case_folded((#[trigger] os[i]).name) == case_folded(
                (#[trigger] os[j]).name,
            ) && !(os[i].platform != os[j].platform && os[i].regions == os[j].regions);
        assert(os1[i] == os[i] && os1[j] == os[j]);
        assert(!collision_free(os1));
    } else {
        assert(st.reported.len() == 0);
        assert(!st.reported.contains(f));
        if on_platform is Some {
            let i = choose|i: int| 0 <= i < os.len() && (#[trigger] os[i]).platform == o.platform && case_folded(os[i].name) == f;
            assert(os1[i] == os[i]);
            assert(!collision_free(os1));
        } else {
            assert(!seen_on(os, o.platform, f));
            match combined {
                Some(x) => {
                    if x.0 != o.regions {
                        let i = choose|i: int| 0 <= i < os.len() && case_folded((#[trigger] os[i]).name) == f;
                        assert(os[i].regions == x.0);
                        assert(os1[i] == os[i]);
                        assert(!collision_free(os1));
                    } else {
                        assert(st1.diagnostics.len() == 0);
                        assert(st1.combined == st.combined);
                        assert forall|a: int, b: int|
                            0 <= a < b < os1.len() && case_folded((#[trigger] os1[a]).name) == case_folded(
                                (#[trigger] os1[b]).name,
                            ) implies os1[a].platform != os1[b].platform && os1[a].regions
                            == os1[b].regions by {
                            assert(os1[a] == os[a]);
                            if b < n {
                                assert(os1[b] == os[b]);
                            } else {
                                assert(os[a].regions == x.0);
                                if os[a].platform == o.platform {
                                    assert(seen_on(os, o.platform, f));
                                }
                            }
                        }
                        assert forall|g: Seq<char>, i: int|
                            0 <= i < os1.len() && case_folded((#[trigger] os1[i]).name) == g && (
                            #[trigger] find_combined(st1.combined, g)) is Some implies os1[i].regions
                            == find_combined(st1.combined, g)->Some_0.0 by {
                            if i < n {
                                assert(os1[i] == os[i]);
                            }
                        }
                    }
                },
                None => {
                    assert(!seen_folded(os, f));
                    assert(st1.diagnostics.len() == 0);
                    assert(st1.combined == st.combined.push((f, o.regions, o.platform, o.id, o.name)));
                    assert(st1.combined.drop_last() =~= st.combined);
                    assert forall|a: int, b: int|
                        0 <= a < b < os1.len() && case_folded((#[trigger] os1[a]).name) == case_folded(
                            (#[trigger] os1[b]).name,
                        ) implies os1[a].platform != os1[b].platform && os1[a].regions
                        == os1[b].regions by {
                        assert(os1[a] == os[a]);
                        if b < n {
                            assert(os1[b] == os[b]);
                        } else {
                            assert(seen_folded(os, f));
                        }
                    }
                    assert forall|g: Seq<char>, i: int|
                        0 <= i < os1.len() && case_folded((#[trigger] os1[i]).name) == g && (
                        #[trigger] find_combined(st1.combined, g)) is Some implies os1[i].regions
                        == find_combined(st1.combined, g)->Some_0.0 by {
                        if i < n {
                            assert(os1[i] == os[i]);
                            if g == f {
                                assert(seen_folded(os, f));
                            } else {
                                assert(find_combined(st1.combined, g) == find_combined(st.combined, g));
                            }
                        } else {
                            assert(g == f);
                            assert(find_combined(st1.combined, f) == Some(
                                (o.regions, o.platform, o.id, o.name),
                            ));
                        }
                    }
                },
            }
        }
    }
}

proof fn lemma_collision_steps(os: Seq<Occurrence>)
    ensures
        collision_inv(
            os,
            collision_steps(
                CollisionState {
                    per_platform: Seq::empty(),
                    combined: Seq::empty(),
                    reported: Seq::empty(),
                    diagnostics: Seq::empty(),
                },
                os,
            ),
        ),
    decreases os.len(),
{
    if os.len() > 0 {
        lemma_collision_steps(os.drop_last());
        lemma_collision_step(
            os.drop_last(),
            collision_steps(
                CollisionState {
                    per_platform: Seq::empty(),
                    combined: Seq::empty(),
                    reported: Seq::empty(),
                    diagnostics: Seq::empty(),
                },
                os.drop_last(),
            ),
            os.last(),
        );
        assert(os.drop_last().push(os.last()) =~= os);
    }
}

/// The collision check reports nothing exactly when the occurrences of the applications are
/// collision-free, and everything it reports is an error.
pub proof fn law_collision_report(apps: Seq<ApplicationView>)
    ensures
        collision_report(apps).len() == 0 <==> collision_free(all_occurrences(apps)),
        forall|k: int|
            0 <= k < collision_report(apps).len() ==> (#[trigger] collision_report(apps)[k]).severity
                == Severity::Error,
{
    lemma_collision_steps(all_occurrences(apps));
}

/// A load that reports no error yields a catalog whose process names are collision-free: no
/// platform lists two names that are equal ignoring case, and a name that occurs on several
/// platforms, ignoring case, has one region set.
pub proof fn law_loaded_catalog_is_collision_free(
    rules_dir: Seq<char>,
    listing: RulesListing,
    require_non_empty: bool,
)
    requires
        !has_error(load_diagnostics(rules_dir, listing, require_non_empty)),
    ensures
        collision_free(all_occurrences(loaded_applications(rules_dir, listing))),
{
    let apps = loaded_applications(rules_dir, listing);
    let before = load_listing(rules_dir, listing).diagnostics;
    let d = before + collision_report(apps);
    law_collision_report(apps);
    if collision_report(apps).len() > 0 {
        assert(d[before.len() as int] == collision_report(apps)[0]);
        assert(has_error(d));
    }
}

struct Collisions {
    per_platform: Vec<(Platform, String, String, String)>,
    combined: Vec<(String, RegionSet, Platform, String, String)>,
    reported: Vec<String>,
}

spec fn per_platform_views(s: Seq<(Platform, String, String, String)>) -> Seq<
    (Platform, Seq<char>, Seq<char>, Seq<char>),
> {
    s.map_values(|e: (Platform, String, String, String)| (e.0, e.1@, e.2@, e.3@))
}

spec fn combined_views(s: Seq<(String, RegionSet, Platform, String, String)>) -> Seq<
    (Seq<char>, RegionSetView, Platform, Seq<char>, Seq<char>),
> {
    s.map_values(|e: (String, RegionSet, Platform, String, String)| (e.0@, e.1@, e.2, e.3@, e.4@))
}

spec fn collision_state_of(c: Collisions, diagnostics: Seq<Diagnostic>) -> CollisionState {
    CollisionState {
        per_platform: per_platform_views(c.per_platform@),
        combined: combined_views(c.combined@),
        reported: crate::region::string_views(c.reported@),
        diagnostics: diagnostic_views(diagnostics),
    }
}

fn find_on_platform_index(
    per: &Vec<(Platform, String, String, String)>,
    platform: Platform,
    f: &String,
) -> (r: Option<usize>)
    ensures
        r is None ==> find_on_platform(per_platform_views(per@), platform, f@) is None,
        r matches Some(k) ==> k < per.len() && find_on_platform(
            per_platform_views(per@),
            platform,
            f@,
        ) == Some((per@[k as int].2@, per@[k as int].3@)),
{
    let ghost v = per_platform_views(per@);
    let mut i: usize = 0;
    while i < per.len()
        invariant
            v == per_platform_views(per@),
            i <= per.len(),
            find_on_platform(v.take(i as int), platform, f@) is None,
        decreases per.len() - i,
    {
        assert(v.take(i + 1).drop_last() =~= v.take(i as int));
        assert(v.take(i + 1).last() == v[i as int]);
        if per[i].0 == platform && per[i].1 == *f {
            proof {
                lemma_find_on_platform_prefix(v, i as int + 1, platform, f@);
            }
            return Some(i);
        }
        i = i + 1;
    }
    assert(v.take(per.len() as int) =~= v);
    None
}

proof fn lemma_find_on_platform_prefix(
    v: Seq<(Platform, Seq<char>, Seq<char>, Seq<char>)>,
    n: int,
    platform: Platform,
    f: Seq<char>,
)
    requires
        0 <= n <= v.len(),
        find_on_platform(v.take(n), platform, f) is Some,
    ensures
        find_on_platform(v, platform, f) == find_on_platform(v.take(n), platform, f),
    decreases v.len() - n,
{
    if n < v.len() {
        assert(v.take(n + 1).drop_last() =~= v.take(n));
        lemma_find_on_platform_prefix(v, n + 1, platform, f);
    } else {
        assert(v.take(n) =~= v);
    }
}

proof fn lemma_find_combined_prefix(
    v: Seq<(Seq<char>, RegionSetView, Platform, Seq<char>, Seq<char>)>,
    n: int,
    f: Seq<char>,
)
    requires
        0 <= n <= v.len(),
        find_combined(v.take(n), f) is Some,
    ensures
        find_combined(v, f) == find_combined(v.take(n), f),
    decreases v.len() - n,
{
    if n < v.len() {
        assert(v.take(n + 1).drop_last() =~= v.take(n));
        lemma_find_combined_prefix(v, n + 1, f);
    } else {
        assert(v.take(n) =~= v);
    }
}

fn find_combined_index(combined: &Vec<(String, RegionSet, Platform, String, String)>, f: &String) -> (r:
    Option<usize>)
    ensures
        r is None ==> find_combined(combined_views(combined@), f@) is None,
        r matches Some(k) ==> k < combined.len() && find_combined(combined_views(combined@), f@)
            == Some(
            (
                combined@[k as int].1@,
                combined@[k as int].2,
                combined@[k as int].3@,
                combined@[k as int].4@,
            ),
        ),
{
    let ghost v = combined_views(combined@);
    let mut i: usize = 0;
    while i < combined.len()
        invariant
            v == combined_views(combined@),
            i <= combined.len(),
            find_combined(v.take(i as int), f@) is None,
        decreases combined.len() - i,
    {
        assert(v.take(i + 1).drop_last() =~= v.take(i as int));
        assert(v.take(i + 1).last() == v[i as int]);
        if combined[i].0 == *f {
            proof {
                lemma_find_combined_prefix(v, i as int + 1, f@);
            }
            return Some(i);
        }
        i = i + 1;
    }
    assert(v.take(combined.len() as int) =~= v);
    None
}

fn is_reported(reported: &Vec<String>, f: &String) -> (r: bool)
    ensures
        r == crate::region::string_views(reported@).contains(f@),
{
    let ghost v = crate::region::string_views(reported@);
    let mut i: usize = 0;
    while i < reported.len()
        invariant
            v == crate::region::string_views(reported@),
            i <= reported.len(),
            forall|j: int| 0 <= j < i ==> v[j] != f@,
        decreases reported.len() - i,
    {
        if reported[i] == *f {
            assert(v[i as int] == f@);
            return true;
        }
        i = i + 1;
    }
    false
}

/// Check one occurrence against everything recorded so far.
#[verifier::rlimit(40)]
fn check_occurrence(
    state: &mut Collisions,
    application: &Application,
    platform: Platform,
    process: &ProcessName,
    diagnostics: &mut Vec<Diagnostic>,
)
    ensures
        collision_state_of(*final(state), final(diagnostics)@) == collision_step(
            collision_state_of(*old(state), old(diagnostics)@),
            Occurrence {
                id: application@.id,
                source: application@.source,
                regions: application@.regions,
                platform,
                name: process@,
            },
        ),
{
    let ghost st = collision_state_of(*state, diagnostics@);
    let ghost o = Occurrence {
        id: application@.id,
        source: application@.source,
        regions: application@.regions,
        platform,
        name: process@,
    };
    let folded = case_fold(process.as_str());
    let ghost f = folded@;
    let on_platform = find_on_platform_index(&state.per_platform, platform, &folded);
    match on_platform {
        Some(k) => {
            let mut message = "`".to_owned();
            message.append(process.as_str());
            message.append("` duplicates `");
            message.append(state.per_platform[k].3.as_str());
            message.append("` from application `");
            message.append(state.per_platform[k].2.as_str());
            message.append("` on ");
            message.append(platform.as_str());
            message.append("; matching is case-insensitive");
            report_into(
                diagnostics,
                Diagnostic::error("duplicate-process-name", application.source(), message).application(
                    application.id().to_text(),
                ).field(platform.as_str()),
            );
        },
        None => {
            let ghost before = per_platform_views(state.per_platform@);
            state.per_platform.push(
                (platform, folded.clone(), application.id().to_text(), process.as_str().to_owned()),
            );
            assert(per_platform_views(state.per_platform@) =~= before.push(
                (platform, f, o.id, o.name),
            ));
        },
    }
    let ghost d1 = diagnostic_views(diagnostics@);
    let ghost per1 = per_platform_views(state.per_platform@);
    match find_combined_index(&state.combined, &folded) {
        Some(k) => {
            if !state.combined[k].1.same(application.regions()) && !is_reported(
                &state.reported,
                &folded,
            ) {
                let ghost before = crate::region::string_views(state.reported@);
                state.reported.push(folded.clone());
                assert(crate::region::string_views(state.reported@) =~= before.push(f));
                let mut message = "`".to_owned();
                message.append(process.as_str());
                message.append("` on ");
                message.append(platform.as_str());
                message.append(" conflicts with `");
                message.append(state.combined[k].4.as_str());
                message.append("` on ");
                message.append(state.combined[k].2.as_str());
                message.append(" from application `");
                message.append(state.combined[k].3.as_str());
                message.append(
                    "`; the all-platform artifact cannot assign one case-insensitive name to two region sets",
                );
                report_into(
                    diagnostics,
                    Diagnostic::error(
                        "conflicting-all-platform-regions",
                        application.source(),
                        message,
                    ).application(application.id().to_text()).field(platform.as_str()),
                );
            }
        },
        None => {
            let ghost before = combined_views(state.combined@);
            state.combined.push(
                (
                    folded,
                    application.regions().clone(),
                    platform,
                    application.id().to_text(),
                    process.as_str().to_owned(),
                ),
            );
            assert(combined_views(state.combined@) =~= before.push(
                (f, o.regions, platform, o.id, o.name),
            ));
        },
    }
}

/// Check every process name of `applications` for case-insensitive collisions.
fn validate_process_collisions(applications: &Vec<Application>, diagnostics: &mut Vec<Diagnostic>)
    ensures
        diagnostic_views(final(diagnostics)@) == diagnostic_views(old(diagnostics)@)
            + collision_report(application_views(applications@)),
{
    let ghost apps = application_views(applications@);
    let ghost init = CollisionState {
        per_platform: Seq::empty(),
        combined: Seq::empty(),
        reported: Seq::empty(),
        diagnostics: Seq::empty(),
    };
    let mut state = Collisions {
        per_platform: Vec::new(),
        combined: Vec::new(),
        reported: Vec::new(),
    };
    let mut found: Vec<Diagnostic> = Vec::new();
    let platforms = Platform::all();
    let ghost mut os: Seq<Occurrence> = Seq::empty();
    assert(per_platform_views(state.per_platform@) =~= init.per_platform);
    assert(combined_views(state.combined@) =~= init.combined);
    assert(crate::region::string_views(state.reported@) =~= init.reported);
    assert(diagnostic_views(found@) =~= init.diagnostics);
    assert(collision_state_of(state, found@) == init);
    let mut i: usize = 0;
    while i < applications.len()
        invariant
            apps == application_views(applications@),
            platforms@ == all_platforms(),
            i <= applications.len(),
            os == all_occurrences(apps.take(i as int)),
            collision_state_of(state, found@) == collision_steps(init, os),
        decreases applications.len() - i,
    {
        let application = &applications[i];
        let ghost a = application@;
        assert(apps[i as int] == a);
        assert(apps.take(i + 1).drop_last() =~= apps.take(i as int));
        let ghost base = os;
        assert(application_occurrences(a, platforms@.take(0)) =~= Seq::<Occurrence>::empty());
        assert(os =~= base + application_occurrences(a, platforms@.take(0)));
        let mut k: usize = 0;
        while k < platforms.len()
            invariant
                platforms@ == all_platforms(),
                a == application@,
                k <= platforms.len(),
                os == base + application_occurrences(a, platforms@.take(k as int)),
                collision_state_of(state, found@) == collision_steps(init, os),
            decreases platforms.len() - k,
        {
            let platform = platforms[k];
            let names = application.processes(platform);
            let ghost here = occurrences_of(a, platform, name_views(names@));
            let ghost start = os;
            let mut m: usize = 0;
            assert(os =~= start + here.take(0));
            while m < names.len()
                invariant
                    a == application@,
                    here == occurrences_of(a, platform, name_views(names@)),
                    m <= names.len(),
                    os == start + here.take(m as int),
                    collision_state_of(state, found@) == collision_steps(init, os),
                decreases names.len() - m,
            {
                check_occurrence(&mut state, application, platform, &names[m], &mut found);
                proof {
                    assert(here[m as int] == (Occurrence {
                        id: a.id,
                        source: a.source,
                        regions: a.regions,
                        platform,
                        name: names@[m as int]@,
                    }));
                    assert(start + here.take(m + 1) =~= (start + here.take(m as int)).push(
                        here[m as int],
                    ));
                    assert(os.push(here[m as int]).drop_last() =~= os);
                    os = os.push(here[m as int]);
                }
                m = m + 1;
            }
            proof {
                assert(here.take(m as int) =~= here);
                assert(platforms@.take(k + 1).drop_last() =~= platforms@.take(k as int));
                assert(platforms@.take(k + 1).last() == platform);
                assert(base + application_occurrences(a, platforms@.take(k + 1)) =~= (base
                    + application_occurrences(a, platforms@.take(k as int))) + here);
            }
            k = k + 1;
        }
        proof {
            assert(platforms@.take(k as int) =~= platforms@);
        }
        i = i + 1;
    }
    assert(apps.take(applications.len() as int) =~= apps);
    let ghost before = diagnostic_views(diagnostics@);
    let ghost extra = diagnostic_views(found@);
    diagnostics.append(&mut found);
    assert(diagnostic_views(diagnostics@) =~= before + extra);
}

/// Applications in strictly increasing ID order.
pub open spec fn id_sorted(s: Seq<ApplicationView>) -> bool {
    forall|i: int, j: int| 0 <= i < j < s.len() ==> lex_less((#[trigger] s[i]).id, (#[trigger] s[j]).id)
}

/// `r` is `s` in increasing ID order.
pub open spec fn is_id_ordering(r: Seq<ApplicationView>, s: Seq<ApplicationView>) -> bool {
    &&& r.len() == s.len()
    &&& forall|x: ApplicationView| r.contains(x) <==> s.contains(x)
    &&& id_sorted(r)
}

/// `s` in increasing ID order.
pub open spec fn sorted_by_id(s: Seq<ApplicationView>) -> Seq<ApplicationView> {
    choose|r: Seq<ApplicationView>| is_id_ordering(r, s)
}

/// Two ID-sorted sequences with the same members are equal.
pub proof fn lemma_id_sorted_equal(a: Seq<ApplicationView>, b: Seq<ApplicationView>)
    requires
        id_sorted(a),
        id_sorted(b),
        forall|x: ApplicationView| a.contains(x) <==> b.contains(x),
    ensures
        a == b,
    decreases a.len() + b.len(),
{
    if a.len() == 0 {
        if b.len() > 0 {
            assert(b.contains(b[0]));
        }
        assert(a =~= b);
    } else if b.len() == 0 {
        assert(a.contains(a[0]));
    } else {
        assert(a.contains(a[0]));
        assert(b.contains(b[0]));
        let i = choose|i: int| 0 <= i < b.len() && b[i] == a[0];
        let j = choose|j: int| 0 <= j < a.len() && a[j] == b[0];
        if i > 0 {
            assert(lex_less(b[0].id, b[i].id));
            lemma_lex_irreflexive(a[0].id);
            if j > 0 {
                assert(lex_less(a[0].id, a[j].id));
                lemma_lex_asymmetric(a[0].id, b[0].id);
            }
        }
        assert(a[0] == b[0]);
        let a1 = a.drop_first();
        let b1 = b.drop_first();
        assert forall|x: ApplicationView| a1.contains(x) <==> b1.contains(x) by {
            if a1.contains(x) {
                let k = choose|k: int| 0 <= k < a1.len() && a1[k] == x;
                assert(lex_less(a[0].id, a[k + 1].id));
                lemma_lex_irreflexive(x.id);
                assert(b.contains(x));
                let m = choose|m: int| 0 <= m < b.len() && b[m] == x;
                assert(m != 0);
                assert(b1[m - 1] == x);
            }
            if b1.contains(x) {
                let k = choose|k: int| 0 <= k < b1.len() && b1[k] == x;
                assert(lex_less(b[0].id, b[k + 1].id));
                lemma_lex_irreflexive(x.id);
                assert(a.contains(x));
                let m = choose|m: int| 0 <= m < a.len() && a[m] == x;
                assert(m != 0);
                assert(a1[m - 1] == x);
            }
        }
        assert(id_sorted(a1)) by {
            assert forall|p: int, q: int| 0 <= p < q < a1.len() implies lex_less(
                (#[trigger] a1[p]).id,
                (#[trigger] a1[q]).id,
            ) by {
                assert(lex_less(a[p + 1].id, a[q + 1].id));
            }
        }
        assert(id_sorted(b1)) by {
            assert forall|p: int, q: int| 0 <= p < q < b1.len() implies lex_less(
                (#[trigger] b1[p]).id,
                (#[trigger] b1[q]).id,
            ) by {
                assert(lex_less(b[p + 1].id, b[q + 1].id));
            }
        }
        lemma_id_sorted_equal(a1, b1);
        assert(a =~= seq![a[0]] + a1);
        assert(b =~= seq![b[0]] + b1);
    }
}

fn id_before(a: &Application, b: &Application) -> (r: bool)
    ensures
        r == lex_less(a@.id, b@.id),
{
    let x = chars_of(a.id().as_str());
    let y = chars_of(b.id().as_str());
    chars_less(&x, &y)
}

/// Order applications with pairwise different IDs by ID.
fn sort_by_id(applications: Vec<Application>) -> (r: Vec<Application>)
    requires
        forall|i: int, j: int|
            0 <= i < j < applications.len() ==> (#[trigger] applications@[i])@.id
                != (#[trigger] applications@[j])@.id,
    ensures
        application_views(r@) == sorted_by_id(application_views(applications@)),
        is_id_ordering(application_views(r@), application_views(applications@)),
{
    let ghost all = application_views(applications@);
    let mut rest = applications;
    let mut sorted: Vec<Application> = Vec::new();
    let n = rest.len();
    let mut k: usize = 0;
    assert(all.skip(0) =~= all);
    while k < n
        invariant
            n == all.len(),
            forall|i: int, j: int| 0 <= i < j < all.len() ==> (#[trigger] all[i]).id != (#[trigger] all[j]).id,
            k <= n,
            application_views(rest@) == all.skip(k as int),
            sorted.len() == k,
            forall|x: ApplicationView| application_views(sorted@).contains(x) <==> all.take(k as int).contains(x),
            id_sorted(application_views(sorted@)),
        decreases n - k,
    {
        let ghost before = rest@;
        assert(application_views(before).len() == before.len());
        assert(application_views(before)[0] == before[0]@);
        let item = rest.remove(0);
        let ghost x = item@;
        assert(all.skip(k as int)[0] == x);
        assert(all[k as int] == x);
        assert(all.skip(k + 1) =~= all.skip(k as int).drop_first());
        assert(application_views(rest@) =~= application_views(before).drop_first());
        let ghost sv = application_views(sorted@);
        let mut i: usize = 0;
        while i < sorted.len() && id_before(&sorted[i], &item)
            invariant
                i <= sorted.len(),
                sv == application_views(sorted@),
                x == item@,
                forall|j: int| 0 <= j < i ==> lex_less((#[trigger] sv[j]).id, x.id),
            decreases sorted.len() - i,
        {
            assert(sv[i as int] == sorted@[i as int]@);
            i = i + 1;
        }
        proof {
            assert forall|j: int| 0 <= j < sv.len() implies (#[trigger] sv[j]).id != x.id by {
                assert(sv.contains(sv[j]));
                assert(all.take(k as int).contains(sv[j]));
                let m = choose|m: int| 0 <= m < k && all.take(k as int)[m] == sv[j];
                assert(all[m] == sv[j]);
            }
            if i < sorted.len() {
                assert(sv[i as int] == sorted@[i as int]@);
                lemma_lex_total(sv[i as int].id, x.id);
            }
            assert forall|j: int| i <= j < sv.len() implies lex_less(x.id, (#[trigger] sv[j]).id) by {
                if j > i {
                    assert(lex_less(sv[i as int].id, sv[j].id));
                    lemma_lex_transitive(x.id, sv[i as int].id, sv[j].id);
                }
            }
        }
        sorted.insert(i, item);
        proof {
            let nv = application_views(sorted@);
            assert(nv =~= sv.insert(i as int, x));
            assert(all.take(k + 1) =~= all.take(k as int).push(x));
            assert forall|a: int, b: int| 0 <= a < b < nv.len() implies lex_less(
                (#[trigger] nv[a]).id,
                (#[trigger] nv[b]).id,
            ) by {
                if b < i {
                    assert(nv[a] == sv[a] && nv[b] == sv[b]);
                } else if b == i {
                    assert(nv[a] == sv[a]);
                } else if a < i {
                    assert(nv[a] == sv[a] && nv[b] == sv[b - 1]);
                    lemma_lex_transitive(nv[a].id, x.id, nv[b].id);
                } else if a == i {
                    assert(nv[b] == sv[b - 1]);
                } else {
                    assert(nv[a] == sv[a - 1] && nv[b] == sv[b - 1]);
                }
            }
            assert forall|y: ApplicationView| nv.contains(y) <==> all.take(k + 1).contains(y) by {
                if nv.contains(y) {
                    let m = choose|m: int| 0 <= m < nv.len() && nv[m] == y;
                    if m < i {
                        assert(sv[m] == y);
                    } else if m > i {
                        assert(sv[m - 1] == y);
                    }
                }
                if sv.contains(y) {
                    let m = choose|m: int| 0 <= m < sv.len() && sv[m] == y;
                    if m < i {
                        assert(nv[m] == y);
                    } else {
                        assert(nv[m + 1] == y);
                    }
                }
                if y == x {
                    assert(nv[i as int] == y);
                }
            }
        }
        k = k + 1;
    }
    proof {
        assert(all.take(n as int) =~= all);
        let r = application_views(sorted@);
        assert(is_id_ordering(r, all));
        let c = sorted_by_id(all);
        assert(is_id_ordering(c, all));
        lemma_id_sorted_equal(c, r);
    }
    sorted
}

/// Whether some diagnostic is an error.
pub open spec fn has_error(d: Seq<DiagnosticView>) -> bool {
    exists|i: int| 0 <= i < d.len() && (#[trigger] d[i]).severity == Severity::Error
}

/// Number of diagnostics of one severity.
pub open spec fn severity_count(d: Seq<DiagnosticView>, severity: Severity) -> nat
    decreases d.len(),
{
    if d.len() == 0 {
        0
    } else {
        severity_count(d.drop_last(), severity) + if d.last().severity == severity {
            1nat
        } else {
            0nat
        }
    }
}

/// The accepted applications of a load, in ID order.
pub open spec fn loaded_applications(rules_dir: Seq<char>, listing: RulesListing) -> Seq<
    ApplicationView,
> {
    sorted_by_id(load_listing(rules_dir, listing).applications)
}

/// Every diagnostic loading produces, in order.
pub open spec fn load_diagnostics(
    rules_dir: Seq<char>,
    listing: RulesListing,
    require_non_empty: bool,
) -> Seq<DiagnosticView> {
    let apps = loaded_applications(rules_dir, listing);
    let d = load_listing(rules_dir, listing).diagnostics + collision_report(apps);
    if require_non_empty && !has_error(d) && apps.len() == 0 {
        d.push(
            plain_diagnostic(
                Severity::Error,
                "empty-catalog"@,
                rules_dir,
                "rules directory must contain at least one valid application"@,
            ),
        )
    } else {
        d
    }
}

/// Result of loading every source file, including warnings and recoverable errors.
#[derive(Debug)]
pub struct ValidationOutcome {
    catalog: Option<Catalog>,
    diagnostics: Vec<Diagnostic>,
}

/// The plain content of a [`ValidationOutcome`].
pub struct OutcomeView {
    pub catalog: Option<Seq<ApplicationView>>,
    pub diagnostics: Seq<DiagnosticView>,
}

impl View for ValidationOutcome {
    type V = OutcomeView;

    closed spec fn view(&self) -> OutcomeView {
        OutcomeView {
            catalog: match self.catalog {
                Some(c) => Some(c@),
                None => None,
            },
            diagnostics: diagnostic_views(self.diagnostics@),
        }
    }
}

/// Load and validate a rules directory whose listing and files have been read.
pub fn load_catalog(rules_dir: &str, listing: RulesListing, require_non_empty: bool) -> (r:
    ValidationOutcome)
    ensures
        r@.diagnostics == load_diagnostics(rules_dir@, listing, require_non_empty),
        r@.catalog is Some <==> !has_error(r@.diagnostics),
        r@.catalog matches Some(c) ==> c == loaded_applications(rules_dir@, listing),
        r@.catalog matches Some(c) ==> is_id_ordering(c, load_listing(rules_dir@, listing).applications),
{
    let ghost g = listing;
    let mut diagnostics: Vec<Diagnostic> = Vec::new();
    let mut applications: Vec<Application> = Vec::new();
    let mut seen_ids: Vec<(String, String)> = Vec::new();
    match listing {
        RulesListing::Unreadable(error) => {
            let mut text = "cannot read rules directory: ".to_owned();
            text.append(error.as_str());
            report_into(&mut diagnostics, Diagnostic::error("rules-dir-unreadable", rules_dir, text));
            assert(application_views(applications@) =~= Seq::<ApplicationView>::empty());
            assert(diagnostic_views(diagnostics@) =~= load_listing(rules_dir@, g).diagnostics);
        },
        RulesListing::Listed { entry_errors, files } => {
            let ghost errs = string_views(entry_errors@);
            let mut e: usize = 0;
            assert(diagnostic_views(diagnostics@) =~= entry_error_reports(rules_dir@, errs.take(0)));
            while e < entry_errors.len()
                invariant
                    errs == string_views(entry_errors@),
                    e <= entry_errors.len(),
                    diagnostic_views(diagnostics@) == entry_error_reports(rules_dir@, errs.take(e as int)),
                decreases entry_errors.len() - e,
            {
                let mut text = "cannot inspect a rules directory entry: ".to_owned();
                text.append(entry_errors[e].as_str());
                report_into(
                    &mut diagnostics,
                    Diagnostic::error("rules-dir-entry-unreadable", rules_dir, text),
                );
                assert(errs.take(e + 1).drop_last() =~= errs.take(e as int));
                e = e + 1;
            }
            assert(errs.take(entry_errors.len() as int) =~= errs);
            let ghost st0 = state_of(applications@, seen_ids@, diagnostics@);
            assert(st0.applications =~= Seq::<ApplicationView>::empty());
            assert(st0.seen =~= Seq::<(Seq<char>, Seq<char>)>::empty());
            let files = sort_by_path(files);
            let ghost fs = files@;
            let mut rest = files;
            let n = rest.len();
            let mut k: usize = 0;
            assert(fs.skip(0) =~= fs);
            assert(fs.take(0) =~= Seq::<RuleFile>::empty());
            while k < n
                invariant
                    n == fs.len(),
                    k <= n,
                    rest@ == fs.skip(k as int),
                    state_of(applications@, seen_ids@, diagnostics@) == load_files(st0, fs.take(k as int)),
                    ids_tracked(state_of(applications@, seen_ids@, diagnostics@)),
                decreases n - k,
            {
                let file = rest.remove(0);
                assert(fs.skip(k as int)[0] == file);
                assert(fs.take(k + 1).drop_last() =~= fs.take(k as int));
                assert(fs.skip(k + 1) =~= fs.skip(k as int).drop_first());
                load_rule_file(file, &mut applications, &mut seen_ids, &mut diagnostics);
                k = k + 1;
            }
            assert(fs.take(n as int) =~= fs);
            proof {
                let av = application_views(applications@);
                assert(av == state_of(applications@, seen_ids@, diagnostics@).applications);
                assert forall|i: int, j: int|
                    0 <= i < j < applications.len() implies (#[trigger] applications@[i])@.id
                        != (#[trigger] applications@[j])@.id by {
                    assert(av[i] == applications@[i]@);
                    assert(av[j] == applications@[j]@);
                }
            }
        },
    }
    let ghost st = load_listing(rules_dir@, g);
    assert(application_views(applications@) == st.applications);
    let applications = sort_by_id(applications);
    validate_process_collisions(&applications, &mut diagnostics);
    let mut has_errors = false;
    let mut i: usize = 0;
    while i < diagnostics.len()
        invariant
            i <= diagnostics.len(),
            has_errors == exists|j: int| 0 <= j < i && (#[trigger] diagnostics@[j]).severity == Severity::Error,
        decreases diagnostics.len() - i,
    {
        if diagnostics[i].is_error() {
            has_errors = true;
        }
        i = i + 1;
    }
    proof {
        let d = diagnostic_views(diagnostics@);
        assert(has_errors == has_error(d)) by {
            if has_errors {
                let j = choose|j: int| 0 <= j < diagnostics.len() && (#[trigger] diagnostics@[j]).severity == Severity::Error;
                assert(d[j].severity == Severity::Error);
            }
            if has_error(d) {
                let j = choose|j: int| 0 <= j < d.len() && (#[trigger] d[j]).severity == Severity::Error;
                assert(diagnostics@[j].severity == Severity::Error);
            }
        }
    }
    if require_non_empty && !has_errors && applications.len() == 0 {
        report_into(
            &mut diagnostics,
            Diagnostic::error(
                "empty-catalog",
                rules_dir,
                "rules directory must contain at least one valid application".to_owned(),
            ),
        );
        has_errors = true;
        proof {
            let d = diagnostic_views(diagnostics@);
            assert(d[d.len() - 1].severity == Severity::Error);
        }
    }
    let catalog = if has_errors {
        None
    } else {
        Some(Catalog::from_applications(applications))
    };
    ValidationOutcome { catalog, diagnostics }
}

fn count_severity(diagnostics: &Vec<Diagnostic>, severity: Severity) -> (r: usize)
    ensures
        r as int == severity_count(diagnostic_views(diagnostics@), severity),
{
    let ghost d = diagnostic_views(diagnostics@);
    let mut count: usize = 0;
    let mut i: usize = 0;
    while i < diagnostics.len()
        invariant
            d == diagnostic_views(diagnostics@),
            i <= diagnostics.len(),
            count <= i,
            count as int == severity_count(d.take(i as int), severity),
        decreases diagnostics.len() - i,
    {
        assert(d.take(i + 1).drop_last() =~= d.take(i as int));
        assert(d.take(i + 1).last() == diagnostics@[i as int]@);
        if diagnostics[i].severity == severity {
            count = count + 1;
        }
        i = i + 1;
    }
    assert(d.take(diagnostics.len() as int) =~= d);
    count
}

/// Every diagnostic is an error or a warning, so the two counts add up to the number of
/// diagnostics; and there is no error exactly when the error count is zero.
pub proof fn law_severity_counts(d: Seq<DiagnosticView>)
    ensures
        severity_count(d, Severity::Error) + severity_count(d, Severity::Warning) == d.len(),
        severity_count(d, Severity::Error) == 0 <==> !has_error(d),
    decreases d.len(),
{
    if d.len() > 0 {
        let p = d.drop_last();
        law_severity_counts(p);
        if has_error(p) {
            let i = choose|i: int| 0 <= i < p.len() && (#[trigger] p[i]).severity == Severity::Error;
            assert(d[i] == p[i]);
        }
        if has_error(d) && d.last().severity != Severity::Error {
            let i = choose|i: int| 0 <= i < d.len() && (#[trigger] d[i]).severity == Severity::Error;
            assert(p[i] == d[i]);
        }
        if d.last().severity == Severity::Error {
            assert(d[d.len() - 1] == d.last());
        }
    }
}

impl ValidationOutcome {
    /// Validated catalog, available only when there are no error diagnostics.
    pub fn catalog(&self) -> (r: Option<&Catalog>)
        ensures
            r matches Some(c) ==> self@.catalog == Some(c@),
            r is None ==> self@.catalog is None,
    {
        match &self.catalog {
            Some(c) => Some(c),
            None => None,
        }
    }

    /// All diagnostics in deterministic source order.
    pub fn diagnostics(&self) -> (r: &[Diagnostic])
        ensures
            diagnostic_views(r@) == self@.diagnostics,
    {
        self.diagnostics.as_slice()
    }

    /// Number of validation errors.
    pub fn error_count(&self) -> (r: usize)
        ensures
            r as int == severity_count(self@.diagnostics, Severity::Error),
    {
        count_severity(&self.diagnostics, Severity::Error)
    }

    /// Number of non-fatal warnings.
    pub fn warning_count(&self) -> (r: usize)
        ensures
            r as int == severity_count(self@.diagnostics, Severity::Warning),
    {
        count_severity(&self.diagnostics, Severity::Warning)
    }

    /// Consume the outcome and return the catalog or a summarized validation error.
    pub fn into_catalog(self) -> (r: Result<Catalog, Error>)
        ensures
            r matches Ok(c) ==> self@.catalog == Some(c@),
            r is Err <==> self@.catalog is None,
            r matches Err(e) ==> e matches Error::ValidationFailed { errors } && errors as int
                == severity_count(self@.diagnostics, Severity::Error),
    {
        let errors = self.error_count();
        match self.catalog {
            Some(catalog) => Ok(catalog),
            None => Err(Error::ValidationFailed { errors }),
        }
    }
}

} // verus!
