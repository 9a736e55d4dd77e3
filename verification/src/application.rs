//! Application identifiers and validated application aggregates.

use vstd::prelude::*;

use crate::platform::{Platform, ProcessName};
use crate::region::{RegionSet, RegionSetView};
use crate::text::chars_of;

verus! {

/// Current source format version.
pub const SCHEMA_VERSION: u32 = 1;

/// ASCII lowercase letter or digit.
pub open spec fn is_slug_edge_char(c: char) -> bool {
    ('a' <= c && c <= 'z') || ('0' <= c && c <= '9')
}

/// ASCII lowercase letter, digit, or hyphen.
pub open spec fn is_slug_char(c: char) -> bool {
    is_slug_edge_char(c) || c == '-'
}

/// Whether two hyphens follow one another somewhere in `s`.
pub open spec fn has_double_hyphen(s: Seq<char>) -> bool {
    exists|i: int| 0 <= i < s.len() - 1 && #[trigger] s[i] == '-' && s[i + 1] == '-'
}

/// Why an application ID (or category name) is rejected, if it is.
pub open spec fn app_id_problem(s: Seq<char>) -> Option<Seq<char>> {
    if s.len() == 0 {
        Some("application ID must not be empty"@)
    } else if !(forall|i: int| 0 <= i < s.len() ==> is_slug_char(#[trigger] s[i])) {
        Some("application ID must contain only ASCII lowercase letters, digits, and hyphens"@)
    } else if !is_slug_edge_char(s[0]) {
        Some("application ID must start with a lowercase letter or digit"@)
    } else if !is_slug_edge_char(s[s.len() - 1]) {
        Some("application ID must end with a lowercase letter or digit"@)
    } else if has_double_hyphen(s) {
        Some("application ID must not contain consecutive hyphens"@)
    } else {
        None
    }
}

/// The shape of an application ID: a non-empty run of ASCII lowercase letters and digits, in
/// which single hyphens may separate such runs. A letter or a digit may stand anywhere,
/// first and last places included; a hyphen only between two non-hyphens.
pub proof fn law_application_id_shape(s: Seq<char>)
    ensures
        app_id_problem(s) is None <==> (s.len() > 0 && forall|i: int|
            0 <= i < s.len() ==> (('a' <= #[trigger] s[i] && s[i] <= 'z') || ('0' <= s[i] && s[i]
                <= '9') || (s[i] == '-' && 0 < i < s.len() - 1 && s[i - 1] != '-' && s[i + 1]
                != '-'))),
{
    let shaped = s.len() > 0 && forall|i: int|
        0 <= i < s.len() ==> (('a' <= #[trigger] s[i] && s[i] <= 'z') || ('0' <= s[i] && s[i]
            <= '9') || (s[i] == '-' && 0 < i < s.len() - 1 && s[i - 1] != '-' && s[i + 1]
            != '-'));
    if app_id_problem(s) is None {
        assert forall|i: int| 0 <= i < s.len() implies (('a' <= #[trigger] s[i] && s[i] <= 'z') || (
        '0' <= s[i] && s[i] <= '9') || (s[i] == '-' && 0 < i < s.len() - 1 && s[i - 1] != '-'
            && s[i + 1] != '-')) by {
            assert(is_slug_char(s[i]));
            if s[i] == '-' {
                assert(i != 0 && i != s.len() - 1);
                assert(is_slug_char(s[i - 1]));
                if s[i - 1] == '-' {
                    assert(s[i - 1] == '-' && s[i] == '-');
                    assert(has_double_hyphen(s));
                }
                if s[i + 1] == '-' {
                    assert(has_double_hyphen(s));
                }
            }
        }
    }
    if shaped {
        assert forall|i: int| 0 <= i < s.len() implies is_slug_char(#[trigger] s[i]) by {}
        assert(is_slug_edge_char(s[0])) by {
            assert(s[0] != '-' || !(0 < 0int));
        }
        let n = s.len() - 1;
        assert(is_slug_edge_char(s[n]));
        if has_double_hyphen(s) {
            let i = choose|i: int| 0 <= i < s.len() - 1 && #[trigger] s[i] == '-' && s[i + 1] == '-';
            assert(s[i] == '-');
        }
    }
}

/// Stable, validated application identifier.
#[derive(Debug, PartialEq, Eq, PartialOrd, Ord, Hash)]
pub struct ApplicationId(String);

impl View for ApplicationId {
    type V = Seq<char>;

    closed spec fn view(&self) -> Seq<char> {
        self.0@
    }
}

impl Clone for ApplicationId {
    fn clone(&self) -> (r: ApplicationId)
        ensures
            r@ == self@,
    {
        proof {
            use_type_invariant(self);
        }
        ApplicationId(self.0.clone())
    }
}

fn slug_edge(c: char) -> (r: bool)
    ensures
        r == is_slug_edge_char(c),
{
    ('a' <= c && c <= 'z') || ('0' <= c && c <= '9')
}

impl ApplicationId {
    #[verifier::type_invariant]
    spec fn valid(self) -> bool {
        app_id_problem(self.0@) is None
    }

    /// Parse one stable application identifier.
    pub fn parse(value: &str) -> (r: Result<ApplicationId, String>)
        ensures
            r is Ok <==> app_id_problem(value@) is None,
            r matches Ok(id) ==> id@ == value@,
            r matches Err(e) ==> app_id_problem(value@) == Some(e@),
    {
        let v = chars_of(value);
        let n = v.len();
        if n == 0 {
            return Err("application ID must not be empty".to_owned());
        }
        let mut i: usize = 0;
        while i < n
            invariant
                n == v.len(),
                v@ == value@,
                i <= n,
                forall|j: int| 0 <= j < i ==> is_slug_char(#[trigger] v@[j]),
            decreases n - i,
        {
            if !(slug_edge(v[i]) || v[i] == '-') {
                assert(!is_slug_char(v@[i as int]));
                return Err(
                    "application ID must contain only ASCII lowercase letters, digits, and hyphens".to_owned(),
                );
            }
            i = i + 1;
        }
        if !slug_edge(v[0]) {
            return Err("application ID must start with a lowercase letter or digit".to_owned());
        }
        if !slug_edge(v[n - 1]) {
            return Err("application ID must end with a lowercase letter or digit".to_owned());
        }
        let mut k: usize = 0;
        while k + 1 < n
            invariant
                n == v.len(),
                v@ == value@,
                k + 1 <= n,
                forall|j: int| 0 <= j < n ==> is_slug_char(#[trigger] v@[j]),
                is_slug_edge_char(v@[0]),
                is_slug_edge_char(v@[n - 1]),
                forall|j: int| 0 <= j < k ==> !(#[trigger] v@[j] == '-' && v@[j + 1] == '-'),
            decreases n - k,
        {
            if v[k] == '-' && v[k + 1] == '-' {
                assert(has_double_hyphen(v@));
                return Err("application ID must not contain consecutive hyphens".to_owned());
            }
            k = k + 1;
        }
        Ok(ApplicationId(value.to_owned()))
    }

    /// The identifier text.
    pub fn as_str(&self) -> (r: &str)
        ensures
            r@ == self@,
            app_id_problem(r@) is None,
    {
        proof {
            use_type_invariant(self);
        }
        self.0.as_str()
    }

    /// The identifier text as an owned string.
    pub fn to_text(&self) -> (r: String)
        ensures
            r@ == self@,
    {
        self.0.clone()
    }
}

/// Exact process names per platform; a platform without names has an empty list.
#[derive(Debug, Clone)]
pub struct PlatformProcesses {
    pub(crate) windows: Vec<ProcessName>,
    pub(crate) android: Vec<ProcessName>,
    pub(crate) linux: Vec<ProcessName>,
    pub(crate) macos: Vec<ProcessName>,
}

/// The views of a sequence of process names.
pub open spec fn name_views(s: Seq<ProcessName>) -> Seq<Seq<char>> {
    s.map_values(|n: ProcessName| n@)
}

/// The plain content of [`PlatformProcesses`].
pub struct ProcessesView {
    pub windows: Seq<Seq<char>>,
    pub android: Seq<Seq<char>>,
    pub linux: Seq<Seq<char>>,
    pub macos: Seq<Seq<char>>,
}

/// The names recorded for one platform.
pub open spec fn platform_names(p: ProcessesView, platform: Platform) -> Seq<Seq<char>> {
    match platform {
        Platform::Windows => p.windows,
        Platform::Android => p.android,
        Platform::Linux => p.linux,
        Platform::Macos => p.macos,
    }
}

impl View for PlatformProcesses {
    type V = ProcessesView;

    closed spec fn view(&self) -> ProcessesView {
        ProcessesView {
            windows: name_views(self.windows@),
            android: name_views(self.android@),
            linux: name_views(self.linux@),
            macos: name_views(self.macos@),
        }
    }
}

impl PlatformProcesses {
    /// No names on any platform.
    pub fn new() -> (r: PlatformProcesses)
        ensures
            forall|p: Platform| platform_names(r@, p).len() == 0,
    {
        let r = PlatformProcesses {
            windows: Vec::new(),
            android: Vec::new(),
            linux: Vec::new(),
            macos: Vec::new(),
        };
        assert forall|p: Platform| platform_names(r@, p).len() == 0 by {
            match p {
                Platform::Windows => {},
                Platform::Android => {},
                Platform::Linux => {},
                Platform::Macos => {},
            }
        }
        r
    }

    /// The names of one platform.
    pub fn get(&self, platform: Platform) -> (r: &[ProcessName])
        ensures
            name_views(r@) == platform_names(self@, platform),
    {
        match platform {
            Platform::Windows => self.windows.as_slice(),
            Platform::Android => self.android.as_slice(),
            Platform::Linux => self.linux.as_slice(),
            Platform::Macos => self.macos.as_slice(),
        }
    }

    /// Record the names of one platform.
    pub fn set(&mut self, platform: Platform, names: Vec<ProcessName>)
        ensures
            platform_names(final(self)@, platform) == name_views(names@),
            forall|p: Platform|
                p != platform ==> platform_names(final(self)@, p) == platform_names(old(self)@, p),
    {
        match platform {
            Platform::Windows => self.windows = names,
            Platform::Android => self.android = names,
            Platform::Linux => self.linux = names,
            Platform::Macos => self.macos = names,
        }
    }
}

/// A fully validated application aggregate.
#[derive(Debug, Clone)]
pub struct Application {
    pub(crate) id: ApplicationId,
    pub(crate) display_name: Option<String>,
    pub(crate) category: String,
    pub(crate) source: String,
    pub(crate) regions: RegionSet,
    pub(crate) processes: PlatformProcesses,
}

/// The plain content of an [`Application`].
pub struct ApplicationView {
    pub id: Seq<char>,
    pub display_name: Option<Seq<char>>,
    pub category: Seq<char>,
    pub source: Seq<char>,
    pub regions: RegionSetView,
    pub processes: ProcessesView,
}

/// The view of an optional string.
pub open spec fn opt_view(o: Option<String>) -> Option<Seq<char>> {
    match o {
        Some(s) => Some(s@),
        None => None,
    }
}

impl View for Application {
    type V = ApplicationView;

    closed spec fn view(&self) -> ApplicationView {
        ApplicationView {
            id: self.id@,
            display_name: opt_view(self.display_name),
            category: self.category@,
            source: self.source@,
            regions: self.regions@,
            processes: self.processes@,
        }
    }
}

impl Application {
    /// Assemble a validated application.
    pub(crate) fn new(
        id: ApplicationId,
        display_name: Option<String>,
        category: String,
        source: String,
        regions: RegionSet,
        processes: PlatformProcesses,
    ) -> (r: Application)
        ensures
            r@ == (ApplicationView {
                id: id@,
                display_name: opt_view(display_name),
                category: category@,
                source: source@,
                regions: regions@,
                processes: processes@,
            }),
    {
        Application { id, display_name, category, source, regions, processes }
    }

    /// Stable application ID.
    pub fn id(&self) -> (r: &ApplicationId)
        ensures
            r@ == self@.id,
    {
        &self.id
    }

    /// Optional human-facing display name.
    pub fn display_name(&self) -> (r: Option<&str>)
        ensures
            r matches Some(s) ==> self@.display_name == Some(s@),
            r is None ==> self@.display_name is None,
    {
        match &self.display_name {
            Some(name) => Some(name.as_str()),
            None => None,
        }
    }

    /// Organizational source category derived from the rule file name.
    pub fn category(&self) -> (r: &str)
        ensures
            r@ == self@.category,
    {
        self.category.as_str()
    }

    /// Source file containing this application, as displayed in diagnostics.
    pub fn source(&self) -> (r: &str)
        ensures
            r@ == self@.source,
    {
        self.source.as_str()
    }

    /// Validated egress region set.
    pub fn regions(&self) -> (r: &RegionSet)
        ensures
            r@ == self@.regions,
    {
        &self.regions
    }

    /// Exact names for one concrete platform.
    pub fn processes(&self, platform: Platform) -> (r: &[ProcessName])
        ensures
            name_views(r@) == platform_names(self@.processes, platform),
    {
        self.processes.get(platform)
    }
}

} // verus!
