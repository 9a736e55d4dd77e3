//! Platforms, platform selections, and exact process names.

use vstd::prelude::*;

use crate::text::{
    chars_of, has_char, has_forbidden_char, has_forbidden_text_char, has_surrounding_space,
    has_surrounding_white_space, same_text,
};

verus! {

/// Platform whose process identifier syntax is represented by a source field.
#[derive(Debug, Clone, Copy, PartialEq, Eq, Structural, PartialOrd, Ord, Hash)]
pub enum Platform {
    /// Microsoft Windows executable basename.
    Windows,
    /// Android application package name.
    Android,
    /// Linux process basename.
    Linux,
    /// macOS executable basename.
    Macos,
}

/// Canonical name of a platform.
pub open spec fn platform_name(p: Platform) -> Seq<char> {
    match p {
        Platform::Windows => "windows"@,
        Platform::Android => "android"@,
        Platform::Linux => "linux"@,
        Platform::Macos => "macos"@,
    }
}

/// All platforms in stable output order.
pub open spec fn all_platforms() -> Seq<Platform> {
    seq![Platform::Windows, Platform::Android, Platform::Linux, Platform::Macos]
}

impl Platform {
    /// All supported concrete platforms in stable output order.
    pub const ALL: [Platform; 4] = [
        Platform::Windows,
        Platform::Android,
        Platform::Linux,
        Platform::Macos,
    ];

    /// All supported concrete platforms in stable output order.
    pub fn all() -> (r: Vec<Platform>)
        ensures
            r@ == all_platforms(),
    {
        let r = vec![Platform::Windows, Platform::Android, Platform::Linux, Platform::Macos];
        assert(r@ =~= all_platforms());
        r
    }

    /// Canonical CLI, source-field, and path name.
    pub fn as_str(self) -> (r: &'static str)
        ensures
            r@ == platform_name(self),
    {
        match self {
            Platform::Windows => "windows",
            Platform::Android => "android",
            Platform::Linux => "linux",
            Platform::Macos => "macos",
        }
    }

    /// Parse a canonical platform name.
    pub fn parse(value: &str) -> (r: Result<Platform, String>)
        ensures
            r matches Ok(p) ==> platform_name(p) == value@,
            r is Err <==> (forall|p: Platform| platform_name(p) != value@),
            r matches Err(e) ==> e@ == "expected windows, android, linux, or macos"@,
    {
        if same_text(value, "windows") {
            assert(platform_name(Platform::Windows) == value@);
            Ok(Platform::Windows)
        } else if same_text(value, "android") {
            assert(platform_name(Platform::Android) == value@);
            Ok(Platform::Android)
        } else if same_text(value, "linux") {
            assert(platform_name(Platform::Linux) == value@);
            Ok(Platform::Linux)
        } else if same_text(value, "macos") {
            assert(platform_name(Platform::Macos) == value@);
            Ok(Platform::Macos)
        } else {
            assert forall|p: Platform| platform_name(p) != value@ by {
                match p {
                    Platform::Windows => {},
                    Platform::Android => {},
                    Platform::Linux => {},
                    Platform::Macos => {},
                }
            }
            Err("expected windows, android, linux, or macos".to_owned())
        }
    }

    /// Classify `name` against this platform's identifier syntax.
    pub fn check_name(self, name: &ProcessName) -> (r: PlatformNameStatus)
        ensures
            r@ == name_status(self, name@),
    {
        match self {
            Platform::Android => {
                if !is_valid_android_package(name.as_str()) {
                    let mut message = "`".to_owned();
                    message.append(name.as_str());
                    message.append("` is not a valid Android package name");
                    PlatformNameStatus::Error { code: "invalid-android-package", message }
                } else {
                    PlatformNameStatus::Valid
                }
            },
            Platform::Windows => {
                let v = chars_of(name.as_str());
                if !has_exe_suffix_chars(&v) {
                    let mut message = "Windows process `".to_owned();
                    message.append(name.as_str());
                    message.append("` does not end in `.exe`");
                    PlatformNameStatus::Warning { code: "windows-missing-exe", message }
                } else {
                    PlatformNameStatus::Valid
                }
            },
            Platform::Linux | Platform::Macos => PlatformNameStatus::Valid,
        }
    }
}

impl core::str::FromStr for Platform {
    type Err = String;

    fn from_str(value: &str) -> (r: Result<Platform, String>)
        ensures
            r matches Ok(p) ==> platform_name(p) == value@,
            r is Err <==> (forall|p: Platform| platform_name(p) != value@),
            r matches Err(e) ==> e@ == "expected windows, android, linux, or macos"@,
    {
        Platform::parse(value)
    }
}

/// A concrete platform or a combined cross-platform view.
#[derive(Debug, Clone, Copy, PartialEq, Eq, Structural)]
pub enum PlatformSelection {
    /// One supported operating system.
    Platform(Platform),
    /// Union of all supported platforms.
    All,
}

/// Canonical name of a platform selection.
pub open spec fn selection_name(s: PlatformSelection) -> Seq<char> {
    match s {
        PlatformSelection::Platform(p) => platform_name(p),
        PlatformSelection::All => "all"@,
    }
}

/// The concrete platforms a selection covers, in stable order.
pub open spec fn selection_platforms(s: PlatformSelection) -> Seq<Platform> {
    match s {
        PlatformSelection::Platform(p) => seq![p],
        PlatformSelection::All => all_platforms(),
    }
}

/// Every platform selection in stable output order.
pub open spec fn all_selections() -> Seq<PlatformSelection> {
    seq![
        PlatformSelection::Platform(Platform::Windows),
        PlatformSelection::Platform(Platform::Android),
        PlatformSelection::Platform(Platform::Linux),
        PlatformSelection::Platform(Platform::Macos),
        PlatformSelection::All,
    ]
}

impl PlatformSelection {
    /// Every supported platform selection in stable output order.
    pub fn all() -> (r: Vec<PlatformSelection>)
        ensures
            r@ == all_selections(),
    {
        let r = vec![
            PlatformSelection::Platform(Platform::Windows),
            PlatformSelection::Platform(Platform::Android),
            PlatformSelection::Platform(Platform::Linux),
            PlatformSelection::Platform(Platform::Macos),
            PlatformSelection::All,
        ];
        assert(r@ =~= all_selections());
        r
    }

    /// Canonical CLI and artifact path name.
    pub fn as_str(self) -> (r: &'static str)
        ensures
            r@ == selection_name(self),
    {
        match self {
            PlatformSelection::Platform(platform) => platform.as_str(),
            PlatformSelection::All => "all",
        }
    }

    /// The concrete platforms this selection covers.
    pub fn platforms(self) -> (r: Vec<Platform>)
        ensures
            r@ == selection_platforms(self),
    {
        match self {
            PlatformSelection::Platform(platform) => {
                let r = vec![platform];
                assert(r@ =~= seq![platform]);
                r
            },
            PlatformSelection::All => Platform::all(),
        }
    }

    /// Parse a platform selection name.
    pub fn parse(value: &str) -> (r: Result<PlatformSelection, String>)
        ensures
            r matches Ok(s) ==> selection_name(s) == value@,
            r is Err <==> (forall|s: PlatformSelection| selection_name(s) != value@),
            r matches Err(e) ==> e@ == "expected windows, android, linux, macos, or all"@,
    {
        if same_text(value, "all") {
            assert(selection_name(PlatformSelection::All) == value@);
            Ok(PlatformSelection::All)
        } else {
            match Platform::parse(value) {
                Ok(p) => {
                    assert(selection_name(PlatformSelection::Platform(p)) == value@);
                    Ok(PlatformSelection::Platform(p))
                },
                Err(_) => {
                    assert forall|s: PlatformSelection| selection_name(s) != value@ by {
                        match s {
                            PlatformSelection::Platform(p) => {},
                            PlatformSelection::All => {},
                        }
                    }
                    Err("expected windows, android, linux, macos, or all".to_owned())
                },
            }
        }
    }
}

impl core::str::FromStr for PlatformSelection {
    type Err = String;

    fn from_str(value: &str) -> (r: Result<PlatformSelection, String>)
        ensures
            r matches Ok(s) ==> selection_name(s) == value@,
            r is Err <==> (forall|s: PlatformSelection| selection_name(s) != value@),
            r matches Err(e) ==> e@ == "expected windows, android, linux, macos, or all"@,
    {
        PlatformSelection::parse(value)
    }
}

/// Exact process name or Android package name accepted by the source schema.
#[derive(Debug, PartialEq, Eq, PartialOrd, Ord, Hash)]
pub struct ProcessName(String);

impl View for ProcessName {
    type V = Seq<char>;

    closed spec fn view(&self) -> Seq<char> {
        self.0@
    }
}

impl Clone for ProcessName {
    fn clone(&self) -> (r: ProcessName)
        ensures
            r@ == self@,
    {
        ProcessName(self.0.clone())
    }
}

/// A wildcard or operator of glob or regular-expression syntax: `*`, `?`, `[`, `]`, `{`, `}`,
/// `|`, `^`, and `$`. Characters that also occur in real names, such as `+`, `.`, `(` and `)`,
/// are not among them.
pub open spec fn is_pattern_char(c: char) -> bool {
    c == '*' || c == '?' || c == '[' || c == ']' || c == '{' || c == '}' || c == '|' || c == '^'
        || c == '$'
}

/// Whether `s` holds a pattern character.
pub open spec fn has_pattern_char(s: Seq<char>) -> bool {
    exists|i: int| 0 <= i < s.len() && is_pattern_char(#[trigger] s[i])
}

fn contains_pattern_char(v: &Vec<char>) -> (r: bool)
    ensures
        r == has_pattern_char(v@),
{
    let mut i: usize = 0;
    while i < v.len()
        invariant
            i <= v.len(),
            forall|j: int| 0 <= j < i ==> !is_pattern_char(#[trigger] v@[j]),
        decreases v.len() - i,
    {
        let c = v[i];
        if c == '*' || c == '?' || c == '[' || c == ']' || c == '{' || c == '}' || c == '|' || c
            == '^' || c == '$' {
            assert(is_pattern_char(v@[i as int]));
            return true;
        }
        i = i + 1;
    }
    false
}

/// Why a process name is rejected, if it is.
pub open spec fn process_name_problem(s: Seq<char>) -> Option<Seq<char>> {
    if s.len() == 0 {
        Some("process name must not be empty"@)
    } else if has_surrounding_white_space(s) {
        Some("process name must not start or end with whitespace"@)
    } else if s.contains(',') {
        Some(
            "process name must not contain a comma because Mihomo uses commas as field separators"@,
        )
    } else if s.contains('/') || s.contains('\\') {
        Some("process name must be a basename, not a path"@)
    } else if has_forbidden_text_char(s) {
        Some("process name must not contain control characters or line separators"@)
    } else if has_pattern_char(s) {
        Some("process name must be an exact name, not a glob or regular expression"@)
    } else {
        None
    }
}

impl ProcessName {
    /// Parse one exact process basename or Android package name.
    pub fn parse(value: &str) -> (r: Result<ProcessName, String>)
        ensures
            r is Ok <==> process_name_problem(value@) is None,
            r matches Ok(n) ==> n@ == value@,
            r matches Err(e) ==> process_name_problem(value@) == Some(e@),
    {
        let v = chars_of(value);
        if v.len() == 0 {
            return Err("process name must not be empty".to_owned());
        }
        if has_surrounding_space(&v) {
            return Err("process name must not start or end with whitespace".to_owned());
        }
        if has_char(&v, ',') {
            return Err(
                "process name must not contain a comma because Mihomo uses commas as field separators".to_owned(),
            );
        }
        if has_char(&v, '/') || has_char(&v, '\\') {
            return Err("process name must be a basename, not a path".to_owned());
        }
        if has_forbidden_char(&v) {
            return Err(
                "process name must not contain control characters or line separators".to_owned(),
            );
        }
        if contains_pattern_char(&v) {
            return Err(
                "process name must be an exact name, not a glob or regular expression".to_owned(),
            );
        }
        Ok(ProcessName(value.to_owned()))
    }

    /// Borrow the original, case-preserving process name.
    pub fn as_str(&self) -> (r: &str)
        ensures
            r@ == self@,
    {
        self.0.as_str()
    }
}

/// The outcome of checking a process name against one platform's syntax.
pub enum PlatformNameStatus {
    /// Acceptable as is.
    Valid,
    /// Suspicious but supported.
    Warning { code: &'static str, message: String },
    /// Invalid on this platform.
    Error { code: &'static str, message: String },
}

/// The plain content of a [`PlatformNameStatus`].
pub enum NameStatusView {
    Valid,
    Warning { code: Seq<char>, message: Seq<char> },
    Error { code: Seq<char>, message: Seq<char> },
}

impl View for PlatformNameStatus {
    type V = NameStatusView;

    open spec fn view(&self) -> NameStatusView {
        match self {
            PlatformNameStatus::Valid => NameStatusView::Valid,
            PlatformNameStatus::Warning { code, message } => NameStatusView::Warning {
                code: code@,
                message: message@,
            },
            PlatformNameStatus::Error { code, message } => NameStatusView::Error {
                code: code@,
                message: message@,
            },
        }
    }
}

/// What checking `name` against `platform` yields.
pub open spec fn name_status(platform: Platform, name: Seq<char>) -> NameStatusView {
    match platform {
        Platform::Android => if is_android_package(name) {
            NameStatusView::Valid
        } else {
            NameStatusView::Error {
                code: "invalid-android-package"@,
                message: "`"@ + name + "` is not a valid Android package name"@,
            }
        },
        Platform::Windows => if has_exe_suffix(name) {
            NameStatusView::Valid
        } else {
            NameStatusView::Warning {
                code: "windows-missing-exe"@,
                message: "Windows process `"@ + name + "` does not end in `.exe`"@,
            }
        },
        Platform::Linux | Platform::Macos => NameStatusView::Valid,
    }
}

/// ASCII letter or digit.
pub open spec fn is_ascii_alnum(c: char) -> bool {
    ('a' <= c && c <= 'z') || ('A' <= c && c <= 'Z') || ('0' <= c && c <= '9')
}

/// Whether `s`, split at every `.`, has at least two segments, each non-empty, starting with an
/// ASCII letter or digit, and otherwise made of ASCII letters, digits, and `_`.
///
/// Stated character by character: `s` starts with a letter or digit, contains a `.`, and every
/// character is a letter, a digit, `_`, or a `.` that is followed by a letter or digit.
pub open spec fn is_android_package(s: Seq<char>) -> bool {
    &&& s.len() > 0
    &&& is_ascii_alnum(s[0])
    &&& s.contains('.')
    &&& forall|i: int|
        0 <= i < s.len() ==> (is_ascii_alnum(#[trigger] s[i]) || s[i] == '_' || (s[i] == '.' && i
            + 1 < s.len() && is_ascii_alnum(s[i + 1])))
}

/// `c` with an ASCII uppercase letter turned into its lowercase letter.
pub open spec fn ascii_lower(c: char) -> char {
    if 'A' <= c && c <= 'Z' {
        ((c as int) + 32) as char
    } else {
        c
    }
}

/// Android package names ignore ASCII case: a name is valid exactly when its ASCII-lowercase
/// form is, and every ASCII letter, of either case, or digit can lead a segment.
pub proof fn law_android_package_ignores_ascii_case(s: Seq<char>, c: char)
    ensures
        is_android_package(s) == is_android_package(s.map_values(|x: char| ascii_lower(x))),
        (('a' <= c && c <= 'z') || ('A' <= c && c <= 'Z') || ('0' <= c && c <= '9'))
            <==> is_android_package(seq![c, '.', c]),
{
    let t = s.map_values(|x: char| ascii_lower(x));
    assert forall|x: char| #[trigger] is_ascii_alnum(ascii_lower(x)) == is_ascii_alnum(x) && (
    ascii_lower(x) == '_' <==> x == '_') && (ascii_lower(x) == '.' <==> x == '.') by {
        if 'A' <= x && x <= 'Z' {
            assert((ascii_lower(x) as int) == (x as int) + 32);
        }
    }
    assert(t.len() == s.len());
    assert forall|i: int| 0 <= i < s.len() implies #[trigger] t[i] == ascii_lower(s[i]) by {}
    if s.contains('.') {
        let k = choose|k: int| 0 <= k < s.len() && s[k] == '.';
        assert(t[k] == '.');
    }
    if t.contains('.') {
        let k = choose|k: int| 0 <= k < t.len() && t[k] == '.';
        assert(s[k] == '.');
    }
    if is_android_package(s) {
        assert forall|i: int| 0 <= i < t.len() implies (is_ascii_alnum(#[trigger] t[i]) || t[i] == '_'
            || (t[i] == '.' && i + 1 < t.len() && is_ascii_alnum(t[i + 1]))) by {
            assert(is_ascii_alnum(s[i]) || s[i] == '_' || (s[i] == '.' && i + 1 < s.len()
                && is_ascii_alnum(s[i + 1])));
            assert(is_ascii_alnum(ascii_lower(s[i])) == is_ascii_alnum(s[i]));
            if i + 1 < s.len() {
                assert(is_ascii_alnum(ascii_lower(s[i + 1])) == is_ascii_alnum(s[i + 1]));
            }
        }
        assert(is_ascii_alnum(ascii_lower(s[0])) == is_ascii_alnum(s[0]));
    }
    if is_android_package(t) {
        assert forall|i: int| 0 <= i < s.len() implies (is_ascii_alnum(#[trigger] s[i]) || s[i] == '_'
            || (s[i] == '.' && i + 1 < s.len() && is_ascii_alnum(s[i + 1]))) by {
            assert(is_ascii_alnum(t[i]) || t[i] == '_' || (t[i] == '.' && i + 1 < t.len()
                && is_ascii_alnum(t[i + 1])));
            assert(is_ascii_alnum(ascii_lower(s[i])) == is_ascii_alnum(s[i]));
            if i + 1 < s.len() {
                assert(is_ascii_alnum(ascii_lower(s[i + 1])) == is_ascii_alnum(s[i + 1]));
            }
        }
        assert(is_ascii_alnum(ascii_lower(s[0])) == is_ascii_alnum(s[0]));
    }
    let p = seq![c, '.', c];
    assert(p[1] == '.');
    assert(p.contains('.'));
}

/// Whether `s` ends in `.exe`, ignoring ASCII case.
pub open spec fn has_exe_suffix(s: Seq<char>) -> bool {
    let n = s.len();
    &&& n >= 4
    &&& s[n - 4] == '.'
    &&& (s[n - 3] == 'e' || s[n - 3] == 'E')
    &&& (s[n - 2] == 'x' || s[n - 2] == 'X')
    &&& (s[n - 1] == 'e' || s[n - 1] == 'E')
}

fn has_exe_suffix_chars(v: &Vec<char>) -> (r: bool)
    ensures
        r == has_exe_suffix(v@),
{
    let n = v.len();
    n >= 4 && v[n - 4] == '.' && (v[n - 3] == 'e' || v[n - 3] == 'E') && (v[n - 2] == 'x' || v[n
        - 2] == 'X') && (v[n - 1] == 'e' || v[n - 1] == 'E')
}

fn ascii_alnum(c: char) -> (r: bool)
    ensures
        r == is_ascii_alnum(c),
{
    ('a' <= c && c <= 'z') || ('A' <= c && c <= 'Z') || ('0' <= c && c <= '9')
}

/// Whether `value` is a dotted Android package name of at least two segments.
pub fn is_valid_android_package(value: &str) -> (r: bool)
    ensures
        r == is_android_package(value@),
{
    let v = chars_of(value);
    let n = v.len();
    if n == 0 || !ascii_alnum(v[0]) {
        return false;
    }
    let mut seen_dot = false;
    let mut i: usize = 0;
    while i < n
        invariant
            n == v.len(),
            v@ == value@,
            i <= n,
            seen_dot == v@.subrange(0, i as int).contains('.'),
            forall|j: int|
                0 <= j < i ==> (is_ascii_alnum(#[trigger] v@[j]) || v@[j] == '_' || (v@[j] == '.'
                    && j + 1 < n && is_ascii_alnum(v@[j + 1]))),
        decreases n - i,
    {
        let c = v[i];
        if c == '.' {
            if i + 1 >= n || !ascii_alnum(v[i + 1]) {
                assert(!(is_ascii_alnum(v@[i as int]) || v@[i as int] == '_' || (v@[i as int]
                    == '.' && i + 1 < v@.len() && is_ascii_alnum(v@[i + 1]))));
                assert(!is_android_package(v@));
                return false;
            }
            assert(v@.subrange(0, i + 1)[i as int] == '.');
            seen_dot = true;
        } else if !ascii_alnum(c) && c != '_' {
            assert(!(is_ascii_alnum(v@[i as int]) || v@[i as int] == '_' || (v@[i as int]
                == '.' && i + 1 < v@.len() && is_ascii_alnum(v@[i + 1]))));
            assert(!is_android_package(v@));
            return false;
        } else {
            assert(v@.subrange(0, i + 1) =~= v@.subrange(0, i as int).push(c));
        }
        i = i + 1;
    }
    assert(v@.subrange(0, n as int) =~= v@);
    seen_dot
}

} // verus!
