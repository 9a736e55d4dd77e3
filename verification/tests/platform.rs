use process_rules::platform::{
    Platform, PlatformNameStatus, PlatformSelection, ProcessName, is_valid_android_package,
};

#[test]
fn rejects_unsafe_process_names() {
    assert!(ProcessName::parse("directory/program").is_err());
    assert!(ProcessName::parse("first\u{2028}second").is_err());
    assert!(ProcessName::parse("valid process").is_ok());
    assert!(ProcessName::parse("*.exe").is_err());
}

#[test]
fn glob_and_regex_patterns_are_not_process_names() {
    let message = Some("process name must be an exact name, not a glob or regular expression");
    for pattern in ["*.exe", "app?.exe", "[ab]pp", "a{2}", "^app$", "one|two"] {
        assert_eq!(ProcessName::parse(pattern).err().as_deref(), message, "{pattern}");
    }
    assert_eq!(
        ProcessName::parse("a*\u{7}b").err().as_deref(),
        Some("process name must not contain control characters or line separators")
    );
    assert!(ProcessName::parse("Notepad++.exe").is_ok());
    assert!(ProcessName::parse("Program (x86).exe").is_ok());
    assert!(ProcessName::parse("com.example.app").is_ok());
}

#[test]
fn validates_android_package_segments() {
    assert!(is_valid_android_package("com.example.app_2"));
    assert!(is_valid_android_package("com.115.android"));
    assert!(!is_valid_android_package("example"));
    assert!(!is_valid_android_package("com.example-app"));
}

#[test]
fn process_name_errors_name_the_first_problem() {
    assert_eq!(ProcessName::parse("").err().as_deref(), Some("process name must not be empty"));
    assert_eq!(
        ProcessName::parse(" padded").err().as_deref(),
        Some("process name must not start or end with whitespace")
    );
    assert_eq!(
        ProcessName::parse("a,b").err().as_deref(),
        Some("process name must not contain a comma because Mihomo uses commas as field separators")
    );
    assert_eq!(
        ProcessName::parse("dir\\program.exe").err().as_deref(),
        Some("process name must be a basename, not a path")
    );
    assert_eq!(
        ProcessName::parse("tab\tname").err().as_deref(),
        Some("process name must not contain control characters or line separators")
    );
    assert_eq!(ProcessName::parse("Äpfel.exe").map(|n| n.as_str().to_owned()), Ok("Äpfel.exe".to_owned()));
}

#[test]
fn android_packages_need_two_alphanumeric_led_segments() {
    assert!(is_valid_android_package("a.b"));
    assert!(!is_valid_android_package("a..b"));
    assert!(!is_valid_android_package(".a.b"));
    assert!(!is_valid_android_package("a.b."));
    assert!(!is_valid_android_package("a._b"));
    assert!(!is_valid_android_package("é.b"));
    assert!(!is_valid_android_package(""));
}

#[test]
fn platform_names_round_trip() {
    for platform in Platform::all() {
        assert_eq!(Platform::parse(platform.as_str()), Ok(platform));
        assert_eq!(platform.as_str().parse::<Platform>(), Ok(platform));
    }
    assert_eq!(
        Platform::all().iter().map(|p| p.as_str()).collect::<Vec<_>>(),
        vec!["windows", "android", "linux", "macos"]
    );
    assert!(Platform::parse("Windows").is_err());
    for selection in PlatformSelection::all() {
        assert_eq!(PlatformSelection::parse(selection.as_str()), Ok(selection));
    }
    assert_eq!(PlatformSelection::parse("all"), Ok(PlatformSelection::All));
    assert_eq!(
        PlatformSelection::parse("ios").err().as_deref(),
        Some("expected windows, android, linux, macos, or all")
    );
    assert_eq!(PlatformSelection::All.platforms(), Platform::all());
    assert_eq!(PlatformSelection::Platform(Platform::Linux).platforms(), vec![Platform::Linux]);
}

#[test]
fn platform_rules_warn_or_reject_suspicious_names() -> Result<(), String> {
    let helper = ProcessName::parse("helper")?;
    let exe = ProcessName::parse("Helper.EXE")?;
    let package = ProcessName::parse("com.example.app")?;
    assert!(matches!(Platform::Windows.check_name(&exe), PlatformNameStatus::Valid));
    assert!(matches!(
        Platform::Windows.check_name(&helper),
        PlatformNameStatus::Warning { code: "windows-missing-exe", .. }
    ));
    assert!(matches!(Platform::Android.check_name(&package), PlatformNameStatus::Valid));
    assert!(matches!(
        Platform::Android.check_name(&helper),
        PlatformNameStatus::Error { code: "invalid-android-package", .. }
    ));
    assert!(matches!(Platform::Linux.check_name(&exe), PlatformNameStatus::Valid));
    assert!(matches!(Platform::Macos.check_name(&helper), PlatformNameStatus::Valid));
    Ok(())
}
