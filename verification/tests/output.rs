use process_rules::output::{render_mihomo, sha256_hex};
use process_rules::platform::ProcessName;

type TestResult<T = ()> = Result<T, Box<dyn std::error::Error>>;

#[test]
fn renders_classical_text() -> TestResult {
    let names = ["Alpha.exe", "it's-fine"]
        .into_iter()
        .map(ProcessName::parse)
        .collect::<Result<Vec<_>, _>>()?;
    assert_eq!(
        render_mihomo(&names),
        "PROCESS-NAME,Alpha.exe\nPROCESS-NAME,it's-fine\n"
    );
    Ok(())
}

#[test]
fn empty_collection_is_an_empty_list() {
    assert!(render_mihomo(&[]).is_empty());
}

#[test]
fn sha256_is_lowercase_hex_of_the_digest() {
    assert_eq!(
        sha256_hex(b""),
        "e3b0c44298fc1c149afbf4c8996fb92427ae41e4649b934ca495991b7852b855"
    );
    assert_eq!(
        sha256_hex(b"abc"),
        "ba7816bf8f01cfea414140de5dae2223b00361a396177a9cb410ff61f20015ad"
    );
    assert_eq!(
        sha256_hex("PROCESS-NAME,demo\n".as_bytes()).len(),
        64
    );
}
