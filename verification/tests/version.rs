use tomb::version::{get_version_string, VersionInfo};

#[test]
fn version_format() {
    let info = VersionInfo {
        version: "0.1.0",
        short_hash: "abc123def",
        date: "2026-03-15",
    };
    assert_eq!(info.to_string(), "0.1.0 (abc123def 2026-03-15)");
}

#[test]
fn version_string_is_prefixed_with_program_name() {
    let info = VersionInfo {
        version: "0.1.0",
        short_hash: "abc123def",
        date: "2026-03-15",
    };
    assert_eq!(get_version_string(&info), "tomb 0.1.0 (abc123def 2026-03-15)");
}
