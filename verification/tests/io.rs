use tomb::error::TombError;
use tomb::io::contents_to_write;
use tomb::parser::parse_managed_file;

const SAMPLE: &str = "---\ntomb_mode: managed\ntomb_version: 1\n---\n\n## Today\n\n- [ ] Write the parser ^a1b2\n";

#[test]
fn unchanged_source_gives_the_rendering() {
    let file = parse_managed_file(SAMPLE).unwrap();
    assert_eq!(contents_to_write("tasks.md", SAMPLE, SAMPLE, &file).unwrap(), SAMPLE);
}

#[test]
fn changed_source_is_a_conflict() {
    let file = parse_managed_file(SAMPLE).unwrap();
    let edited = format!("{SAMPLE}- [ ] Sneaky edit ^z9z9\n");
    let err = contents_to_write("tasks.md", SAMPLE, &edited, &file).unwrap_err();
    assert!(matches!(err, TombError::Conflict(ref m) if m == "Source content was changed in tasks.md"));
}
