use tomb::error::TombError;
use tomb::id::{accept_draw, resolve_prefix};

#[test]
fn exact_match_resolves() {
    assert_eq!(resolve_prefix("t3k9", &["a1b2", "t3k9"]).unwrap(), "t3k9");
}

#[test]
fn unique_prefix_resolves() {
    assert_eq!(resolve_prefix("t3", &["a1b2", "t3k9"]).unwrap(), "t3k9");
}

#[test]
fn ambiguous_prefix_reports_matches() {
    let err = resolve_prefix("a1", &["a1b2", "a1c3", "t3k9"]).unwrap_err();
    assert!(
        matches!(err, TombError::AmbiguousId { ref prefix, ref matches } if prefix == "a1" && matches == &["a1b2".to_string(), "a1c3".to_string()])
    );
}

#[test]
fn missing_prefix_returns_not_found() {
    let err = resolve_prefix("xyz", &["a1b2", "t3k9"]).unwrap_err();
    assert!(matches!(err, TombError::IdNotFound(ref p) if p == "xyz"));
}

#[test]
fn exact_match_wins_when_prefix_of_longer_ids() {
    // Without the exact-first check this would be AmbiguousId.
    assert_eq!(resolve_prefix("t3k9", &["t3k9", "t3k9x"]).unwrap(), "t3k9");
}

#[test]
fn ambiguous_matches_come_out_sorted() {
    let err = resolve_prefix("b", &["bz", "ba", "bm"]).unwrap_err();
    assert!(
        matches!(err, TombError::AmbiguousId { ref matches, .. } if matches == &["ba".to_string(), "bm".to_string(), "bz".to_string()])
    );
}

use rand::rngs::StdRng;
use rand::SeedableRng;
use tomb::id::{assign_missing_ids, collect_ids, find_duplicates, generate_id, repair_duplicates};
use tomb::parser::parse_managed_file;

fn distinct_count(ids: &[String]) -> usize {
    let mut seen: Vec<&String> = Vec::new();
    for id in ids {
        if !seen.contains(&id) {
            seen.push(id);
        }
    }
    seen.len()
}

#[test]
fn finds_ids_appearing_more_than_once() {
    let file = parse_managed_file(
        "## Today\n\n- [ ] First ^dup\n  - [ ] Inner duplicate ^dup\n- [ ] Another duplicate ^dup\n- [ ] Pair ^pair\n- [ ] Other pair ^pair\n- [ ] Unique ^uniq\n",
    )
    .unwrap();

    assert_eq!(
        find_duplicates(&file),
        vec![(String::from("dup"), 3), (String::from("pair"), 2)]
    );
}

#[test]
fn assigns_ids_to_tasks_missing_one_and_leaves_the_rest() {
    let mut file = parse_managed_file(
        "## Today\n\n- [ ] Keeps its id ^keep\n  - [ ] Nested without id\n- [ ] Sibling without id\n",
    )
    .unwrap();

    let assigned = assign_missing_ids(&mut file);

    let ids = collect_ids(&file);
    assert_eq!(assigned, 2);
    assert!(ids.contains(&String::from("keep")));
    assert_eq!(ids.len(), 3, "every task should now have an id");
    assert_eq!(distinct_count(&ids), 3, "assigned ids should be unique");
}

#[test]
fn collects_ids_depth_first_skipping_missing() {
    let file = parse_managed_file(
        "## Today\n\n- [ ] Parent ^p1\n  - [ ] Child ^c1\n    - [ ] Grandchild ^g1\n- [ ] Untracked task\n- [ ] Sibling ^s1\n\n## Backlog\n\n- [ ] Backlog task ^b1\n",
    )
    .unwrap();

    assert_eq!(collect_ids(&file), ["p1", "c1", "g1", "s1", "b1"]);
}

#[test]
fn test_generate_id() {
    let mut rng = StdRng::seed_from_u64(0);
    assert_eq!(generate_id(&mut rng, &Vec::new()), "zujx")
}

#[test]
fn test_generate_next_id_if_exists() {
    let mut rng = StdRng::seed_from_u64(0);
    assert_eq!(generate_id(&mut rng, &vec![String::from("zujx")]), "zBql")
}

#[test]
fn find_duplicates_returns_empty_when_all_ids_unique() {
    let file = parse_managed_file(
        "## Today\n\n- [ ] First ^a1b2\n- [ ] Second ^c3d4\n- [ ] Third ^e5f6\n",
    )
    .unwrap();

    assert!(find_duplicates(&file).is_empty());
}

#[test]
fn repair_keeps_first_occurrence_and_reassigns_subsequent_duplicates() {
    let mut file = parse_managed_file(
        "## Today\n\n- [ ] First ^dup\n  - [ ] Inner duplicate ^dup\n- [ ] Another duplicate ^dup\n- [ ] Unique ^uniq\n",
    )
    .unwrap();

    let reassigned = repair_duplicates(&mut file);
    let ids = collect_ids(&file);

    assert_eq!(reassigned, 2);
    assert_eq!(ids[0], "dup", "first occurrence kept");
    assert!(ids.contains(&String::from("uniq")), "non-duplicate ids untouched");
    assert_eq!(distinct_count(&ids), ids.len(), "all ids now unique");
}

#[test]
fn generated_ids_are_four_ascii_alphanumerics() {
    let mut rng = StdRng::seed_from_u64(7);
    let existing: Vec<String> = Vec::new();
    for _ in 0..50 {
        let id = generate_id(&mut rng, &existing);
        assert_eq!(id.chars().count(), 4);
        assert!(id.chars().all(|c| c.is_ascii_alphanumeric()));
    }
}

#[test]
fn assign_changes_nothing_when_every_task_has_an_id() {
    let source = "## Today\n\n- [ ] One ^a\n  - [ ] Two ^b\n";
    let mut file = parse_managed_file(source).unwrap();
    assert_eq!(assign_missing_ids(&mut file), 0);
    assert_eq!(collect_ids(&file), ["a", "b"]);
}

#[test]
fn repair_twice_changes_nothing_the_second_time() {
    let mut file =
        parse_managed_file("## Today\n\n- [ ] A ^x\n- [ ] B ^x\n  - [ ] C ^x\n- [ ] D\n").unwrap();
    assert_eq!(repair_duplicates(&mut file), 2);
    let once = collect_ids(&file);
    assert_eq!(repair_duplicates(&mut file), 0);
    assert_eq!(collect_ids(&file), once);
    assert_eq!(once.len(), 3);
    assert_eq!(distinct_count(&once), 3);
    assert!(find_duplicates(&file).is_empty());
}

#[test]
fn collect_ids_of_empty_file_is_empty() {
    let file = parse_managed_file("").unwrap();
    assert!(collect_ids(&file).is_empty());
    assert!(find_duplicates(&file).is_empty());
}

#[test]
fn a_draw_is_kept_only_when_free() {
    let existing = vec![String::from("ab12"), String::from("zz99")];
    assert_eq!(accept_draw(&existing, String::from("ab12")), None);
    assert_eq!(accept_draw(&existing, String::from("cd34")), Some(String::from("cd34")));
    assert_eq!(accept_draw(&vec![], String::from("zz99")), Some(String::from("zz99")));
}
