use rranch::util::{
    combined_names, list_contains, longest_len, mark_diff, read_choice, truncate_to, Dependencies,
    Diff,
};

#[test]
fn truncation_keeps_short_entries_and_marks_cut_ones() {
    assert_eq!(truncate_to("short".to_string(), 10), "short");
    assert_eq!(truncate_to("abcdefgh".to_string(), 5), "ab...");
    assert_eq!(truncate_to("abc".to_string(), 3), "abc");
}

#[test]
fn answers_fold_case_and_fall_back_to_the_default() {
    assert_eq!(read_choice("", true), Some(true));
    assert_eq!(read_choice("", false), Some(false));
    assert_eq!(read_choice("y", false), Some(true));
    assert_eq!(read_choice("YES", false), Some(true));
    assert_eq!(read_choice("No", true), Some(false));
    assert_eq!(read_choice("N", true), Some(false));
    assert_eq!(read_choice("maybe", true), None);
}

#[test]
fn combined_names_sorts_and_appends_the_missing() {
    let pkgbs = vec!["gtk3".to_string(), "acl".to_string(), "zlib".to_string()];
    let pkgs = vec!["zlib".to_string(), "bash".to_string(), "bash".to_string()];
    let combined = combined_names(pkgbs, &pkgs);
    assert_eq!(
        combined,
        vec![
            "acl".to_string(),
            "gtk3".to_string(),
            "zlib".to_string(),
            "bash".to_string(),
        ]
    );
}

#[test]
fn membership_and_difference_marking() {
    let combined = vec!["a".to_string(), "b".to_string(), "c".to_string()];
    let pkgbs = vec!["a".to_string(), "b".to_string()];
    let pkgs = vec!["b".to_string(), "c".to_string()];
    assert!(list_contains(&pkgbs, "a"));
    assert!(!list_contains(&pkgbs, "c"));
    let marked = mark_diff(&combined, &pkgbs, &pkgs);
    assert_eq!(marked.len(), 3);
    assert!(marked[0].pkgb && !marked[0].pkg);
    assert!(marked[1].pkgb && marked[1].pkg);
    assert!(!marked[2].pkgb && marked[2].pkg);
    assert_eq!(marked[0].name, "a");
}

#[test]
fn fresh_diff_entries_start_unmarked() {
    let d = Diff::new("pkg".to_string());
    assert_eq!(d.name, "pkg");
    assert!(!d.pkg && !d.pkgb);
}

#[test]
fn dependency_lists_keep_their_parts() {
    let d = Dependencies::new(
        vec!["r".to_string()],
        vec!["b".to_string()],
        vec!["c".to_string()],
    );
    assert_eq!(d.runtime, vec!["r".to_string()]);
    assert_eq!(d.release, vec!["b".to_string()]);
    assert_eq!(d.cross, vec!["c".to_string()]);
}

#[test]
fn the_longest_entry_sets_the_column_width() {
    let v = vec!["ab".to_string(), "abcd".to_string(), "a".to_string()];
    assert_eq!(longest_len(&v), 4);
    assert_eq!(longest_len(&Vec::new()), 0);
}

#[test]
fn truncation_cuts_multibyte_entries_on_character_boundaries() {
    // the Greek letter is two bytes; the entry is 8 bytes long and both
    // cut indices (7 and 4) fall on character boundaries
    let entry = format!("a{}cdefg", '\u{3b2}');
    assert_eq!(entry.len(), 8);
    assert_eq!(truncate_to(entry, 7), format!("a{}c...", '\u{3b2}'));
}
