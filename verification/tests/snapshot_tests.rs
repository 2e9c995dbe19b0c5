use colabnet::codec::read_snapshot;

// Sections: one author; files F, X, Y; no author edges; F co-changes with
// X 40 times and with Y 10 times.
const SNAP: &str = "alice\n\nF\nX\nY\n\n\n0 1 40\n0 2 10\n";

#[test]
fn cousins_percentages_are_against_the_maximum() {
    let (db, skipped) = read_snapshot(SNAP, true);
    assert_eq!(skipped, 0);
    let (max, rows) = db.cousins_report("F").unwrap();
    assert_eq!(max, 40);
    // X at 100.00%, Y at 25.00%, in hundredths of a percent.
    assert_eq!(rows, vec![("X", 40u32, 10000u32), ("Y", 10u32, 2500u32)]);
}

#[test]
fn cousins_report_excludes_the_self_edge() {
    let snap = "alice\n\nF\nX\n\n\n0 0 9\n0 1 3\n";
    let (db, _) = read_snapshot(snap, true);
    // the raw query still carries the persisted self-edge
    let raw = db.files_correlated("F").unwrap();
    assert_eq!(raw, vec![("F", 9u32), ("X", 3u32)]);
    // the report drops it and ranks against the remaining maximum
    let (max, rows) = db.cousins_report("F").unwrap();
    assert_eq!(max, 3);
    assert_eq!(rows, vec![("X", 3u32, 10000u32)]);
}

#[test]
fn absent_file_gives_empty_results_not_errors() {
    let (db, _) = read_snapshot(SNAP, true);
    assert_eq!(db.find_file("nope"), None);
    assert!(db.authors_of_file("nope").is_none());
    assert!(db.files_correlated("nope").is_none());
    assert!(db.cousins_report("nope").is_none());
    assert!(db.owners_ranked("nope").is_none());
    // found file with no co-change rows is also no error
    assert!(db.files_correlated("X").is_some());
    assert!(db.cousins_report("Y").is_some());
}

#[test]
fn skipping_file_file_ingestion_keeps_owners_and_drops_cousins() {
    let snap = "alice\nbob\n\nF\nX\n\n0 0 5\n0 1 7\n1 0 2\n\n0 1 4\n";
    let (full, s1) = read_snapshot(snap, true);
    let (fast, s2) = read_snapshot(snap, false);
    assert_eq!(s1, 0);
    assert_eq!(s2, 0);
    assert_eq!(fast.authors_of_file("F").unwrap(), full.authors_of_file("F").unwrap());
    assert_eq!(fast.owners_ranked("F").unwrap(), vec![("bob", 7u32), ("alice", 5u32)]);
    assert!(full.files_correlated("F").is_some());
    assert!(fast.files_correlated("F").is_none());
    assert!(fast.cousins_report("F").is_none());
}

#[test]
fn malformed_snapshot_lines_are_skipped_and_counted() {
    let snap = "alice\n\nF\n\nnot numbers\n0 0\n0 0 99x\n0 0 5\n9 0 1\n0 9 1\n\n0 0 zz\n0 0\n0 0 1 1\n0 0 3\n";
    let (db, skipped) = read_snapshot(snap, true);
    // bad token counts, unparsable numbers and out-of-range ids all skip
    assert_eq!(skipped, 8);
    assert_eq!(db.authors_of_file("F").unwrap(), vec![("alice", 5u32)]);
    assert_eq!(db.files_correlated("F").unwrap(), vec![("F", 3u32)]);
}

#[test]
fn name_line_breaking_sort_order_is_skipped() {
    let snap = "bob\nalice\n\nF\n\n0 0 1\n";
    let (db, skipped) = read_snapshot(snap, true);
    assert_eq!(skipped, 1);
    assert_eq!(db.find_author("bob"), Some(0));
    assert_eq!(db.find_author("alice"), None);
}

#[test]
fn numeric_bounds_of_the_edge_parser() {
    // u32::MAX parses; one more does not and the line is dropped
    let snap = "a\n\nF\n\n0 0 4294967295\n0 0 4294967296\n";
    let (db, skipped) = read_snapshot(snap, true);
    assert_eq!(skipped, 1);
    assert_eq!(db.authors_of_file("F").unwrap(), vec![("a", 4294967295u32)]);
}

#[test]
fn later_duplicate_edge_overwrites_earlier() {
    let snap = "a\n\nF\n\n0 0 1\n0 0 2\n\n0 0 3\n0 0 4\n";
    let (db, skipped) = read_snapshot(snap, true);
    assert_eq!(skipped, 0);
    assert_eq!(db.authors_of_file("F").unwrap(), vec![("a", 2u32)]);
    assert_eq!(db.files_correlated("F").unwrap(), vec![("F", 4u32)]);
}

#[test]
fn name_lines_are_trimmed_on_load() {
    let snap = "  alice  \n\n  F  \n\n0 0 1\n";
    let (db, skipped) = read_snapshot(snap, true);
    assert_eq!(skipped, 0);
    assert_eq!(db.find_author("alice"), Some(0));
    assert_eq!(db.find_file("F"), Some(0));
}
