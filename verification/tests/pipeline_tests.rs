use colabnet::aggregate::aggregate;
use colabnet::codec::{read_snapshot, write_snapshot};
use colabnet::parse::parse_log;

const LOG: &str = "commit 1111
Author: Alice <alice@example.com>
Date: some day

    first change

 a.rs | 10 ++++++++++
 b.rs | 4 ++--
commit 2222
Author: Bob <bob@example.com>

 a.rs | 30 +++++++
commit 3333
Author: Alice <alice@example.com>
";

fn alice() -> String {
    "Alice <alice@example.com>".to_string()
}

fn bob() -> String {
    "Bob <bob@example.com>".to_string()
}

#[test]
fn parse_and_aggregate_builds_the_two_graphs() {
    let events = parse_log(LOG);
    let db = aggregate(&events);
    assert_eq!(db.find_file("a.rs"), Some(0));
    assert_eq!(db.find_file("b.rs"), Some(1));
    assert_eq!(db.find_author(&alice()), Some(0));
    assert_eq!(db.find_author(&bob()), Some(1));
    assert_eq!(db.get_author(0), Some(alice().as_str()));
    assert_eq!(db.get_file(1), Some("b.rs"));
    assert_eq!(db.get_file(7), None);

    let a = alice();
    let b = bob();
    let owners = db.authors_of_file("a.rs").unwrap();
    assert_eq!(owners, vec![(a.as_str(), 10u32), (b.as_str(), 30u32)]);
    let owners_b = db.authors_of_file("b.rs").unwrap();
    assert_eq!(owners_b.len(), 1);
    assert_eq!(owners_b[0].1, 4);

    // commit group {a.rs, b.rs} closed by the second commit line, {a.rs} by
    // the third; the trailing group of the last commit is never closed.
    let cousins = db.files_correlated("a.rs").unwrap();
    assert_eq!(cousins, vec![("a.rs", 2u32), ("b.rs", 1u32)]);
    let cousins_b = db.files_correlated("b.rs").unwrap();
    assert_eq!(cousins_b, vec![("a.rs", 1u32), ("b.rs", 1u32)]);
}

#[test]
fn snapshot_text_is_the_expected_format() {
    let events = parse_log(LOG);
    let db = aggregate(&events);
    let text = write_snapshot(&db);
    let expected = "Alice <alice@example.com>\nBob <bob@example.com>\n\na.rs\nb.rs\n\n0 0 10\n0 1 30\n1 0 4\n\n0 0 2\n0 1 1\n1 1 1\n";
    assert_eq!(text, expected);
}

#[test]
fn round_trip_reproduces_the_edges() {
    let events = parse_log(LOG);
    let db = aggregate(&events);
    let text = write_snapshot(&db);
    let (db2, skipped) = read_snapshot(&text, true);
    assert_eq!(skipped, 0);
    assert_eq!(db2.authors_of_file("a.rs").unwrap(), db.authors_of_file("a.rs").unwrap());
    assert_eq!(db2.authors_of_file("b.rs").unwrap(), db.authors_of_file("b.rs").unwrap());
    assert_eq!(db2.files_correlated("a.rs").unwrap(), db.files_correlated("a.rs").unwrap());
    assert_eq!(db2.files_correlated("b.rs").unwrap(), db.files_correlated("b.rs").unwrap());
    assert_eq!(db2.find_author(&alice()), Some(0));
    // writing the reloaded database gives the same text again
    assert_eq!(write_snapshot(&db2), text);
}

#[test]
fn aggregation_is_deterministic_across_runs() {
    let db1 = aggregate(&parse_log(LOG));
    let db2 = aggregate(&parse_log(LOG));
    let t1 = write_snapshot(&db1);
    let t2 = write_snapshot(&db2);
    assert_eq!(t1, t2);
}

#[test]
fn owners_ranking_puts_heavier_author_first() {
    let events = parse_log(LOG);
    let db = aggregate(&events);
    // Alice has 10 changes to a.rs, Bob has 30: Bob ranks above Alice.
    let ranked = db.owners_ranked("a.rs").unwrap();
    assert_eq!(ranked[0], (bob().as_str(), 30u32));
    assert_eq!(ranked[1], (alice().as_str(), 10u32));
}

#[test]
fn empty_log_gives_empty_database() {
    let events = parse_log("");
    let db = aggregate(&events);
    assert_eq!(db.find_file("a.rs"), None);
    let text = write_snapshot(&db);
    assert_eq!(text, "\n\n\n");
    let (db2, skipped) = read_snapshot(&text, true);
    assert_eq!(skipped, 0);
    assert_eq!(db2.find_file("a.rs"), None);
}

#[test]
fn author_line_takes_text_after_first_colon() {
    let log = "commit 1\nAuthor: Carol Smith <c@x>\n\n f.rs | 3\ncommit 2\n";
    let db = aggregate(&parse_log(log));
    assert_eq!(db.find_author("Carol Smith <c@x>"), Some(0));
    let owners = db.authors_of_file("f.rs").unwrap();
    assert_eq!(owners, vec![("Carol Smith <c@x>", 3u32)]);
}

#[test]
fn unparsable_change_count_defaults_to_zero() {
    let log = "Author: A\n f.rs | Bin 123 -> 456 bytes\n g.rs | 7\n";
    let db = aggregate(&parse_log(log));
    // "Bin" does not parse, so the change count is 0; the edge still exists.
    let owners = db.authors_of_file("f.rs").unwrap();
    assert_eq!(owners, vec![("A", 0u32)]);
    let owners_g = db.authors_of_file("g.rs").unwrap();
    assert_eq!(owners_g, vec![("A", 7u32)]);
}

#[test]
fn rename_in_stat_line_is_normalized() {
    let log = "Author: A\n src/{old.rs => new.rs} | 5\ncommit x\n";
    let db = aggregate(&parse_log(log));
    assert_eq!(db.find_file("src/new.rs"), Some(0));
    assert_eq!(db.find_file("src/old.rs"), None);
}

#[test]
fn stat_line_splits_at_the_first_pipe() {
    // the file name is the trimmed text before the first `|`; the count
    // token comes from everything after it
    let log = " a|b | 5\ncommit x\n";
    let db = aggregate(&parse_log(log));
    assert_eq!(db.find_file("a"), Some(0));
    assert_eq!(db.find_file("a|b"), None);
    // "b" is not a number, so the change count defaults to 0; the change
    // stood before any Author line, so it is charged to the empty author
    let owners = db.authors_of_file("a").unwrap();
    assert_eq!(owners, vec![("", 0u32)]);
}

#[test]
fn indented_or_pipeless_lines_are_not_statistics() {
    let log = "Author: A\n  two.spaces | 5\n nopipe 5\nplain | 5\n f.rs | 5\n";
    let db = aggregate(&parse_log(log));
    assert_eq!(db.find_file("f.rs"), Some(0));
    assert_eq!(db.find_file("two.spaces"), None);
    assert_eq!(db.find_file("nopipe"), None);
    assert_eq!(db.find_file("plain"), None);
}
