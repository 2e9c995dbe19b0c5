use colabnet::normalize::normalize_fname;

#[test]
fn test_normalize_fname() {
    let nname = normalize_fname("/hello/{test => test1}/world.txt");
    assert_eq!(nname, "/hello/test1/world.txt");
    let nname = normalize_fname("test => test1");
    assert_eq!(nname, "test1");
}

#[test]
fn normalize_keeps_plain_path_unchanged() {
    assert_eq!(normalize_fname("src/main.rs"), "src/main.rs");
    assert_eq!(normalize_fname(""), "");
    assert_eq!(normalize_fname("a{b}c"), "a{b}c");
}

#[test]
fn normalize_brace_rename_keeps_surroundings() {
    assert_eq!(normalize_fname("/a/{old => new}/b.txt"), "/a/new/b.txt");
    assert_eq!(normalize_fname("{old => new}/b.txt"), "new/b.txt");
    assert_eq!(normalize_fname("dir/{a.rs => b.rs}"), "dir/b.rs");
}

#[test]
fn normalize_bare_rename_takes_new_name() {
    assert_eq!(normalize_fname("old => new"), "new");
    assert_eq!(normalize_fname("old=>new"), "new");
}
