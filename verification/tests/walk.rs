use index_sync::regenerate_index::{is_excluded, walkdir, DirEntry, EntryKind};

fn file(name: &str) -> DirEntry {
    DirEntry { name: name.to_string(), kind: EntryKind::File }
}

fn dir(name: &str, children: Vec<DirEntry>) -> DirEntry {
    DirEntry { name: name.to_string(), kind: EntryKind::Directory(children) }
}

fn path(parts: &[&str]) -> Vec<String> {
    parts.iter().map(|p| p.to_string()).collect()
}

#[test]
fn hidden_names_and_the_config_file_are_excluded() {
    assert!(is_excluded(".git"));
    assert!(is_excluded("."));
    assert!(is_excluded(".hidden"));
    assert!(is_excluded("config.json"));
    assert!(!is_excluded(""));
    assert!(!is_excluded("config.json.bak"));
    assert!(!is_excluded("Config.json"));
    assert!(!is_excluded("serde"));
    assert!(!is_excluded("a.b"));
}

#[test]
fn walker_exclusion() {
    let tree = vec![
        file(".gitignore"),
        file("config.json"),
        dir(".git", vec![file("HEAD"), dir("objects", vec![file("pack")])]),
        dir(
            "se",
            vec![dir("rd", vec![file("serde"), file(".serde.swp"), file("config.json")])],
        ),
        dir("1", vec![file("a")]),
        file("README"),
    ];
    let mut files = Vec::new();
    walkdir(&tree, &Vec::new(), &mut files);
    assert_eq!(files, vec![path(&["se", "rd", "serde"]), path(&["1", "a"]), path(&["README"])]);
}

#[test]
fn walk_is_depth_first_in_listing_order() {
    let tree = vec![
        file("b"),
        dir("d", vec![file("y"), dir("e", vec![file("z")]), file("x")]),
        file("a"),
    ];
    let mut files = Vec::new();
    walkdir(&tree, &path(&["root"]), &mut files);
    assert_eq!(
        files,
        vec![
            path(&["root", "b"]),
            path(&["root", "d", "y"]),
            path(&["root", "d", "e", "z"]),
            path(&["root", "d", "x"]),
            path(&["root", "a"]),
        ]
    );
}

#[test]
fn walk_appends_to_what_is_there_and_skips_what_is_no_file() {
    let tree = vec![
        DirEntry { name: "socket".to_string(), kind: EntryKind::Other },
        dir("empty", vec![]),
        file("f"),
    ];
    let mut files = vec![path(&["earlier"])];
    walkdir(&tree, &Vec::new(), &mut files);
    assert_eq!(files, vec![path(&["earlier"]), path(&["f"])]);
}
