use archivindex_wbm::paths::{has_json_extension, json_files, Depth, Error, Node, Order};

fn file(path: &str) -> Node {
    Node::File { path: path.to_string(), modified: Some(0) }
}

fn modified(path: &str, modified: Option<i128>) -> Node {
    Node::File { path: path.to_string(), modified }
}

fn directory(entries: Vec<Node>) -> Node {
    Node::Directory { entries }
}

#[test]
fn a_recursive_walk_finds_nested_json_and_ignores_everything_else() {
    let root = directory(vec![
        file("root/top.json"),
        directory(vec![directory(vec![
            file("root/b/c/deep.json"),
            file("root/b/c/archive.zst"),
        ])]),
        directory(vec![directory(vec![
            file("root/a/data/one.json"),
            file("root/a/data/notes.txt"),
        ])]),
    ]);

    let found = json_files(&vec![root], Depth::Recursive, Order::Path).expect("walk succeeds");

    assert_eq!(
        found,
        vec![
            "root/a/data/one.json".to_string(),
            "root/b/c/deep.json".to_string(),
            "root/top.json".to_string(),
        ]
    );
}

#[test]
fn a_shallow_walk_stops_at_the_root() {
    let root = directory(vec![
        file("root/top.json"),
        directory(vec![file("root/nested/inner.json")]),
        Node::Unreadable { path: "root/locked".to_string() },
    ]);

    let found = json_files(&vec![root], Depth::Shallow, Order::Path).expect("walk succeeds");

    assert_eq!(found, vec!["root/top.json".to_string()]);
}

#[test]
fn a_root_naming_a_json_file_is_taken_directly() {
    let found = json_files(
        &vec![file("root/single.json"), file("root/ignored.txt")],
        Depth::Recursive,
        Order::Path,
    )
    .expect("walk succeeds");

    assert_eq!(found, vec!["root/single.json".to_string()]);
}

#[test]
fn newest_first_orders_by_modification_time() {
    let root = directory(vec![
        modified("root/old.json", Some(1_000)),
        modified("root/b.json", Some(2_000)),
        modified("root/new.json", Some(2_000)),
        modified("root/ignored.txt", None),
    ]);

    let found = json_files(&vec![root], Depth::Recursive, Order::NewestFirst).expect("walk succeeds");

    assert_eq!(
        found,
        vec![
            "root/b.json".to_string(),
            "root/new.json".to_string(),
            "root/old.json".to_string(),
        ]
    );
}

#[test]
fn several_roots_are_merged_into_one_ordering() {
    let found = json_files(
        &vec![
            directory(vec![file("root/second/a.json")]),
            directory(vec![file("root/first/b.json")]),
        ],
        Depth::Recursive,
        Order::Path,
    )
    .expect("walk succeeds");

    assert_eq!(found, vec!["root/first/b.json".to_string(), "root/second/a.json".to_string()]);
}

#[test]
fn a_missing_root_is_an_error() {
    let missing = Node::Unreadable { path: "root/absent".to_string() };

    assert_eq!(
        json_files(&vec![missing], Depth::Recursive, Order::Path),
        Err(Error::Unreadable { path: "root/absent".to_string() })
    );
    let special = Node::Other { path: "root/socket".to_string() };
    assert!(json_files(&vec![special], Depth::Recursive, Order::Path).is_err());
}

#[test]
fn collect_sorted_json_files_recurses_and_sorts() {
    let base = directory(vec![
        file("base/b.json"),
        directory(vec![file("base/nested/d.json")]),
        file("base/a.json"),
        // A non-JSON file that must not be collected.
        file("base/c.txt"),
    ]);

    let paths = json_files(&vec![base], Depth::Recursive, Order::Path).expect("collected paths");

    assert_eq!(
        paths,
        vec![
            "base/a.json".to_string(),
            "base/b.json".to_string(),
            "base/nested/d.json".to_string(),
        ]
    );
}

#[test]
fn an_unknown_modification_time_is_an_error_only_where_it_matters() {
    let roots = || vec![modified("a.json", None)];

    assert_eq!(
        json_files(&roots(), Depth::Shallow, Order::NewestFirst),
        Err(Error::UnknownModificationTime { path: "a.json".to_string() })
    );
    assert!(json_files(&roots(), Depth::Shallow, Order::Path).is_ok());
}

#[test]
fn paths_are_ordered_as_the_file_system_orders_them() {
    let paths = [
        "/a/b.json", "a/b.json", "a-b.json", "./a.json", "../z.json", "a//c.json", "a/./d.json",
        "a.json", "a/b-c.json", "A.json", "a/b/c.json",
    ];
    let mut expected = paths.iter().map(std::path::PathBuf::from).collect::<Vec<_>>();
    expected.sort();

    let roots = paths.iter().map(|path| file(path)).collect::<Vec<_>>();
    let found = json_files(&roots, Depth::Shallow, Order::Path).expect("walk succeeds");

    assert_eq!(found.iter().map(std::path::PathBuf::from).collect::<Vec<_>>(), expected);
}

#[test]
fn extensions_are_those_of_the_file_system() {
    for path in ["a.json", ".json", "a/..json", "a.JSON", "json", "a.json/", "x.json.zst", "a/.."] {
        assert_eq!(
            has_json_extension(path),
            std::path::Path::new(path).extension().is_some_and(|extension| extension == "json"),
            "{path}"
        );
    }
}
