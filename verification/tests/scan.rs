use best_practices::cli::fs::{
    digest_content, DirEntry, EntryKind, TreeIndexBuilder, TreeList, TreeListBuilder, TreeWork,
};

/// A tree in memory: directories with their entries, files with their
/// content.
struct Tree {
    dirs: Vec<(&'static str, Vec<DirEntry>)>,
    files: Vec<(&'static str, &'static [u8])>,
}

fn entry(path: &str, kind: EntryKind, size: Option<u64>) -> DirEntry {
    DirEntry { path: path.to_string(), kind, size }
}

fn scan(tree: &Tree, fast: bool, max_size: Option<u64>) -> (TreeList, Vec<String>) {
    let mut builder = TreeListBuilder::new().fast(fast).path("root");
    if let Some(max) = max_size {
        builder = builder.max_size(max);
    }
    let mut scan = builder.build();
    let mut order = Vec::new();
    loop {
        match scan.next() {
            None => break,
            Some(TreeWork::Scan(dir)) => {
                order.push(format!("scan {}", dir));
                let (_, entries) =
                    tree.dirs.iter().find(|(path, _)| *path == dir).expect("a directory");
                scan.listed(entries);
            }
            Some(TreeWork::Digest(file)) => {
                order.push(format!("digest {}", file));
                let (_, content) =
                    tree.files.iter().find(|(path, _)| *path == file).expect("a file");
                let item = scan.digest(&file).build(Some(content)).unwrap();
                scan.digested(item);
            }
        }
    }
    (scan.finish(), order)
}

fn hello_tree() -> Tree {
    Tree {
        dirs: vec![(
            "root",
            vec![
                entry("root/a", EntryKind::File, Some(5)),
                entry("root/b", EntryKind::File, Some(5)),
                entry("root/c", EntryKind::File, Some(5)),
            ],
        )],
        files: vec![("root/a", b"hello"), ("root/b", b"hello"), ("root/c", b"world")],
    }
}

#[test]
fn scan_of_an_empty_directory() {
    let tree = Tree { dirs: vec![("root", vec![])], files: vec![] };
    let (list, order) = scan(&tree, false, None);
    assert!(list.list.is_empty());
    assert_eq!(order, vec!["scan root".to_string()]);
}

#[test]
fn scan_starts_at_the_root() {
    let mut scan = TreeListBuilder::new().path("some/root").build();
    match scan.next() {
        Some(TreeWork::Scan(dir)) => assert_eq!(dir, "some/root"),
        _ => panic!("expected the root"),
    }
    assert!(scan.next().is_none());
    assert!(scan.finish().list.is_empty());
}

#[test]
fn end_to_end_hello_hello_world() {
    let (list, _) = scan(&hello_tree(), false, None);
    assert_eq!(list.list.len(), 3);
    let index = TreeIndexBuilder::new().with_dupes(true).from_list(&list).build().unwrap();
    assert_eq!(index.len(), 2);
    let hello = index.get(&digest_content("", b"hello", false).digest).unwrap();
    assert_eq!(hello.item.size, 5);
    assert_eq!(hello.item.path, "root/a");
    assert_eq!(hello.dupes, vec!["root/b".to_string()]);
    let world = index.get(&digest_content("", b"world", false).digest).unwrap();
    assert_eq!(world.item.size, 5);
    assert_eq!(world.item.path, "root/c");
    assert!(world.dupes.is_empty());
    assert_eq!(index.count_dupes(), 1);
    assert_eq!(index.max(), 5);
}

#[test]
fn end_to_end_without_dupes() {
    let (list, _) = scan(&hello_tree(), true, None);
    let index = TreeIndexBuilder::new().with_dupes(false).from_list(&list).build().unwrap();
    assert_eq!(index.len(), 2);
    assert_eq!(index.count_dupes(), 0);
}

#[test]
fn scan_is_breadth_first() {
    let tree = Tree {
        dirs: vec![
            (
                "root",
                vec![
                    entry("root/d1", EntryKind::Dir, None),
                    entry("root/f1", EntryKind::File, Some(1)),
                    entry("root/d2", EntryKind::Dir, None),
                    entry("root/f2", EntryKind::File, Some(1)),
                ],
            ),
            (
                "root/d1",
                vec![
                    entry("root/d1/f3", EntryKind::File, Some(1)),
                    entry("root/d1/d3", EntryKind::Dir, None),
                ],
            ),
            ("root/d2", vec![entry("root/d2/f4", EntryKind::File, Some(1))]),
            ("root/d1/d3", vec![entry("root/d1/d3/f5", EntryKind::File, Some(1))]),
        ],
        files: vec![
            ("root/f1", b"1"),
            ("root/f2", b"2"),
            ("root/d1/f3", b"3"),
            ("root/d2/f4", b"4"),
            ("root/d1/d3/f5", b"5"),
        ],
    };
    let (list, order) = scan(&tree, false, None);
    assert_eq!(
        order,
        vec![
            "scan root",
            "scan root/d1",
            "digest root/f1",
            "scan root/d2",
            "digest root/f2",
            "digest root/d1/f3",
            "scan root/d1/d3",
            "digest root/d2/f4",
            "digest root/d1/d3/f5",
        ]
    );
    let paths: Vec<&str> = list.list.iter().map(|item| item.path.as_str()).collect();
    assert_eq!(
        paths,
        vec!["root/f1", "root/f2", "root/d1/f3", "root/d2/f4", "root/d1/d3/f5"]
    );
}

#[test]
fn scan_passes_over_large_files() {
    let tree = Tree {
        dirs: vec![(
            "root",
            vec![
                entry("root/small", EntryKind::File, Some(3)),
                entry("root/at_bound", EntryKind::File, Some(5)),
                entry("root/large", EntryKind::File, Some(6)),
            ],
        )],
        files: vec![("root/small", b"abc"), ("root/at_bound", b"hello"), ("root/large", b"larger")],
    };
    let (list, _) = scan(&tree, false, Some(5));
    let paths: Vec<&str> = list.list.iter().map(|item| item.path.as_str()).collect();
    assert_eq!(paths, vec!["root/small", "root/at_bound"]);
    let (all, _) = scan(&tree, false, None);
    assert_eq!(all.list.len(), 3);
}

#[test]
fn scan_counts_a_failed_lookup_as_size_zero() {
    let tree = Tree {
        dirs: vec![("root", vec![entry("root/unknown", EntryKind::File, None)])],
        files: vec![("root/unknown", b"content")],
    };
    let (list, _) = scan(&tree, false, Some(0));
    assert_eq!(list.list.len(), 1);
    assert_eq!(list.list[0].size, 7);
}

#[test]
fn scan_passes_over_what_is_neither_file_nor_directory() {
    let tree = Tree {
        dirs: vec![(
            "root",
            vec![
                entry("root/socket", EntryKind::Other, Some(0)),
                entry("root/f", EntryKind::File, Some(1)),
            ],
        )],
        files: vec![("root/f", b"f")],
    };
    let (list, order) = scan(&tree, false, None);
    assert_eq!(list.list.len(), 1);
    assert_eq!(order, vec!["scan root", "digest root/f"]);
}

#[test]
fn scan_digests_in_its_mode() {
    let big: &'static [u8] = Box::leak(vec![7u8; 1_048_576 * 2 + 5].into_boxed_slice());
    let tree = Tree {
        dirs: vec![("root", vec![entry("root/big", EntryKind::File, Some(big.len() as u64))])],
        files: vec![("root/big", big)],
    };
    let (fast, _) = scan(&tree, true, None);
    let (full, _) = scan(&tree, false, None);
    assert_eq!(fast.list[0].digest, digest_content("", big, true).digest);
    assert_eq!(full.list[0].digest, digest_content("", big, false).digest);
    assert_ne!(fast.list[0].digest, full.list[0].digest);
}

#[test]
fn kind_of_an_entry() {
    assert_eq!(EntryKind::of(true, false), EntryKind::Dir);
    assert_eq!(EntryKind::of(true, true), EntryKind::Dir);
    assert_eq!(EntryKind::of(false, true), EntryKind::File);
    assert_eq!(EntryKind::of(false, false), EntryKind::Other);
}
