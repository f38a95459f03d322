use best_practices::cli::fs::{
    format_size, unique_dirs, TreeIndex, TreeItem, TreeItemDupes, TreeList,
};

fn group(digest: &str, path: &str, size: u64, dupes: &[&str]) -> TreeItemDupes {
    let mut g = TreeItemDupes::new(digest, path, size);
    for d in dupes {
        g.push(d.to_string());
    }
    g
}

fn index_of(groups: Vec<TreeItemDupes>) -> TreeIndex {
    let mut index = TreeIndex::new();
    for g in groups {
        index.insert(g);
    }
    index
}

fn strings(paths: &[&str]) -> Vec<String> {
    paths.iter().map(|p| p.to_string()).collect()
}

#[test]
fn match_against_a_scanned_tree() {
    let mut index = index_of(vec![group("A", "a", 5, &[]), group("B", "b", 7, &[])]);
    let mut list = TreeList::default();
    list.list.push(TreeItem::new("A", "t/1", 5));
    list.list.push(TreeItem::new("C", "t/2", 5));
    list.list.push(TreeItem::new("A", "t/3", 5));
    list.list.push(TreeItem::new("B", "t/4", 7));
    index.match_list(&list);
    assert_eq!(index.len(), 2);
    assert_eq!(index.get("A").unwrap().dupes, strings(&["t/1", "t/3"]));
    assert_eq!(index.get("B").unwrap().dupes, strings(&["t/4"]));
    assert!(index.get("C").is_none());
}

#[test]
fn match_against_nothing() {
    let mut index = index_of(vec![group("A", "a", 5, &["x"])]);
    index.match_list(&TreeList::default());
    assert_eq!(index.get("A").unwrap().dupes, strings(&["x"]));
}

#[test]
fn find_needles_in_haystack() {
    let needle = index_of(vec![
        group("A", "n/a", 5, &[]),
        group("B", "n/b", 6, &[]),
        group("C", "n/c", 7, &[]),
    ]);
    let hay = index_of(vec![
        group("C", "h/c", 7, &[]),
        group("A", "h/a", 5, &["h/a2", "n/a", "h/a3"]),
        group("D", "h/d", 8, &["h/d2"]),
    ]);
    let out = needle.find(&hay);
    assert_eq!(out.len(), 2);
    let groups = out.groups();
    assert_eq!(groups[0].item.digest, "A");
    assert_eq!(groups[0].item.path, "n/a");
    assert_eq!(groups[0].dupes, strings(&["h/a", "h/a2", "h/a3"]));
    assert_eq!(groups[1].item.digest, "C");
    assert_eq!(groups[1].item.path, "n/c");
    assert_eq!(groups[1].dupes, strings(&["h/c"]));
}

#[test]
fn find_passes_over_the_needle_itself() {
    let needle = index_of(vec![group("A", "same", 5, &[])]);
    let hay = index_of(vec![group("A", "same", 5, &["other"])]);
    assert_eq!(needle.find(&hay).len(), 0);
}

#[test]
fn find_keeps_the_duplicates_of_the_needle() {
    let needle = index_of(vec![group("A", "n", 5, &["n2"])]);
    let hay = index_of(vec![group("A", "h", 5, &["h2"])]);
    let out = needle.find(&hay);
    assert_eq!(out.get("A").unwrap().dupes, strings(&["n2", "h", "h2"]));
}

#[test]
fn prune_zero_length() {
    let index = index_of(vec![
        group("A", "a", 0, &["a2"]),
        group("B", "b", 1, &["b2", "b3"]),
        group("C", "c", 0, &[]),
        group("D", "d", 9, &[]),
    ]);
    let out = index.prune_zeroes();
    assert_eq!(out.len(), 2);
    let groups = out.groups();
    assert_eq!(groups[0].item.digest, "B");
    assert_eq!(groups[0].dupes, strings(&["b2", "b3"]));
    assert_eq!(groups[1].item.digest, "D");
    assert!(out.get("A").is_none());
    assert_eq!(index.len(), 4);
}

#[test]
fn reclaimable_size() {
    let index = index_of(vec![
        group("A", "a", 1024, &["1", "2", "3"]),
        group("B", "b", 10, &[]),
        group("C", "c", 7, &["4"]),
    ]);
    assert_eq!(index.dupe_size(), Some(3079));
    assert_eq!(TreeIndex::new().dupe_size(), Some(0));
}

#[test]
fn reclaimable_size_beyond_64_bits() {
    let index = index_of(vec![group("A", "a", u64::MAX, &["1"])]);
    assert_eq!(index.dupe_size(), Some(u64::MAX));
    let index = index_of(vec![group("A", "a", u64::MAX, &["1", "2"])]);
    assert_eq!(index.dupe_size(), None);
    let index = index_of(vec![group("A", "a", u64::MAX, &["1"]), group("B", "b", 1, &["2"])]);
    assert_eq!(index.dupe_size(), None);
}

#[test]
fn size_in_bytes() {
    assert_eq!(format_size(0), "0 Bytes");
    assert_eq!(format_size(1), "1 Bytes");
    assert_eq!(format_size(1023), "1023 Bytes");
    assert_eq!(format_size(1024), "1024 Bytes");
}

#[test]
fn size_in_kb() {
    assert_eq!(format_size(1025), "1 KB");
    assert_eq!(format_size(2047), "1 KB");
    assert_eq!(format_size(2048), "2 KB");
    assert_eq!(format_size(1024 * 1024), "1024 KB");
}

#[test]
fn size_of_three_duplicates_of_1024_bytes() {
    let index = index_of(vec![group("A", "a", 1024, &["1", "2", "3"])]);
    let size = index.dupe_size().unwrap();
    assert_eq!(size, 3072);
    // above 1024 the size is shown in whole KB
    assert_eq!(format_size(size), "3 KB");
}

#[test]
fn size_in_mb_is_cut_off() {
    assert_eq!(format_size(1024 * 1024 + 1), "1 MB");
    assert_eq!(format_size(3 * 1024 * 1024 + 1024 * 1023), "3 MB");
    assert_eq!(format_size(4 * 1024 * 1024 - 1), "3 MB");
    assert_eq!(format_size(1024 * 1024 * 1024), "1024 MB");
    let index = index_of(vec![group("A", "a", 1024 * 1024, &["1", "2", "3"])]);
    assert_eq!(format_size(index.dupe_size().unwrap()), "3 MB");
}

#[test]
fn size_in_gb() {
    assert_eq!(format_size(1024 * 1024 * 1024 + 1), "1 GB");
    assert_eq!(format_size(5 * 1024 * 1024 * 1024 - 1), "4 GB");
    assert_eq!(format_size(u64::MAX), "17179869183 GB");
}

#[test]
fn all_duplicate_paths() {
    let index = index_of(vec![
        group("A", "a", 1, &["x/1", "y/2"]),
        group("B", "b", 1, &[]),
        group("C", "c", 1, &["x/3"]),
    ]);
    assert_eq!(index.dupe_paths(), strings(&["x/1", "y/2", "x/3"]));
}

#[test]
fn unique_directories() {
    let dirs = vec![
        Some("x".to_string()),
        None,
        Some("y".to_string()),
        Some("x".to_string()),
        Some("".to_string()),
        Some("y".to_string()),
        Some("z".to_string()),
    ];
    assert_eq!(unique_dirs(&dirs), strings(&["x", "y", "", "z"]));
    assert!(unique_dirs(&vec![]).is_empty());
    assert!(unique_dirs(&vec![None, None]).is_empty());
}

#[test]
fn parent_directories_of_duplicates() {
    let index = index_of(vec![
        group("A", "p/a", 1, &["x/1", "y/2", "x/sub/4"]),
        group("B", "q/b", 1, &["x/3", "top"]),
    ]);
    let dirs = index.dupe_dirs();
    assert_eq!(dirs, strings(&["x", "y", "x/sub", ""]));
}

#[test]
fn parent_directories_are_not_the_paths_themselves() {
    let index = index_of(vec![group("A", "a", 1, &["some/dir/file"])]);
    assert_eq!(index.dupe_dirs(), strings(&["some/dir"]));
}
