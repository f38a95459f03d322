use best_practices::cli::fs::{TreeIndex, TreeIndexBuilder, TreeItem, TreeItemDupes, TreeList};

fn list_of(records: &[(&str, &str, u64)]) -> TreeList {
    let mut list = TreeList::default();
    for (digest, path, size) in records {
        list.list.push(TreeItem::new(digest, path, *size));
    }
    list
}

fn index_of(records: &[(&str, &str, u64)], dupes: bool) -> TreeIndex {
    let list = list_of(records);
    TreeIndexBuilder::new().with_dupes(dupes).from_list(&list).build().unwrap()
}

#[test]
fn new_item_holds_what_it_was_given() {
    let item = TreeItem::new("abc", "dir/file", 12);
    assert_eq!(item.digest, "abc");
    assert_eq!(item.path, "dir/file");
    assert_eq!(item.size, 12);
    let copy = item.clone();
    assert_eq!(copy.digest, "abc");
    assert_eq!(copy.path, "dir/file");
    assert_eq!(copy.size, 12);
}

#[test]
fn new_group_has_no_duplicates() {
    let mut group = TreeItemDupes::new("abc", "a", 1);
    assert_eq!(group.item.digest, "abc");
    assert!(group.dupes.is_empty());
    group.push("b".to_string());
    group.push("c".to_string());
    assert_eq!(group.dupes, vec!["b".to_string(), "c".to_string()]);
    let copy = group.clone();
    assert_eq!(copy.dupes, group.dupes);
    assert_eq!(copy.item.path, "a");
}

#[test]
fn group_from_item() {
    let item = TreeItem::new("abc", "a", 7);
    let group = TreeItemDupes::from(&item);
    assert_eq!(group.item.digest, "abc");
    assert_eq!(group.item.path, "a");
    assert_eq!(group.item.size, 7);
    assert!(group.dupes.is_empty());
}

#[test]
fn empty_index() {
    let index = TreeIndexBuilder::new().build().unwrap();
    assert_eq!(index.len(), 0);
    assert_eq!(index.max(), 0);
    assert_eq!(index.count_dupes(), 0);
    assert!(index.get("abc").is_none());
    assert_eq!(index.to_text(), "");
    let other = TreeIndex::new();
    assert_eq!(other.len(), 0);
    let default = TreeIndexBuilder::default().build().unwrap();
    assert_eq!(default.len(), 0);
}

#[test]
fn merge_with_dupes() {
    let index = index_of(&[("A", "a1", 5), ("A", "a2", 5), ("B", "b", 9)], true);
    assert_eq!(index.len(), 2);
    let a = index.get("A").unwrap();
    assert_eq!(a.item.path, "a1");
    assert_eq!(a.item.size, 5);
    assert_eq!(a.dupes, vec!["a2".to_string()]);
    let b = index.get("B").unwrap();
    assert_eq!(b.item.path, "b");
    assert!(b.dupes.is_empty());
    assert_eq!(index.count_dupes(), 1);
}

#[test]
fn merge_without_dupes() {
    let index = index_of(&[("A", "a1", 5), ("A", "a2", 5), ("B", "b", 9)], false);
    assert_eq!(index.len(), 2);
    let a = index.get("A").unwrap();
    assert_eq!(a.item.path, "a1");
    assert!(a.dupes.is_empty());
    assert!(index.get("B").unwrap().dupes.is_empty());
    assert_eq!(index.count_dupes(), 0);
}

#[test]
fn merge_keeps_first_record_and_order_of_later_ones() {
    let index = index_of(
        &[("A", "1", 1), ("B", "2", 2), ("A", "3", 3), ("C", "4", 4), ("A", "5", 5), ("B", "6", 6)],
        true,
    );
    let groups = index.groups();
    assert_eq!(groups.len(), 3);
    assert_eq!(groups[0].item.digest, "A");
    assert_eq!(groups[0].item.size, 1);
    assert_eq!(groups[0].dupes, vec!["3".to_string(), "5".to_string()]);
    assert_eq!(groups[1].item.digest, "B");
    assert_eq!(groups[1].dupes, vec!["6".to_string()]);
    assert_eq!(groups[2].item.digest, "C");
    assert!(groups[2].dupes.is_empty());
    assert_eq!(index.count_dupes(), 3);
}

#[test]
fn max_of_sizes() {
    let index = index_of(&[("A", "a", 10), ("B", "b", 5000), ("C", "c", 3)], true);
    assert_eq!(index.max(), 5000);
    let one = index_of(&[("A", "a", 0)], true);
    assert_eq!(one.max(), 0);
    let top = index_of(&[("A", "a", u64::MAX), ("B", "b", 1)], true);
    assert_eq!(top.max(), u64::MAX);
}

#[test]
fn max_looks_at_primary_records_only() {
    // a later record of a known digest does not bring its size
    let index = index_of(&[("A", "a", 10), ("A", "a2", 900)], true);
    assert_eq!(index.max(), 10);
}

#[test]
fn insert_replaces_the_group_of_a_digest() {
    let mut index = index_of(&[("A", "a", 1), ("A", "a2", 1), ("B", "b", 2)], true);
    index.insert(TreeItemDupes::new("A", "other", 3));
    assert_eq!(index.len(), 2);
    let groups = index.groups();
    assert_eq!(groups[0].item.path, "other");
    assert_eq!(groups[0].item.size, 3);
    assert!(groups[0].dupes.is_empty());
    assert_eq!(groups[1].item.digest, "B");
    index.insert(TreeItemDupes::new("C", "c", 4));
    assert_eq!(index.len(), 3);
    assert_eq!(index.groups()[2].item.digest, "C");
    assert!(index.contains_key("C"));
    assert!(!index.contains_key("D"));
}

#[test]
fn push_dupe_needs_a_group() {
    let mut index = index_of(&[("A", "a", 1)], true);
    assert!(index.push_dupe("A", "x".to_string()));
    assert!(!index.push_dupe("B", "y".to_string()));
    assert_eq!(index.len(), 1);
    assert_eq!(index.get("A").unwrap().dupes, vec!["x".to_string()]);
}

#[test]
fn absorb_one_record_at_a_time() {
    let mut index = TreeIndex::new();
    index.absorb(&TreeItem::new("A", "a", 1), true);
    index.absorb(&TreeItem::new("A", "b", 1), true);
    index.absorb(&TreeItem::new("A", "c", 1), false);
    assert_eq!(index.len(), 1);
    assert_eq!(index.get("A").unwrap().dupes, vec!["b".to_string()]);
}

#[test]
fn list_clone_and_default() {
    let list = list_of(&[("A", "a", 1), ("B", "b", 2)]);
    let copy = list.clone();
    assert_eq!(copy.list.len(), 2);
    assert_eq!(copy.list[1].digest, "B");
    assert_eq!(TreeList::default().list.len(), 0);
}

#[test]
fn replace_item_keeps_the_duplicates() {
    let mut index = index_of(&[("A", "a", 1), ("A", "a2", 1), ("B", "b", 2)], true);
    assert!(index.replace_item(TreeItem::new("A", "other", 3)));
    assert!(!index.replace_item(TreeItem::new("C", "c", 4)));
    assert_eq!(index.len(), 2);
    let a = index.get("A").unwrap();
    assert_eq!(a.item.path, "other");
    assert_eq!(a.item.size, 3);
    assert_eq!(a.dupes, vec!["a2".to_string()]);
    assert_eq!(index.get("B").unwrap().item.path, "b");
}
