use best_practices::cli::fs::format::read_index;
use best_practices::cli::fs::{TreeIndex, TreeIndexBuilder, TreeItem, TreeItemDupes};
use best_practices::error::Error;

fn read(text: &str, dupes: bool) -> TreeIndex {
    TreeIndexBuilder::new().with_dupes(dupes).from_reader(text).build().unwrap()
}

fn format_error(text: &str) -> String {
    match TreeIndexBuilder::new().with_dupes(true).from_reader(text).build() {
        Err(Error::InvalidFormat(message)) => message,
        _ => panic!("expected InvalidFormat"),
    }
}

#[test]
fn item_line() {
    let item = TreeItem::new("abc123", "some dir/a file.txt", 1024);
    assert_eq!(item.to_text(), "abc123 1024 some dir/a file.txt\n");
    assert_eq!(TreeItem::new("d", "", 0).to_text(), "d 0 \n");
    assert_eq!(
        TreeItem::new("d", "p", u64::MAX).to_text(),
        "d 18446744073709551615 p\n"
    );
}

#[test]
fn group_lines() {
    let mut group = TreeItemDupes::new("abc", "first", 7);
    assert_eq!(group.to_text(), "abc 7 first\n");
    group.push("second".to_string());
    group.push("third one".to_string());
    assert_eq!(group.to_text(), "abc 7 first\n- second\n- third one\n");
}

#[test]
fn index_text_follows_the_groups() {
    let index = read("b 2 pb\na 1 pa\n- pa2\nb 9 pb2\n", true);
    assert_eq!(index.to_text(), "b 2 pb\n- pb2\na 1 pa\n- pa2\n");
    let mut out = String::from("# ");
    index.write_text(&mut out);
    assert_eq!(out, "# b 2 pb\n- pb2\na 1 pa\n- pa2\n");
}

#[test]
fn read_primary_and_duplicates() {
    let index = read("aa 5 a\n- b\n- c d\nbb 7 e\n", true);
    assert_eq!(index.len(), 2);
    let a = index.get("aa").unwrap();
    assert_eq!(a.item.path, "a");
    assert_eq!(a.item.size, 5);
    assert_eq!(a.dupes, vec!["b".to_string(), "c d".to_string()]);
    let b = index.get("bb").unwrap();
    assert_eq!(b.item.size, 7);
    assert!(b.dupes.is_empty());
}

#[test]
fn read_without_dupes_discards_continuation_lines() {
    let index = read("aa 5 a\n- b\n- c\nbb 7 e\naa 5 f\n", false);
    assert_eq!(index.len(), 2);
    assert!(index.get("aa").unwrap().dupes.is_empty());
    assert_eq!(index.get("aa").unwrap().item.path, "a");
    assert!(index.get("bb").unwrap().dupes.is_empty());
}

#[test]
fn read_merges_repeated_digests() {
    let index = read("aa 5 a\nbb 7 e\naa 6 f\n- g\n", true);
    let a = index.get("aa").unwrap();
    assert_eq!(a.item.size, 5);
    assert_eq!(a.dupes, vec!["f".to_string(), "g".to_string()]);
}

#[test]
fn read_empty_text() {
    assert_eq!(read("", true).len(), 0);
}

#[test]
fn read_last_line_without_line_break() {
    let index = read("aa 5 a\n- b", true);
    assert_eq!(index.get("aa").unwrap().dupes, vec!["b".to_string()]);
}

#[test]
fn read_carriage_returns() {
    let index = read("aa 5 a\r\n- b\r\n", true);
    let a = index.get("aa").unwrap();
    assert_eq!(a.item.path, "a");
    assert_eq!(a.dupes, vec!["b".to_string()]);
    // only the one before the line break goes, and only there
    let index = read("aa 5 a\r\r\n- b\r", true);
    let a = index.get("aa").unwrap();
    assert_eq!(a.item.path, "a\r");
    assert_eq!(a.dupes, vec!["b\r".to_string()]);
}

#[test]
fn read_path_keeps_its_spaces() {
    let index = read("aa 5  two  spaces \n", true);
    assert_eq!(index.get("aa").unwrap().item.path, " two  spaces ");
}

#[test]
fn read_empty_path() {
    let index = read("aa 5 \n", true);
    assert_eq!(index.get("aa").unwrap().item.path, "");
}

#[test]
fn read_tab_as_white_space() {
    let index = read("aa\t5\tpath\n", true);
    let a = index.get("aa").unwrap();
    assert_eq!(a.item.size, 5);
    assert_eq!(a.item.path, "path");
}

#[test]
fn read_wide_white_space() {
    // U+3000 is white space of three bytes
    let index = read("aa\u{3000}5\u{a0}path\n", true);
    let a = index.get("aa").unwrap();
    assert_eq!(a.item.size, 5);
    assert_eq!(a.item.path, "path");
}

#[test]
fn read_size_that_is_no_number_as_zero() {
    assert_eq!(read("aa x p\n", true).get("aa").unwrap().item.size, 0);
    assert_eq!(read("aa -5 p\n", true).get("aa").unwrap().item.size, 0);
    assert_eq!(read("aa 5x p\n", true).get("aa").unwrap().item.size, 0);
    assert_eq!(read("aa + p\n", true).get("aa").unwrap().item.size, 0);
    assert_eq!(read("aa  p\n", true).get("aa").unwrap().item.size, 0);
    assert_eq!(read("aa  p\n", true).get("aa").unwrap().item.path, "p");
}

#[test]
fn read_size_with_sign_and_zeros() {
    assert_eq!(read("aa +5 p\n", true).get("aa").unwrap().item.size, 5);
    assert_eq!(read("aa 0005 p\n", true).get("aa").unwrap().item.size, 5);
    assert_eq!(read("aa 0 p\n", true).get("aa").unwrap().item.size, 0);
}

#[test]
fn read_size_at_the_limit() {
    assert_eq!(
        read("aa 18446744073709551615 p\n", true).get("aa").unwrap().item.size,
        u64::MAX
    );
    assert_eq!(read("aa 18446744073709551616 p\n", true).get("aa").unwrap().item.size, 0);
    assert_eq!(
        read("aa 99999999999999999999999999 p\n", true).get("aa").unwrap().item.size,
        0
    );
}

#[test]
fn read_duplicate_before_any_primary() {
    let index = read("- lonely\n- second\n", true);
    assert_eq!(index.len(), 1);
    let group = index.get("-").unwrap();
    assert_eq!(group.item.path, "lonely");
    assert_eq!(group.item.size, 0);
    assert_eq!(group.dupes, vec!["second".to_string()]);
}

#[test]
fn missing_digest() {
    assert_eq!(format_error("nospace\n"), "missing digest on line 1");
    assert_eq!(format_error("aa 5 a\n- b\nbroken\ncc 1 c\n"), "missing digest on line 3");
    assert_eq!(format_error("aa 5 a\n\n"), "missing digest on line 2");
}

#[test]
fn missing_size() {
    assert_eq!(format_error("aa 5\n"), "missing size on line 1");
    assert_eq!(format_error("aa 5 a\nbb path\n"), "missing size on line 2");
}

#[test]
fn first_fault_counts() {
    assert_eq!(format_error("aa 5 a\nbb 7\nbroken\n"), "missing size on line 2");
    let mut text = String::new();
    for _ in 0..499 {
        text.push_str("aa 5 a\n");
    }
    text.push_str("broken\n");
    assert_eq!(format_error(&text), "missing digest on line 500");
}

#[test]
fn fault_without_dupes() {
    match read_index("aa 5 a\n- \nbroken", false) {
        Err(Error::InvalidFormat(message)) => assert_eq!(message, "missing digest on line 3"),
        _ => panic!("expected InvalidFormat"),
    }
}

#[test]
fn round_trip() {
    let mut index = TreeIndex::new();
    let mut a = TreeItemDupes::new("aa11", "dir/a b", 5);
    a.push("dir/c".to_string());
    a.push(" x ".to_string());
    a.push("".to_string());
    index.insert(a);
    index.insert(TreeItemDupes::new("", "empty digest", 0));
    index.insert(TreeItemDupes::new("ff", "", u64::MAX));
    let text = index.to_text();
    let back = read(&text, true);
    assert_eq!(back.len(), 3);
    let groups = back.groups();
    let before = index.groups();
    for i in 0..3 {
        assert_eq!(groups[i].item.digest, before[i].item.digest);
        assert_eq!(groups[i].item.path, before[i].item.path);
        assert_eq!(groups[i].item.size, before[i].item.size);
        assert_eq!(groups[i].dupes, before[i].dupes);
    }
    assert_eq!(back.to_text(), text);
}

#[test]
fn round_trip_fails_on_a_path_with_a_line_break() {
    let mut index = TreeIndex::new();
    index.insert(TreeItemDupes::new("aa", "two\nlines here", 5));
    let text = index.to_text();
    assert_eq!(text, "aa 5 two\nlines here\n");
    assert_eq!(format_error(&text), "missing size on line 2");
}
