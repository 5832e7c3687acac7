use chrono::{DateTime, NaiveDate, Utc};
use rusty_index::analyser::{FileRecord, GNode};
use rusty_index::digest::{sorted_strings, str_eq, str_le};
use rusty_index::index_db::IndexRecord;
use rusty_index::misc::{
    components_to_path, get_name_and_split_path, path_to_components, process_file_paths,
    to_file_record, to_index_record,
};
use rusty_index::parallel::clean_components;

fn mock_date_time() -> i64 {
    let naive = NaiveDate::from_ymd_opt(2015, 6, 3)
        .unwrap()
        .and_hms_milli_opt(12, 34, 56, 789)
        .unwrap();
    DateTime::<Utc>::from_naive_utc_and_offset(naive, Utc).timestamp_millis()
}

#[test]
fn test_to_file_record() {
    let example = IndexRecord {
        id: 1,
        checksum: String::from("aaaaa"),
        name: String::from("aaaaa.txt"),
        path: String::from("/some/"),
        modified: mock_date_time(),
    };

    let res = to_file_record(&example);
    println!("{:#?}", res);

    assert_eq!(res.checksum, String::from("aaaaa"));
    assert_eq!(res.name, String::from("aaaaa.txt"));
    assert_eq!(res.path, vec!["some"]);
}

#[test]
fn test_to_index_record() {
    let example = FileRecord {
        checksum: String::from("aaaaa"),
        name: String::from("aaaaa.txt"),
        path: vec![String::from("some")],
        modified: mock_date_time(),
    };

    let res = to_index_record(&example);
    println!("{:#?}", res);

    assert_eq!(res.checksum, String::from("aaaaa"));
    assert_eq!(res.name, String::from("aaaaa.txt"));
    assert_eq!(res.path, String::from("/some/"));
    assert_eq!(res.id, 0);
}

#[test]
fn mock_time_is_exact() {
    assert_eq!(mock_date_time(), 1433334896789);
}

#[test]
fn path_to_components_drops_empty_pieces() {
    assert_eq!(
        path_to_components(&String::from("/some//location/")),
        vec![String::from("some"), String::from("location")]
    );
    assert!(path_to_components(&String::from("")).is_empty());
    assert!(path_to_components(&String::from("///")).is_empty());
    assert_eq!(path_to_components(&String::from("a/b")), vec![String::from("a"), String::from("b")]);
}

#[test]
fn components_to_path_wraps_in_slashes() {
    assert_eq!(components_to_path(&vec![String::from("a"), String::from("b")]), String::from("/a/b/"));
    assert_eq!(components_to_path(&vec![]), String::from("//"));
}

#[test]
fn split_at_last_slash() {
    let (path, name) = get_name_and_split_path(&String::from("/home/user/file.txt"));
    assert_eq!(path, vec![String::from("home"), String::from("user")]);
    assert_eq!(name, String::from("file.txt"));
    let (path, name) = get_name_and_split_path(&String::from("/f"));
    assert!(path.is_empty());
    assert_eq!(name, String::from("f"));
}

#[test]
fn file_paths_made_absolute() {
    let out = process_file_paths(
        vec![String::from("./a.txt"), String::from("/abs/b.txt"), String::from("c.txt")],
        &String::from("/cwd"),
    );
    assert_eq!(
        out,
        vec![String::from("/cwd/a.txt"), String::from("/abs/b.txt"), String::from("/cwd/c.txt")]
    );
}

#[test]
fn record_round_trip_keeps_fields() {
    let rec = FileRecord {
        checksum: String::from("c"),
        name: String::from("n"),
        path: vec![String::from("x"), String::from("y")],
        modified: 42,
    };
    let back = to_file_record(&to_index_record(&rec));
    assert_eq!(back.path, rec.path);
    assert_eq!(back.modified, 42);
}

#[test]
fn text_order_is_by_character() {
    assert!(str_le("a", "b"));
    assert!(str_le("ab", "abc"));
    assert!(!str_le("b", "a"));
    assert!(str_le("", ""));
    assert!(str_eq("same", "same"));
    assert!(!str_eq("same", "sane"));
    let sorted = sorted_strings(&vec![String::from("c"), String::from("a"), String::from("b"), String::from("a")]);
    assert_eq!(sorted, vec![String::from("a"), String::from("a"), String::from("b"), String::from("c")]);
}

#[test]
fn clean_components_drop_empty() {
    let out = clean_components(&vec![String::from(""), String::from("some"), String::from("")]);
    assert_eq!(out, vec![String::from("some")]);
}

#[test]
fn node_labels_carry_kind() {
    let d = GNode::DirNode { name: String::from("docs"), checksum: String::new() };
    let f = GNode::FileLeaf { name: String::from("a.txt"), checksum: String::new(), id: 0 };
    assert_eq!(d.label(), String::from("Directory-docs"));
    assert_eq!(f.label(), String::from("File-a.txt"));
}
