use merkle_rs::file_map::{rank_names, FileMap, Rank};

#[test]
fn new_snapshot_is_empty() {
    let files = FileMap::new();
    assert_eq!(files.len(), 0);
    assert!(files.is_empty());
    assert!(files.get("a").is_none());
}

#[test]
fn entries_stand_in_ascending_order_of_names() {
    let mut files = FileMap::new();
    files.insert("pear".to_string(), vec![3]).unwrap();
    files.insert("apple".to_string(), vec![1]).unwrap();
    files.insert("zebra".to_string(), vec![4]).unwrap();
    files.insert("fig".to_string(), vec![2]).unwrap();
    assert_eq!(files.len(), 4);
    assert!(!files.is_empty());
    let names: Vec<&str> = (0..4).map(|i| files.name_at(i).as_str()).collect();
    assert_eq!(names, vec!["apple", "fig", "pear", "zebra"]);
    let contents: Vec<Vec<u8>> = (0..4).map(|i| files.content_at(i).clone()).collect();
    assert_eq!(contents, vec![vec![1], vec![2], vec![3], vec![4]]);
}

#[test]
fn a_name_stands_once_and_keeps_its_last_content() {
    let mut files = FileMap::new();
    files.insert("a".to_string(), vec![1]).unwrap();
    files.insert("b".to_string(), vec![2]).unwrap();
    files.insert("a".to_string(), vec![9, 9]).unwrap();
    assert_eq!(files.len(), 2);
    assert_eq!(files.get("a"), Some(&vec![9, 9]));
    assert_eq!(files.get("b"), Some(&vec![2]));
    assert_eq!(files.get("c"), None);
    assert_eq!(files.get(""), None);
}

#[test]
fn names_are_ordered_by_their_bytes() {
    assert_eq!(rank_names("a", "b"), Rank::Before);
    assert_eq!(rank_names("b", "a"), Rank::After);
    assert_eq!(rank_names("a", "a"), Rank::Same);
    assert_eq!(rank_names("", ""), Rank::Same);
    assert_eq!(rank_names("", "a"), Rank::Before);
    assert_eq!(rank_names("a", ""), Rank::After);
    assert_eq!(rank_names("file1.txt", "file10.txt"), Rank::Before);
    assert_eq!(rank_names("file10.txt", "file2.txt"), Rank::Before);
    assert_eq!(rank_names("Z", "a"), Rank::Before);
    assert_eq!(rank_names("z", "\u{e9}"), Rank::Before);
    assert_eq!(rank_names("\u{e9}", "\u{4e2d}"), Rank::Before);
    assert_eq!(rank_names("\u{10000}", "\u{ffff}"), Rank::After);
}

#[test]
fn order_agrees_with_the_order_of_strings() {
    let names = ["", "a", "ab", "b", "B", "\u{e9}", "file1.txt", "file10.txt", "\u{4e2d}\u{6587}"];
    for x in names {
        for y in names {
            let expected = if x < y {
                Rank::Before
            } else if x == y {
                Rank::Same
            } else {
                Rank::After
            };
            assert_eq!(rank_names(x, y), expected);
        }
    }
}
