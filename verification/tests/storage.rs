use rustdb::btree::BPlusTree;
use rustdb::disk::{remove_occurrences, DiskManager};
use rustdb::page::{Page, PAGE_SIZE};
use rustdb::rdb::{decode_table, encode_table};
use rustdb::row::Row;

#[test]
fn btree_empty_tree_finds_nothing() {
    let t = BPlusTree::new();
    assert_eq!(t.search("a"), None);
    assert_eq!(t.range_search("a", "z"), Vec::<String>::new());
    assert_eq!(t.all_values(), Vec::<String>::new());
}

#[test]
fn btree_search_after_insert() {
    let mut t = BPlusTree::new();
    t.insert("k1".to_string(), "v1".to_string());
    t.insert("k2".to_string(), "v2".to_string());
    assert_eq!(t.search("k1"), Some("v1".to_string()));
    assert_eq!(t.search("k2"), Some("v2".to_string()));
    assert_eq!(t.search("k3"), None);
}

#[test]
fn btree_many_keys_split_and_stay_searchable() {
    let mut t = BPlusTree::new();
    let mut keys: Vec<String> = Vec::new();
    for i in 0..200u32 {
        // A scrambled order, so that splits happen all over the tree.
        let k = format!("key{:05}", (i * 37) % 200);
        t.insert(k.clone(), format!("value-{}", k));
        keys.push(k);
    }
    for k in &keys {
        assert_eq!(t.search(k), Some(format!("value-{}", k)));
    }
    assert_eq!(t.search("key99999"), None);
    let mut sorted = keys.clone();
    sorted.sort();
    let expected: Vec<String> = sorted.iter().map(|k| format!("value-{}", k)).collect();
    assert_eq!(t.all_values(), expected);
}

#[test]
fn btree_all_values_in_key_order() {
    let mut t = BPlusTree::new();
    for k in ["d", "b", "a", "c", "e"] {
        t.insert(k.to_string(), k.to_uppercase());
    }
    assert_eq!(t.all_values(), vec!["A", "B", "C", "D", "E"]);
}

#[test]
fn btree_range_search_within_one_leaf() {
    let mut t = BPlusTree::new();
    for k in ["a", "b", "c"] {
        t.insert(k.to_string(), format!("v{}", k));
    }
    assert_eq!(t.range_search("b", "c"), vec!["vb".to_string(), "vc".to_string()]);
    assert_eq!(t.range_search("a", "a"), vec!["va".to_string()]);
    assert_eq!(t.range_search("c", "a"), Vec::<String>::new());
}

#[test]
fn btree_range_search_walks_every_leaf() {
    let mut t = BPlusTree::new();
    for k in ["a", "b", "c", "d"] {
        t.insert(k.to_string(), format!("v{}", k));
    }
    // Four keys split the root leaf into [a, b] and [c, d]; the search reads both.
    assert_eq!(
        t.range_search("a", "d"),
        vec!["va".to_string(), "vb".to_string(), "vc".to_string(), "vd".to_string()]
    );
    assert_eq!(t.range_search("c", "d"), vec!["vc".to_string(), "vd".to_string()]);
    assert_eq!(t.range_search("b", "c"), vec!["vb".to_string(), "vc".to_string()]);
}

#[test]
fn btree_range_search_in_key_order() {
    let mut t = BPlusTree::new();
    for (k, v) in [("b", "2"), ("a", "1"), ("d", "4"), ("c", "3"), ("e", "5")] {
        t.insert(k.to_string(), v.to_string());
    }
    assert_eq!(t.range_search("b", "d"), vec!["2".to_string(), "3".to_string(), "4".to_string()]);
}

#[test]
fn page_new_is_clean_and_zero() {
    let p = Page::new(7);
    assert_eq!(p.id, 7);
    assert_eq!(p.data.len(), PAGE_SIZE);
    assert!(p.data.iter().all(|b| *b == 0));
    assert!(!p.is_dirty);
}

#[test]
fn page_read_after_write() {
    let mut p = Page::new(1);
    p.write(10, &[1, 2, 3]);
    assert!(p.is_dirty);
    assert_eq!(p.read(10, 3), &[1, 2, 3]);
    assert_eq!(p.read(9, 5), &[0, 1, 2, 3, 0]);
    p.write(PAGE_SIZE - 2, &[9, 9]);
    assert_eq!(p.read(PAGE_SIZE - 2, 2), &[9, 9]);
    assert_eq!(p.data.len(), PAGE_SIZE);
}

#[test]
fn disk_paths() {
    let _d = DiskManager::new();
    assert_eq!(DiskManager::table_path("users"), "data/users.rdb");
    assert_eq!(DiskManager::schema_path("users"), "data/users.schema.json");
}

#[test]
fn disk_table_names_from_schema_files() {
    assert_eq!(DiskManager::table_of_schema_file("users.schema.json"), Some("users".to_string()));
    assert_eq!(DiskManager::table_of_schema_file("users.json"), None);
    assert_eq!(DiskManager::table_of_schema_file("wal.log"), None);
    assert_eq!(
        DiskManager::table_of_schema_file("a.schema.jsonb.schema.json"),
        Some("ab".to_string())
    );
}

#[test]
fn remove_every_occurrence() {
    assert_eq!(remove_occurrences("xaxbx", "x"), "ab");
    assert_eq!(remove_occurrences("aaa", "aa"), "a");
    assert_eq!(remove_occurrences("abc", ""), "abc");
}

fn one_row(pairs: &[(&str, &str)]) -> Row {
    let mut r = Row::new();
    for (k, v) in pairs {
        r.insert(k.to_string(), v.to_string());
    }
    r
}

#[test]
fn rdb_bytes_of_a_table() {
    let rows = vec![one_row(&[("id", "1")])];
    let mut expected: Vec<u8> = b"RDB1".to_vec();
    expected.extend_from_slice(&[0, 0, 0, 0, 0, 0, 0, 1]);
    expected.extend_from_slice(&[0, 0, 0, 0, 0, 0, 0, 1]);
    expected.extend_from_slice(&[0, 0, 0, 0, 0, 0, 0, 2]);
    expected.extend_from_slice(b"id");
    expected.extend_from_slice(&[0, 0, 0, 0, 0, 0, 0, 1]);
    expected.extend_from_slice(b"1");
    assert_eq!(encode_table(&rows), expected);
    assert_eq!(encode_table(&vec![]), b"RDB1\0\0\0\0\0\0\0\0".to_vec());
}

#[test]
fn rdb_rows_read_back() {
    let rows = vec![
        one_row(&[("id", "1"), ("name", "Alice"), ("city", "서울")]),
        one_row(&[]),
        one_row(&[("id", "2"), ("name", "")]),
    ];
    let bytes = encode_table(&rows);
    let back = decode_table(&bytes).unwrap();
    assert_eq!(back.len(), 3);
    for (a, b) in rows.iter().zip(back.iter()) {
        assert_eq!(a.to_pairs(), b.to_pairs());
    }
}

#[test]
fn rdb_refuses_what_is_no_table_file() {
    let rows = vec![one_row(&[("k", "v")])];
    let bytes = encode_table(&rows);
    // A wrong opening.
    let mut wrong = bytes.clone();
    wrong[0] = b'X';
    assert!(decode_table(&wrong).is_none());
    // Cut short.
    assert!(decode_table(&bytes[..bytes.len() - 1].to_vec()).is_none());
    assert!(decode_table(&b"RDB".to_vec()).is_none());
    // Bytes left over.
    let mut longer = bytes.clone();
    longer.push(0);
    assert!(decode_table(&longer).is_none());
    // A value that is not UTF-8.
    let mut bad = bytes.clone();
    let last = bad.len() - 1;
    bad[last] = 0xff;
    assert!(decode_table(&bad).is_none());
    assert!(decode_table(&bytes).is_some());
}

#[test]
fn schema_text_reads_back() {
    let cols = vec!["id".to_string(), "na\"me".to_string()];
    let text = DiskManager::schema_text(&cols);
    assert_eq!(text, "[\n  \"id\",\n  \"na\\\"me\"\n]");
    assert_eq!(DiskManager::schema_columns(&text), Some(cols));
    assert_eq!(DiskManager::schema_columns("{}"), None);
    assert_eq!(DiskManager::schema_columns("[1]"), None);
    assert_eq!(DiskManager::schema_columns("[]"), Some(vec![]));
}
