use pgbtree::{
    connection_string, split_column_names, CatalogEntry, IndexInfo, Item, Page,
    PageStats, RawItem, RowData, Tid,
};
use pgbtree::page::{finish_page, internal_items, leaf_items, leaf_tids};
use pgbtree::rows::row_query;

fn tid(block_number: u32, offset_number: u16) -> Tid {
    Tid { block_number, offset_number }
}

fn items(n: usize) -> Vec<Item> {
    (0..n).map(|i| Item::new(format!("v{}", i), None, Some(i as i64), Some(tid(0, i as u16)))).collect()
}

#[test]
fn header_from_statistics() {
    let s = PageStats {
        block_number: 7,
        page_type: "r".to_string(),
        level: 3,
        next_page_id: 0,
        prev_page_id: 5,
    };
    let p = s.header();
    assert_eq!(p.id, 7);
    assert_eq!(p.level, 3);
    assert!(p.is_root && !p.is_leaf);
    assert_eq!(p.prev_page_id, Some(5));
    assert_eq!(p.next_page_id, None);
    let l = PageStats { page_type: "l".to_string(), ..s };
    assert!(l.header().is_leaf && !l.header().is_root);
}

#[test]
fn page_new_sets_both_siblings() {
    let p = Page::new(4, 1, false, false, 9, 8);
    assert_eq!(p.next_page_id, Some(9));
    assert_eq!(p.prev_page_id, Some(8));
    assert!(p.items.is_empty());
}

#[test]
fn high_key_only_on_a_leaf_with_a_right_sibling() {
    let mut h = Page::new(1, 0, true, false, 2, 0);
    h.prev_page_id = None;
    let p = finish_page(h, items(3));
    assert_eq!(p.items.len(), 3 - 1);
    assert_eq!(p.high_key, Some("v0".to_string()));
    assert!(p.prev_item.is_none());
    assert_eq!(p.items[0].value, "v1");
    assert_eq!(p.nb_items, Some(3));
}

#[test]
fn high_key_and_leading_downlink() {
    let h = Page::new(1, 0, true, false, 2, 3);
    let p = finish_page(h, items(4));
    assert_eq!(p.items.len(), 4 - 2);
    assert_eq!(p.high_key, Some("v0".to_string()));
    assert_eq!(p.prev_item.unwrap().value, "v1");
    assert_eq!(p.items[0].value, "v2");
}

#[test]
fn leftmost_internal_page_strips_its_leading_downlink() {
    let mut h = Page::new(1, 1, false, false, 0, 0);
    h.prev_page_id = None;
    h.next_page_id = None;
    let p = finish_page(h, items(2));
    assert_eq!(p.high_key, None);
    assert_eq!(p.prev_item.unwrap().value, "v0");
    assert_eq!(p.items.len(), 1);
}

#[test]
fn root_without_siblings_keeps_every_item() {
    let mut h = Page::new(1, 1, false, true, 0, 0);
    h.prev_page_id = None;
    h.next_page_id = None;
    let p = finish_page(h, items(2));
    assert_eq!(p.items.len(), 2);
}

#[test]
fn leaf_items_take_resolved_values() {
    let raw = vec![
        RawItem { ctid: tid(0, 1), data: Some("raw1".to_string()) },
        RawItem { ctid: tid(2, 7), data: Some("raw2".to_string()) },
        RawItem { ctid: tid(3, 3), data: None },
    ];
    let rows = vec![
        (tid(2, 7), RowData::new_bytes("resolved".to_string())),
        (tid(0, 1), RowData::new(vec![], vec!["x".to_string()])),
    ];
    let it = leaf_items(&raw, &rows);
    assert_eq!(it.len(), 3);
    assert_eq!(it[0].value, "raw1");
    assert_eq!(it[1].value, "resolved");
    assert_eq!(it[1].pointer, Some(2));
    assert_eq!(it[1].obj_id, Some(tid(2, 7)));
    assert_eq!(it[2].value, "");
    assert_eq!(leaf_tids(&raw), vec![tid(0, 1), tid(2, 7), tid(3, 3)]);
}

#[test]
fn internal_items_hold_their_children_in_order() {
    let raw = vec![
        RawItem { ctid: tid(5, 1), data: None },
        RawItem { ctid: tid(6, 1), data: Some("k".to_string()) },
    ];
    let children = vec![Page::new(5, 0, true, false, 6, 0), Page::new(6, 0, true, false, 0, 5)];
    let it = internal_items(&raw, children);
    assert_eq!(it[0].value, "");
    assert_eq!(it[0].child.as_ref().unwrap().id, 5);
    assert_eq!(it[1].value, "k");
    assert_eq!(it[1].pointer, Some(6));
    assert_eq!(it[1].child.as_ref().unwrap().id, 6);
    assert!(it[1].obj_id.is_none());
}

#[test]
fn row_query_with_primary_key() {
    let info = IndexInfo::from_catalog(
        Some(CatalogEntry {
            table_name: "test_table".to_string(),
            index_type: "btree".to_string(),
            column_names: "name, email".to_string(),
            table_oid: 1,
        }),
        vec!["id".to_string()],
    );
    let q = row_query(&info, &vec![tid(0, 1), tid(0, 2)]);
    assert_eq!(
        q,
        "SELECT ctid, id::text, name::text, email::text FROM test_table WHERE ctid IN (SELECT ('(' || block_num || ',' || offset_num || ')')::tid FROM unnest(ARRAY[(0,1), (0,2)]) AS t(block_num integer, offset_num integer))"
    );
}

#[test]
fn row_query_without_primary_key() {
    let info = IndexInfo::from_catalog(
        Some(CatalogEntry {
            table_name: "t".to_string(),
            index_type: "btree".to_string(),
            column_names: "a".to_string(),
            table_oid: 1,
        }),
        vec![],
    );
    let q = row_query(&info, &vec![tid(3, 4)]);
    assert_eq!(
        q,
        "SELECT ctid, a::text FROM t WHERE ctid IN (SELECT ('(' || block_num || ',' || offset_num || ')')::tid FROM unnest(ARRAY[(3,4)]) AS t(block_num integer, offset_num integer))"
    );
}

#[test]
fn row_values_split_into_keys_and_columns() {
    let v: Vec<String> = ["1", "foo", "foo@gmail.com"].iter().map(|s| s.to_string()).collect();
    let r = RowData::from_columns(v.clone(), 1, 2).unwrap();
    assert_eq!(r.primary_key_data, Some(vec!["1".to_string()]));
    assert_eq!(r.column_data, Some(vec!["foo".to_string(), "foo@gmail.com".to_string()]));
    assert_eq!(r.byte_values, Some("1, foo, foo@gmail.com".to_string()));
    assert!(RowData::from_columns(v, 2, 2).is_none());
}

#[test]
fn column_names_are_split_and_trimmed() {
    assert_eq!(split_column_names("name, email"), vec!["name".to_string(), "email".to_string()]);
    assert_eq!(split_column_names(" a ,b,\tc\n"), vec!["a", "b", "c"]);
    assert_eq!(split_column_names(""), vec![String::new()]);
    assert_eq!(split_column_names("a\u{0B}, \u{3000}b\u{A0}"), vec!["a", "b"]);
    assert_eq!(split_column_names("a,,b"), vec!["a", "", "b"]);
}

#[test]
fn btree_check() {
    let mut info = IndexInfo::from_catalog(None, vec![]);
    assert!(!info.is_btree());
    info.index_type = "btree".to_string();
    assert!(info.is_btree());
    assert!(!info.is_empty());
    info.index_type = "hash".to_string();
    assert!(!info.is_btree());
}

#[test]
fn connection_text_names_user_and_password_only_when_given() {
    assert_eq!(
        connection_string("localhost", "5432", "postgres", "postgres", ""),
        "host=localhost port=5432 dbname=postgres user=postgres"
    );
    assert_eq!(
        connection_string("h", "1", "d", "", "SECRET-REDACTED"),
        "host=h port=1 dbname=d password=SECRET-REDACTED"
    );
    assert_eq!(connection_string("h", "1", "d", "", ""), "host=h port=1 dbname=d");
}
