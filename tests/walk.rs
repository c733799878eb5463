use std::collections::HashMap;
use std::rc::Rc;

use pgbtree::{
    BuildError, CatalogEntry, IndexInfo, MetadataPage, Page, PageStats, RawItem, Request, RowData,
    Tid, Tree, TreeWalk,
};

/// A page as a fake page lookup returns it: kind, level, siblings and raw items.
struct FakePage {
    kind: &'static str,
    level: i64,
    prev: i64,
    next: i64,
    items: Vec<(u32, u16, Option<&'static str>)>,
}

/// How a fake row lookup answers for one identifier: with an encoded text already made, or
/// with the key and column values a row lookup returns.
enum FakeRow {
    Encoded(&'static str),
    Values(Vec<&'static str>),
}

struct FakeDb {
    pages: HashMap<i64, FakePage>,
    rows: Vec<(Tid, FakeRow)>,
    row_lookups: usize,
}

fn tid(block_number: u32, offset_number: u16) -> Tid {
    Tid { block_number, offset_number }
}

impl FakeDb {
    fn stats(&self, id: i64) -> Option<PageStats> {
        self.pages.get(&id).map(|p| PageStats {
            block_number: id,
            page_type: p.kind.to_string(),
            level: p.level,
            next_page_id: p.next,
            prev_page_id: p.prev,
        })
    }

    fn items(&self, id: i64) -> Vec<RawItem> {
        match self.pages.get(&id) {
            Some(p) => p
                .items
                .iter()
                .map(|(b, o, d)| RawItem { ctid: tid(*b, *o), data: d.map(|s| s.to_string()) })
                .collect(),
            None => vec![],
        }
    }

    fn resolve(&mut self, tids: &[Tid]) -> Vec<(Tid, RowData)> {
        self.row_lookups += 1;
        self.rows
            .iter()
            .filter(|(t, _)| tids.contains(t))
            .map(|(t, v)| {
                let row = match v {
                    FakeRow::Encoded(s) => RowData::new_bytes(s.to_string()),
                    FakeRow::Values(vals) => RowData::from_columns(
                        vals.iter().map(|v| v.to_string()).collect(),
                        1,
                        vals.len() - 1,
                    )
                    .unwrap(),
                };
                (*t, row)
            })
            .collect()
    }
}

fn info() -> IndexInfo {
    IndexInfo::from_catalog(
        Some(CatalogEntry {
            table_name: "test_table".to_string(),
            index_type: "btree".to_string(),
            column_names: "name, email".to_string(),
            table_oid: 16384,
        }),
        vec!["id".to_string()],
    )
}

fn build(db: &mut FakeDb, root: i64, level: i64) -> Result<Tree, BuildError> {
    let info = Rc::new(info());
    let mut walk = TreeWalk::start(
        "idx_users_name_email".to_string(),
        MetadataPage::new(4, root, level, root, level),
        &info,
    )?;
    loop {
        match walk.next_request() {
            Request::Page { page_id } => {
                let stats = db.stats(page_id);
                let items = db.items(page_id);
                walk.accept_page(stats, items)?;
            }
            Request::Rows { tids } => {
                let rows = db.resolve(&tids);
                walk.accept_rows(rows);
            }
            Request::Done => break,
        }
    }
    Ok(walk.into_tree(info).unwrap())
}

fn inconsistent(page_id: i64) -> BuildError {
    BuildError::InconsistentPage { index_name: "idx_users_name_email".to_string(), page_id }
}

fn child(p: &Page, i: usize) -> &Page {
    p.items[i].child.as_ref().unwrap()
}

#[test]
fn single_row_leaf_root() {
    let mut pages = HashMap::new();
    pages.insert(
        1,
        FakePage { kind: "l", level: 0, prev: 0, next: 0, items: vec![(0, 1, Some("03 66 6f 6f"))] },
    );
    let mut db = FakeDb {
        pages,
        rows: vec![(tid(0, 1), FakeRow::Values(vec!["1", "foo", "foo@gmail.com"]))],
        row_lookups: 0,
    };
    let tree = build(&mut db, 1, 0).unwrap();
    let root = &tree.root;
    assert!(root.is_leaf);
    assert!(root.is_root);
    assert_eq!(root.id, 1);
    assert_eq!(root.items.len(), 1);
    assert_eq!(root.high_key, None);
    assert!(root.prev_item.is_none());
    assert_eq!(root.prev_page_id, None);
    assert_eq!(root.next_page_id, None);
    assert_eq!(root.nb_items, Some(1));
    let item = &root.items[0];
    assert!(item.child.is_none());
    assert_eq!(item.obj_id, Some(tid(0, 1)));
    assert_eq!(item.pointer, Some(0));
    assert_eq!(item.value, "1, foo, foo@gmail.com");
    assert_eq!(tree.index_name, "idx_users_name_email");
    assert_eq!(db.row_lookups, 1);
    assert_eq!(tree.table_name, "test_table");
    assert_eq!(tree.columns, vec!["name".to_string(), "email".to_string()]);
    assert_eq!(tree.index_type, Some("btree".to_string()));
    assert_eq!(tree.metadata_page, Some(MetadataPage::new(4, 1, 0, 1, 0)));
}

fn three_levels() -> FakeDb {
    let mut pages = HashMap::new();
    pages.insert(10, FakePage { kind: "r", level: 2, prev: 0, next: 0, items: vec![(20, 1, None)] });
    pages.insert(
        20,
        FakePage {
            kind: "i",
            level: 1,
            prev: 0,
            next: 0,
            items: vec![(30, 1, None), (31, 1, Some("m")), (32, 1, Some("t"))],
        },
    );
    pages.insert(
        30,
        FakePage {
            kind: "l",
            level: 0,
            prev: 0,
            next: 31,
            items: vec![(0, 9, Some("hk30")), (0, 1, Some("a"))],
        },
    );
    pages.insert(
        31,
        FakePage {
            kind: "l",
            level: 0,
            prev: 30,
            next: 32,
            items: vec![
                (0, 9, Some("hk31")),
                (0, 2, Some("dl31")),
                (0, 3, Some("m1")),
                (0, 4, Some("m2")),
            ],
        },
    );
    pages.insert(
        32,
        FakePage {
            kind: "l",
            level: 0,
            prev: 31,
            next: 0,
            items: vec![(0, 5, Some("dl32")), (0, 6, Some("t"))],
        },
    );
    FakeDb {
        pages,
        rows: vec![
            (tid(0, 3), FakeRow::Encoded("row 3")),
            (tid(0, 4), FakeRow::Values(vec!["4", "bob2", "bob2@gmail.com"])),
        ],
        row_lookups: 0,
    }
}

#[test]
fn three_level_index_with_leaf_siblings() {
    let mut db = three_levels();
    let tree = build(&mut db, 10, 2).unwrap();
    let root = &tree.root;
    assert!(root.is_root && !root.is_leaf);
    assert_eq!(root.level, 2);
    assert_eq!(root.items.len(), 1);
    assert!(root.prev_item.is_none());
    assert_eq!(root.high_key, None);

    let mid = child(root, 0);
    assert_eq!(mid.id, 20);
    assert_eq!(mid.level, 1);
    assert!(!mid.is_leaf);
    assert_eq!(mid.high_key, None);
    let down = mid.prev_item.as_ref().unwrap();
    assert_eq!(down.child.as_ref().unwrap().id, 30);
    assert_eq!(down.value, "");
    assert_eq!(mid.items.len(), 2);
    assert_eq!(mid.nb_items, Some(3));
    assert_eq!(mid.items[0].value, "m");
    assert_eq!(mid.items[0].pointer, Some(31));
    assert_eq!(mid.items[0].obj_id, None);

    let inner = child(mid, 0);
    assert_eq!(inner.id, 31);
    assert!(inner.is_leaf);
    assert_eq!(inner.level, 0);
    assert_eq!(inner.prev_page_id, Some(30));
    assert_eq!(inner.next_page_id, Some(32));
    assert_eq!(inner.high_key, Some("hk31".to_string()));
    assert_eq!(inner.prev_item.as_ref().unwrap().obj_id, Some(tid(0, 2)));
    assert_eq!(inner.items.len(), 4 - 2);
    assert_eq!(inner.items[0].value, "row 3");
    assert_eq!(inner.items[1].value, "4, bob2, bob2@gmail.com");

    let last = child(mid, 1);
    assert_eq!(last.id, 32);
    assert_eq!(last.high_key, None);
    assert_eq!(last.prev_item.as_ref().unwrap().value, "dl32");
    assert_eq!(last.items.len(), 1);
    assert_eq!(last.items[0].value, "t");

    let first = down.child.as_ref().unwrap();
    assert_eq!(first.high_key, Some("hk30".to_string()));
    assert!(first.prev_item.is_none());
    assert_eq!(first.items.len(), 2 - 1);
    assert_eq!(first.items[0].value, "a");
    assert_eq!(db.row_lookups, 3);
}

#[test]
fn level_invariant_holds_on_every_internal_item() {
    let mut db = three_levels();
    let tree = build(&mut db, 10, 2).unwrap();
    fn check(p: &Page) {
        for it in p.items.iter().chain(p.prev_item.as_deref()) {
            match &it.child {
                Some(c) => {
                    assert!(!p.is_leaf);
                    assert_eq!(c.level + 1, p.level);
                    check(c);
                }
                None => assert!(p.is_leaf && it.obj_id.is_some()),
            }
        }
    }
    check(&tree.root);
}

#[test]
fn unresolved_index_name_is_not_found() {
    let info = IndexInfo::from_catalog(None, vec![]);
    assert_eq!(info.index_type, "");
    assert!(info.columns.is_empty());
    assert_eq!(info.table_name, "");
    assert_eq!(info.table_oid, 0);
    assert!(info.is_empty());
    assert!(info.primary_indexed_attributes.is_empty());
    let info = IndexInfo::from_catalog(None, vec!["id".to_string()]);
    assert!(info.primary_indexed_attributes.is_empty());
    assert!(matches!(info.require_found(), Err(BuildError::IndexNotFound)));
    let r = TreeWalk::start("missing".to_string(), MetadataPage::new(0, 0, 0, 0, 0), &info);
    assert!(matches!(r, Err(BuildError::IndexNotFound)));
}

#[test]
fn missing_page_is_reported_with_its_id() {
    let mut db = FakeDb { pages: HashMap::new(), rows: vec![], row_lookups: 0 };
    assert_eq!(
        build(&mut db, 3, 0).err(),
        Some(BuildError::PageNotFound { index_name: "idx_users_name_email".to_string(), page_id: 3 })
    );
}

#[test]
fn too_few_items_for_the_sentinels_is_inconsistent() {
    let mut pages = HashMap::new();
    pages.insert(1, FakePage { kind: "r", level: 1, prev: 0, next: 0, items: vec![(2, 1, None)] });
    pages.insert(2, FakePage { kind: "l", level: 0, prev: 0, next: 5, items: vec![] });
    let mut db = FakeDb { pages, rows: vec![], row_lookups: 0 };
    assert_eq!(build(&mut db, 1, 1).err(), Some(inconsistent(2)));
    assert_eq!(db.row_lookups, 0);
}

#[test]
fn child_at_the_wrong_level_is_inconsistent() {
    let mut pages = HashMap::new();
    pages.insert(1, FakePage { kind: "r", level: 2, prev: 0, next: 0, items: vec![(2, 1, None)] });
    pages.insert(2, FakePage { kind: "l", level: 0, prev: 0, next: 0, items: vec![(0, 1, None)] });
    let mut db = FakeDb { pages, rows: vec![], row_lookups: 0 };
    assert_eq!(build(&mut db, 1, 2).err(), Some(inconsistent(2)));
}

#[test]
fn root_at_another_level_than_the_metadata_is_inconsistent() {
    let mut pages = HashMap::new();
    pages.insert(1, FakePage { kind: "l", level: 0, prev: 0, next: 0, items: vec![] });
    let mut db = FakeDb { pages, rows: vec![], row_lookups: 0 };
    assert_eq!(build(&mut db, 1, 1).err(), Some(inconsistent(1)));
}

#[test]
fn first_request_is_the_root_page() {
    let walk = TreeWalk::start("i".to_string(), MetadataPage::new(4, 3, 1, 3, 1), &info()).unwrap();
    assert!(matches!(walk.next_request(), Request::Page { page_id: 3 }));
}

#[test]
fn leaf_waits_for_the_rows_of_its_identifiers() {
    let mut walk = TreeWalk::start("i".to_string(), MetadataPage::new(4, 3, 0, 3, 0), &info()).unwrap();
    let stats = PageStats {
        block_number: 3,
        page_type: "l".to_string(),
        level: 0,
        next_page_id: 0,
        prev_page_id: 0,
    };
    let raw = vec![
        RawItem { ctid: tid(1, 2), data: Some("x".to_string()) },
        RawItem { ctid: tid(4, 5), data: None },
    ];
    walk.accept_page(Some(stats), raw).unwrap();
    match walk.next_request() {
        Request::Rows { tids } => assert_eq!(tids, vec![tid(1, 2), tid(4, 5)]),
        other => panic!("unexpected request {:?}", other),
    }
    walk.accept_rows(vec![]);
    assert!(matches!(walk.next_request(), Request::Done));
    let tree = walk.into_tree(Rc::new(info())).unwrap();
    assert_eq!(tree.root.items[0].value, "x");
    assert_eq!(tree.root.items[1].value, "");
    assert_eq!(tree.root.items[1].pointer, Some(4));
}

#[test]
fn page_met_twice_is_inconsistent() {
    let mut pages = HashMap::new();
    pages.insert(1, FakePage { kind: "r", level: 1, prev: 0, next: 0, items: vec![(2, 1, None), (2, 2, None)] });
    pages.insert(2, FakePage { kind: "l", level: 0, prev: 0, next: 0, items: vec![] });
    let mut db = FakeDb { pages, rows: vec![], row_lookups: 0 };
    assert_eq!(build(&mut db, 1, 1).err(), Some(inconsistent(2)));
}

#[test]
fn leaf_above_level_zero_is_inconsistent() {
    let mut pages = HashMap::new();
    pages.insert(1, FakePage { kind: "r", level: 2, prev: 0, next: 0, items: vec![(2, 1, None)] });
    pages.insert(2, FakePage { kind: "l", level: 1, prev: 0, next: 0, items: vec![(0, 1, None)] });
    let mut db = FakeDb { pages, rows: vec![], row_lookups: 0 };
    assert_eq!(build(&mut db, 1, 2).err(), Some(inconsistent(2)));
}

#[test]
fn internal_page_with_too_few_items_is_refused_before_its_children() {
    let mut pages = HashMap::new();
    pages.insert(1, FakePage { kind: "r", level: 2, prev: 0, next: 0, items: vec![(2, 1, None)] });
    pages.insert(2, FakePage { kind: "i", level: 1, prev: 0, next: 9, items: vec![(3, 1, None)] });
    let mut db = FakeDb { pages, rows: vec![], row_lookups: 0 };
    assert_eq!(build(&mut db, 1, 2).err(), Some(inconsistent(2)));
}
