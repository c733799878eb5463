//! The in-memory snapshot of an index: pages, items, the tree, and the descriptor of the index.

use std::rc::Rc;
use vstd::prelude::*;
use crate::tid::Tid;

verus! {

/// The index's metadata page: where a traversal starts.
#[derive(Debug, PartialEq)]
pub struct MetadataPage {
    pub version: i32,
    pub root: i64,
    pub level: i64,
    pub fast_root: i64,
    pub fast_level: i64,
}

impl MetadataPage {
    pub fn new(version: i32, root: i64, level: i64, fast_root: i64, fast_level: i64) -> (r:
        MetadataPage)
        ensures
            r.version == version,
            r.root == root,
            r.level == level,
            r.fast_root == fast_root,
            r.fast_level == fast_level,
    {
        MetadataPage { version, root, level, fast_root, fast_level }
    }

    /// The metadata page from the row of its lookup: all zero when the lookup found none.
    pub fn from_lookup(row: Option<(i32, i64, i64, i64, i64)>) -> (r: MetadataPage)
        ensures
            row matches Some(v) ==> r == (MetadataPage {
                version: v.0,
                root: v.1,
                level: v.2,
                fast_root: v.3,
                fast_level: v.4,
            }),
            row.is_none() ==> r == (MetadataPage {
                version: 0,
                root: 0,
                level: 0,
                fast_root: 0,
                fast_level: 0,
            }),
    {
        match row {
            Some(v) => MetadataPage::new(v.0, v.1, v.2, v.3, v.4),
            None => MetadataPage::new(0, 0, 0, 0, 0),
        }
    }
}

/// One page of the index, owning the pages below it through its items.
#[derive(Debug, PartialEq)]
pub struct Page {
    pub id: i64,
    pub level: i64,
    pub is_leaf: bool,
    pub is_root: bool,
    pub items: Vec<Item>,
    pub prev_page_id: Option<i64>,
    pub next_page_id: Option<i64>,
    /// The separator of the page's high-key item, when the page has a right sibling.
    pub high_key: Option<String>,
    /// The leading down-link (the minus-infinity item), when the page has one.
    pub prev_item: Option<Box<Item>>,
    /// How many raw items the page held before its sentinel items were taken out.
    pub nb_items: Option<i32>,
}

impl Page {
    /// A page header with both sibling links set and no items yet.
    pub fn new(block_number: i64, level: i64, is_leaf: bool, is_root: bool, next_page_id: i64,
        prev_page_id: i64) -> (r: Self)
        ensures
            r.id == block_number,
            r.level == level,
            r.is_leaf == is_leaf,
            r.is_root == is_root,
            r.items@.len() == 0,
            r.prev_page_id == Some(prev_page_id),
            r.next_page_id == Some(next_page_id),
            r.high_key.is_none(),
            r.prev_item.is_none(),
            r.nb_items.is_none(),
    {
        Self {
            id: block_number,
            level,
            is_leaf,
            is_root,
            items: Vec::new(),
            prev_page_id: Some(prev_page_id),
            next_page_id: Some(next_page_id),
            high_key: None,
            prev_item: None,
            nb_items: None,
        }
    }
}

/// One entry of a page: a separator with a child page (internal pages) or a row identifier
/// (leaf pages).
#[derive(Debug, PartialEq)]
pub struct Item {
    pub value: String,
    pub child: Option<Box<Page>>,
    pub pointer: Option<i64>,
    pub obj_id: Option<Tid>,
}

impl Item {
    pub fn new(value: String, child: Option<Box<Page>>, pointer: Option<i64>, obj_id: Option<Tid>) -> (r:
        Self)
        ensures
            r.value == value,
            r.child == child,
            r.pointer == pointer,
            r.obj_id == obj_id,
    {
        Self { value, child, pointer, obj_id }
    }
}

/// Two items are copies of each other: equal fields, and children that are copies.
pub open spec fn same_item(a: Item, b: Item) -> bool
    decreases a, 0int,
{
    &&& a.value == b.value
    &&& a.pointer == b.pointer
    &&& a.obj_id == b.obj_id
    &&& match (a.child, b.child) {
        (Some(x), Some(y)) => same_page(*x, *y),
        (None, None) => true,
        _ => false,
    }
}

/// Two pages are copies of each other: equal fields, and items that are copies.
pub open spec fn same_page(a: Page, b: Page) -> bool
    decreases a, 1int,
{
    &&& a.id == b.id
    &&& a.level == b.level
    &&& a.is_leaf == b.is_leaf
    &&& a.is_root == b.is_root
    &&& a.prev_page_id == b.prev_page_id
    &&& a.next_page_id == b.next_page_id
    &&& a.high_key == b.high_key
    &&& a.nb_items == b.nb_items
    &&& a.items@.len() == b.items@.len()
    &&& forall|i: int| 0 <= i < a.items@.len() ==> same_item(#[trigger] a.items@[i], b.items@[i])
    &&& match (a.prev_item, b.prev_item) {
        (Some(x), Some(y)) => same_item(*x, *y),
        (None, None) => true,
        _ => false,
    }
}

fn copy_item(it: &Item) -> (r: Item)
    ensures
        same_item(*it, r),
    decreases it, 0int,
{
    let child = match &it.child {
        Some(c) => Some(Box::new(copy_page(c))),
        None => None,
    };
    Item { value: it.value.clone(), child, pointer: it.pointer, obj_id: it.obj_id }
}

fn copy_page(p: &Page) -> (r: Page)
    ensures
        same_page(*p, r),
    decreases p, 1int,
{
    let mut items: Vec<Item> = Vec::new();
    let mut i: usize = 0;
    while i < p.items.len()
        invariant
            i <= p.items@.len(),
            items@.len() == i,
            forall|k: int| 0 <= k < i ==> same_item(#[trigger] p.items@[k], items@[k]),
        decreases p.items@.len() - i,
    {
        proof {
            assert(decreases_to!(p.items => p.items[i as int]));
        }
        items.push(copy_item(&p.items[i]));
        i = i + 1;
    }
    let prev_item = match &p.prev_item {
        Some(it) => Some(Box::new(copy_item(it))),
        None => None,
    };
    Page {
        id: p.id,
        level: p.level,
        is_leaf: p.is_leaf,
        is_root: p.is_root,
        items,
        prev_page_id: p.prev_page_id,
        next_page_id: p.next_page_id,
        high_key: p.high_key.clone(),
        prev_item,
        nb_items: p.nb_items,
    }
}

impl Clone for Page {
    fn clone(&self) -> (r: Self)
        ensures
            same_page(*self, r),
    {
        copy_page(self)
    }
}

impl Clone for Item {
    fn clone(&self) -> (r: Self)
        ensures
            same_item(*self, r),
    {
        copy_item(self)
    }
}

/// An item is shaped for a page at `level`: a leaf item carries a row identifier and no
/// child; an internal item carries a child one level below and no row identifier.
pub open spec fn item_wf(it: Item, level: int, is_leaf: bool) -> bool {
    if is_leaf {
        it.child.is_none() && it.obj_id.is_some()
    } else {
        match it.child {
            Some(c) => it.obj_id.is_none() && c.level + 1 == level,
            None => false,
        }
    }
}

/// The page below an item, when there is one, is well formed.
pub open spec fn child_wf(it: Item) -> bool
    decreases it, 0int,
{
    match it.child {
        Some(c) => page_wf(*c),
        None => true,
    }
}

/// A built page: a non-negative level, and every item, the leading down-link included, shaped
/// for the page, with a well-formed page below it. This is the level invariant of the whole
/// subtree.
pub open spec fn page_wf(p: Page) -> bool
    decreases p, 1int,
{
    &&& p.level >= 0
    &&& forall|i: int|
        0 <= i < p.items@.len() ==> #[trigger] item_wf(p.items@[i], p.level as int, p.is_leaf)
    &&& forall|i: int| 0 <= i < p.items@.len() ==> #[trigger] child_wf(p.items@[i])
    &&& match p.prev_item {
        Some(it) => item_wf(*it, p.level as int, p.is_leaf) && child_wf(*it),
        None => true,
    }
}

/// In a well-formed internal page, every item holds a child exactly one level below the page.
pub proof fn lemma_level_invariant(p: Page, i: int)
    requires
        page_wf(p),
        !p.is_leaf,
        0 <= i < p.items@.len(),
    ensures
        p.items@[i].child matches Some(c) && c.level + 1 == p.level,
{
    let it = p.items@[i];
    assert(item_wf(it, p.level as int, p.is_leaf));
}

/// A well-formed leaf page, such as the root of a single-level index, holds no child page in
/// any of its items.
pub proof fn lemma_leaf_page_has_no_children(p: Page)
    requires
        page_wf(p),
        p.is_leaf,
    ensures
        forall|i: int| 0 <= i < p.items@.len() ==> (#[trigger] p.items@[i]).child.is_none(),
        p.prev_item matches Some(it) ==> it.child.is_none(),
{
    assert forall|i: int| 0 <= i < p.items@.len() implies (#[trigger] p.items@[i]).child.is_none() by {
        let it = p.items@[i];
        assert(p.level >= 0);
        assert(item_wf(it, p.level as int, p.is_leaf));
    }
}

/// The key and indexed-column values of one table row, as text.
#[derive(Debug)]
pub struct RowData {
    pub primary_key_data: Option<Vec<String>>,
    pub column_data: Option<Vec<String>>,
    pub byte_values: Option<String>,
}

impl RowData {
    pub fn new(primary_key_data: Vec<String>, column_data: Vec<String>) -> (r: Self)
        ensures
            r.primary_key_data == Some(primary_key_data),
            r.column_data == Some(column_data),
            r.byte_values.is_none(),
    {
        Self {
            primary_key_data: Some(primary_key_data),
            column_data: Some(column_data),
            byte_values: None,
        }
    }

    pub fn new_bytes(byte_values: String) -> (r: Self)
        ensures
            r.primary_key_data.is_none(),
            r.column_data.is_none(),
            r.byte_values == Some(byte_values),
    {
        Self { primary_key_data: None, column_data: None, byte_values: Some(byte_values) }
    }
}

/// The descriptor of an index and of its table, read from the catalog.
#[derive(Debug, PartialEq)]
pub struct IndexInfo {
    pub index_type: String,
    pub columns: Vec<String>,
    pub table_name: String,
    pub table_oid: u32,
    pub primary_indexed_attributes: Vec<String>,
}

/// The descriptor that a lookup of an unknown index name gives: every field empty or zero.
pub open spec fn info_is_empty(i: IndexInfo) -> bool {
    &&& i.index_type@.len() == 0
    &&& i.columns@.len() == 0
    &&& i.table_name@.len() == 0
    &&& i.table_oid == 0
    &&& i.primary_indexed_attributes@.len() == 0
}

impl IndexInfo {
    /// Whether this is the descriptor of an index name that resolved to nothing.
    pub fn is_empty(&self) -> (r: bool)
        ensures
            r == info_is_empty(*self),
    {
        self.index_type.as_str().is_empty() && self.columns.len() == 0
            && self.table_name.as_str().is_empty() && self.table_oid == 0
            && self.primary_indexed_attributes.len() == 0
    }
}

/// The reconstructed index.
#[derive(Debug)]
pub struct Tree {
    pub metadata_page: Option<MetadataPage>,
    pub root: Page,
    pub index_name: String,
    pub table_name: String,
    pub columns: Vec<String>,
    pub index_type: Option<String>,
}

impl Tree {
    pub fn new(metadata_page: MetadataPage, root: Page, index_name: String, index_info: Rc<
        IndexInfo,
    >) -> (r: Self)
        ensures
            r.metadata_page == Some(metadata_page),
            r.root == root,
            r.index_name == index_name,
            r.table_name == index_info.table_name,
            r.columns@ == index_info.columns@,
            r.index_type.is_some() && r.index_type.unwrap()@ == "btree"@,
    {
        Self {
            metadata_page: Some(metadata_page),
            root,
            index_name,
            table_name: index_info.table_name.clone(),
            columns: index_info.columns.clone(),
            index_type: Some(String::from_str("btree")),
        }
    }
}

} // verus!
