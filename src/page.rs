//! Assembling one page from its statistics, its raw items and, below it, its children or the
//! rows its identifiers resolve to.

use vstd::prelude::*;
use crate::model::{Item, Page, RowData};
use crate::tid::Tid;

verus! {

/// What the page-statistics lookup reports of one page.
#[derive(Debug)]
pub struct PageStats {
    pub block_number: i64,
    /// The page kind code: `l` leaf, `r` root, `i` internal, others for deleted or ignored pages.
    pub page_type: String,
    pub level: i64,
    /// The right sibling's block number, 0 when there is none.
    pub next_page_id: i64,
    /// The left sibling's block number, 0 when there is none.
    pub prev_page_id: i64,
}

/// One entry of the page-items lookup: its identifier and its data, when it has any.
#[derive(Debug)]
pub struct RawItem {
    pub ctid: Tid,
    pub data: Option<String>,
}

/// A sibling link as the statistics give it: block 0 is the metapage, so 0 means none.
pub open spec fn sibling_of(block: i64) -> Option<i64> {
    if block == 0 {
        None
    } else {
        Some(block)
    }
}

/// `p` is the page header that statistics `s` describe: no items yet.
pub open spec fn is_header_of(p: Page, s: PageStats) -> bool {
    &&& p.id == s.block_number
    &&& p.level == s.level
    &&& p.is_leaf == (s.page_type@ == "l"@)
    &&& p.is_root == (s.page_type@ == "r"@)
    &&& p.items@.len() == 0
    &&& p.prev_page_id == sibling_of(s.prev_page_id)
    &&& p.next_page_id == sibling_of(s.next_page_id)
    &&& p.high_key.is_none()
    &&& p.prev_item.is_none()
    &&& p.nb_items.is_none()
}

/// The page's first item is its high key: it has a right sibling.
pub open spec fn takes_high_key(p: Page) -> bool {
    p.next_page_id.is_some()
}

/// The next item is the leading down-link: the page has a left sibling, or it is the leftmost
/// internal page of its level.
pub open spec fn takes_prev_item(p: Page) -> bool {
    p.prev_page_id.is_some() || (p.prev_page_id.is_none() && !p.is_root && !p.is_leaf)
}

/// How many leading items are sentinels.
pub open spec fn sentinel_count(p: Page) -> int {
    (if takes_high_key(p) {
        1int
    } else {
        0int
    }) + (if takes_prev_item(p) {
        1int
    } else {
        0int
    })
}

/// The raw separator of an item, empty when it has none.
pub open spec fn raw_text(r: RawItem) -> Seq<char> {
    match r.data {
        Some(d) => d@,
        None => Seq::empty(),
    }
}

/// The first row of `rows`, from position `from` on, resolved for `t`.
pub open spec fn row_from(rows: Seq<(Tid, RowData)>, t: Tid, from: int) -> Option<RowData>
    decreases rows.len() - from,
{
    if from < 0 || from >= rows.len() {
        None
    } else if rows[from].0 == t {
        Some(rows[from].1)
    } else {
        row_from(rows, t, from + 1)
    }
}

pub open spec fn row_for(rows: Seq<(Tid, RowData)>, t: Tid) -> Option<RowData> {
    row_from(rows, t, 0)
}

/// A leaf item's separator: the resolved row's encoded value when the row was found and has
/// one, else the raw separator.
pub open spec fn leaf_text(r: RawItem, rows: Seq<(Tid, RowData)>) -> Seq<char> {
    match row_for(rows, r.ctid) {
        Some(row) => match row.byte_values {
            Some(v) => v@,
            None => raw_text(r),
        },
        None => raw_text(r),
    }
}

/// The item built for raw item `r` of a leaf page.
pub open spec fn is_leaf_item(it: Item, r: RawItem, rows: Seq<(Tid, RowData)>) -> bool {
    &&& it.value@ == leaf_text(r, rows)
    &&& it.child.is_none()
    &&& it.pointer == Some(r.ctid.block_number as i64)
    &&& it.obj_id == Some(r.ctid)
}

/// The item built for raw item `r` of an internal page, over the child fetched for it.
pub open spec fn is_internal_item(it: Item, r: RawItem, child: Page) -> bool {
    &&& it.value@ == raw_text(r)
    &&& it.child == Some(Box::new(child))
    &&& it.pointer == Some(r.ctid.block_number as i64)
    &&& it.obj_id.is_none()
}

impl PageStats {
    /// The header of the page these statistics describe.
    pub fn header(&self) -> (p: Page)
        ensures
            is_header_of(p, *self),
    {
        proof {
            reveal_strlit("l");
            reveal_strlit("r");
        }
        let is_leaf = self.page_type == String::from_str("l");
        let is_root = self.page_type == String::from_str("r");
        let prev_page_id = if self.prev_page_id == 0 {
            None
        } else {
            Some(self.prev_page_id)
        };
        let next_page_id = if self.next_page_id == 0 {
            None
        } else {
            Some(self.next_page_id)
        };
        Page {
            id: self.block_number,
            level: self.level,
            is_leaf,
            is_root,
            items: Vec::new(),
            prev_page_id,
            next_page_id,
            high_key: None,
            prev_item: None,
            nb_items: None,
        }
    }
}

impl RawItem {
    /// The raw separator, or the empty string.
    pub fn text(&self) -> (r: String)
        ensures
            r@ == raw_text(*self),
    {
        match &self.data {
            Some(d) => d.clone(),
            None => String::new(),
        }
    }
}

/// The row that `rows` resolves `t` to: the first entry for it.
pub fn find_row<'a>(rows: &'a Vec<(Tid, RowData)>, t: Tid) -> (r: Option<&'a RowData>)
    ensures
        match r {
            Some(row) => row_for(rows@, t) == Some(*row),
            None => row_for(rows@, t).is_none(),
        },
{
    let mut i: usize = 0;
    while i < rows.len()
        invariant
            i <= rows@.len(),
            row_from(rows@, t, 0) == row_from(rows@, t, i as int),
        decreases rows@.len() - i,
    {
        if rows[i].0 == t {
            return Some(&rows[i].1);
        }
        i = i + 1;
    }
    None
}

/// The identifiers of a leaf page's raw items, in order: what its rows are looked up by.
pub fn leaf_tids(raw: &Vec<RawItem>) -> (r: Vec<Tid>)
    ensures
        r@.len() == raw@.len(),
        forall|i: int| 0 <= i < raw@.len() ==> #[trigger] r@[i] == raw@[i].ctid,
{
    let mut r: Vec<Tid> = Vec::new();
    let mut i: usize = 0;
    while i < raw.len()
        invariant
            i <= raw@.len(),
            r@.len() == i,
            forall|k: int| 0 <= k < i ==> #[trigger] r@[k] == raw@[k].ctid,
        decreases raw@.len() - i,
    {
        r.push(raw[i].ctid);
        i = i + 1;
    }
    r
}

/// One item per raw item of a leaf page, its separator taken from the resolved row when there
/// is one.
pub fn leaf_items(raw: &Vec<RawItem>, rows: &Vec<(Tid, RowData)>) -> (r: Vec<Item>)
    ensures
        r@.len() == raw@.len(),
        forall|i: int| 0 <= i < raw@.len() ==> is_leaf_item(#[trigger] r@[i], raw@[i], rows@),
{
    let mut r: Vec<Item> = Vec::new();
    let mut i: usize = 0;
    while i < raw.len()
        invariant
            i <= raw@.len(),
            r@.len() == i,
            forall|k: int| 0 <= k < i ==> is_leaf_item(#[trigger] r@[k], raw@[k], rows@),
        decreases raw@.len() - i,
    {
        let ri = &raw[i];
        let value = match find_row(rows, ri.ctid) {
            Some(row) => match &row.byte_values {
                Some(v) => v.clone(),
                None => ri.text(),
            },
            None => ri.text(),
        };
        r.push(Item::new(value, None, Some(ri.ctid.block_number as i64), Some(ri.ctid)));
        i = i + 1;
    }
    r
}

/// One item per raw item of an internal page, each over the child page fetched for it.
pub fn internal_items(raw: &Vec<RawItem>, children: Vec<Page>) -> (r: Vec<Item>)
    requires
        children@.len() == raw@.len(),
    ensures
        r@.len() == raw@.len(),
        forall|i: int|
            0 <= i < raw@.len() ==> is_internal_item(#[trigger] r@[i], raw@[i], children@[i]),
{
    let ghost all = children@;
    let mut rest = children;
    let mut r: Vec<Item> = Vec::new();
    let mut i: usize = 0;
    while i < raw.len()
        invariant
            i <= raw@.len() == all.len(),
            r@.len() == i,
            rest@ == all.skip(i as int),
            forall|k: int| 0 <= k < i ==> is_internal_item(#[trigger] r@[k], raw@[k], all[k]),
        decreases raw@.len() - i,
    {
        let child = rest.remove(0);
        let ri = &raw[i];
        r.push(
            Item::new(ri.text(), Some(Box::new(child)), Some(ri.ctid.block_number as i64), None),
        );
        i = i + 1;
        assert(rest@ =~= all.skip(i as int));
    }
    r
}

/// Takes the sentinel items off the front of a page's items, in this order: the high key when
/// the page has a right sibling, then the leading down-link when the page has a left sibling
/// or is the leftmost internal page of its level. The page must hold enough items for them.
pub fn finish_page(header: Page, items: Vec<Item>) -> (p: Page)
    requires
        header.items@.len() == 0,
        items@.len() >= sentinel_count(header),
    ensures
        ({
            let h: int = if takes_high_key(header) {
                1
            } else {
                0
            };
            &&& p.id == header.id
            &&& p.level == header.level
            &&& p.is_leaf == header.is_leaf
            &&& p.is_root == header.is_root
            &&& p.prev_page_id == header.prev_page_id
            &&& p.next_page_id == header.next_page_id
            &&& p.items@ == items@.skip(sentinel_count(header))
            &&& p.high_key == (if takes_high_key(header) {
                Some(items@[0].value)
            } else {
                None
            })
            &&& p.prev_item == (if takes_prev_item(header) {
                Some(Box::new(items@[h]))
            } else {
                None
            })
            &&& p.nb_items == (if items@.len() <= i32::MAX {
                Some(items@.len() as i32)
            } else {
                None
            })
        }),
        p.items@.len() + (if p.high_key.is_some() {
            1int
        } else {
            0int
        }) + (if p.prev_item.is_some() {
            1int
        } else {
            0int
        }) == items@.len(),
        header.next_page_id.is_some() && header.prev_page_id.is_none() && (header.is_root
            || header.is_leaf) ==> p.items@.len() == items@.len() - 1,
        takes_high_key(header) && takes_prev_item(header) ==> p.items@.len() == items@.len() - 2,
{
    let take_high = header.next_page_id.is_some();
    let take_prev = header.prev_page_id.is_some() || (header.prev_page_id.is_none()
        && !header.is_root && !header.is_leaf);
    let nb_items = if items.len() <= i32::MAX as usize {
        Some(items.len() as i32)
    } else {
        None
    };
    let ghost all = items@;
    let mut items = items;
    let high_key = if take_high {
        let first = items.remove(0);
        Some(first.value)
    } else {
        None
    };
    let prev_item = if take_prev {
        Some(Box::new(items.remove(0)))
    } else {
        None
    };
    assert(items@ =~= all.skip(sentinel_count(header)));
    Page {
        id: header.id,
        level: header.level,
        is_leaf: header.is_leaf,
        is_root: header.is_root,
        items,
        prev_page_id: header.prev_page_id,
        next_page_id: header.next_page_id,
        high_key,
        prev_item,
        nb_items,
    }
}

} // verus!
