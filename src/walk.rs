//! The depth-first walk that builds a tree: it says which lookup comes next, takes what the
//! lookup returned, and assembles each page once everything below it is in.

use std::rc::Rc;
use vstd::prelude::*;
use crate::error::BuildError;
use crate::model::{info_is_empty, page_wf, IndexInfo, Item, MetadataPage, Page, RowData, Tree};
use crate::page::{
    finish_page, internal_items, is_internal_item, is_leaf_item, leaf_items, leaf_text, leaf_tids,
    raw_text, sentinel_count, sibling_of, takes_high_key, takes_prev_item, PageStats, RawItem,
};
use crate::tid::Tid;

verus! {

/// What the walk was handed for each page it fetched: its statistics and its raw items.
pub type Fetched = Map<i64, (PageStats, Seq<RawItem>)>;

/// The rows handed to the walk for each leaf page whose identifiers it resolved.
pub type Resolved = Map<i64, Seq<(Tid, RowData)>>;

/// The lookup that the walk needs next.
#[derive(Debug)]
pub enum Request {
    /// The statistics and the raw items of this page.
    Page { page_id: i64 },
    /// The rows of the leaf page being built, by their identifiers.
    Rows { tids: Vec<Tid> },
    /// The walk is over: the tree can be taken.
    Done,
}

/// `p` carries what statistics `s` say of a page; `root` marks the page the walk started at.
pub open spec fn header_from(p: Page, s: PageStats, root: bool) -> bool {
    &&& p.id == s.block_number
    &&& p.level == s.level
    &&& p.is_leaf == (s.page_type@ == "l"@)
    &&& p.is_root == (root || s.page_type@ == "r"@)
    &&& p.prev_page_id == sibling_of(s.prev_page_id)
    &&& p.next_page_id == sibling_of(s.next_page_id)
}

/// The separator an item gets from raw item `r`.
pub open spec fn item_text(r: RawItem, leaf: bool, rows: Seq<(Tid, RowData)>) -> Seq<char> {
    if leaf {
        leaf_text(r, rows)
    } else {
        raw_text(r)
    }
}

/// `it` is the item built from raw item `r` of page `id` at `level`: over the resolved rows on
/// a leaf, over the page built for the pointed-to block on an internal page.
pub open spec fn built_item(
    it: Item,
    r: RawItem,
    leaf: bool,
    id: i64,
    f: Fetched,
    rs: Resolved,
    level: int,
) -> bool
    decreases level, 0int,
{
    if leaf {
        is_leaf_item(it, r, rs[id])
    } else if level <= 0 {
        false
    } else {
        &&& it.value@ == raw_text(r)
        &&& it.pointer == Some(r.ctid.block_number as i64)
        &&& it.obj_id.is_none()
        &&& match it.child {
            Some(c) => c.id == r.ctid.block_number as i64 && built_from(*c, f, rs, level - 1, false),
            None => false,
        }
    }
}

/// `p` is the page at `level` built from what was fetched for its id: its header from its
/// statistics, its leading raw items taken as sentinels, every other raw item an item in order,
/// each over the page below it or over the resolved rows.
pub open spec fn built_from(p: Page, f: Fetched, rs: Resolved, level: int, root: bool) -> bool
    decreases level, 1int,
{
    if level < 0 || !f.contains_key(p.id) {
        false
    } else {
        let s = f[p.id].0;
        let raw = f[p.id].1;
        let n = sentinel_count(p);
        let h: int = if takes_high_key(p) {
            1
        } else {
            0
        };
        &&& header_from(p, s, root)
        &&& p.level == level
        &&& raw.len() >= n
        &&& p.items@.len() == raw.len() - n
        &&& p.nb_items == (if raw.len() <= i32::MAX {
            Some(raw.len() as i32)
        } else {
            None
        })
        &&& (p.is_leaf && raw.len() > 0 ==> rs.contains_key(p.id))
        &&& match p.high_key {
            Some(k) => takes_high_key(p) && k@ == item_text(raw[0], p.is_leaf, rs[p.id]),
            None => !takes_high_key(p),
        }
        &&& forall|i: int|
            0 <= i < p.items@.len() ==> built_item(
                #[trigger] p.items@[i],
                raw[i + n],
                p.is_leaf,
                p.id,
                f,
                rs,
                level,
            )
        &&& match p.prev_item {
            Some(it) => takes_prev_item(p) && built_item(*it, raw[h], p.is_leaf, p.id, f, rs, level),
            None => !takes_prev_item(p),
        }
    }
}

/// A built page stays built when more pages are fetched or more rows resolved.
pub proof fn lemma_built_grows(
    p: Page,
    f1: Fetched,
    rs1: Resolved,
    f2: Fetched,
    rs2: Resolved,
    level: int,
    root: bool,
)
    requires
        built_from(p, f1, rs1, level, root),
        f1.submap_of(f2),
        rs1.submap_of(rs2),
    ensures
        built_from(p, f2, rs2, level, root),
    decreases level,
{
    let raw = f1[p.id].1;
    let n = sentinel_count(p);
    assert(f1.dom().contains(p.id) && f2.dom().contains(p.id));
    assert(f2[p.id] == f1[p.id]);
    if p.is_leaf && raw.len() > 0 {
        assert(rs1.dom().contains(p.id) && rs2.dom().contains(p.id));
        assert(rs2[p.id] == rs1[p.id]);
    }
    assert forall|i: int| 0 <= i < p.items@.len() implies built_item(
        #[trigger] p.items@[i],
        raw[i + n],
        p.is_leaf,
        p.id,
        f2,
        rs2,
        level,
    ) by {
        assert(built_item(p.items@[i], raw[i + n], p.is_leaf, p.id, f1, rs1, level));
        if !p.is_leaf {
            let c = p.items@[i].child.unwrap();
            lemma_built_grows(*c, f1, rs1, f2, rs2, level - 1, false);
        }
    }
    if let Some(it) = p.prev_item {
        if !p.is_leaf {
            let c = it.child.unwrap();
            lemma_built_grows(*c, f1, rs1, f2, rs2, level - 1, false);
        }
    }
}

/// How many children each open internal page has and how many raw items it holds, outermost
/// first.
pub type Shape = Seq<(int, int)>;

/// The shape after a finished page is hung: it becomes the next child of the innermost open
/// page, and every open page that thereby gets its last child is finished and hung in turn.
/// `None` when the root is finished.
pub open spec fn hung(s: Shape) -> Option<Shape>
    decreases s.len(),
{
    if s.len() == 0 {
        None
    } else if s.last().0 + 1 < s.last().1 {
        Some(s.drop_last().push((s.last().0 + 1, s.last().1)))
    } else {
        hung(s.drop_last())
    }
}

/// The sentinel items a page with statistics `s` has; `root` marks the page the walk started
/// at.
pub open spec fn stats_sentinels(s: PageStats, root: bool) -> int {
    (if s.next_page_id != 0 {
        1int
    } else {
        0int
    }) + (if s.prev_page_id != 0 || (!(root || s.page_type@ == "r"@) && s.page_type@ != "l"@) {
        1int
    } else {
        0int
    })
}

/// An internal page whose children are being fetched, in the order of its raw items.
struct Frame {
    header: Page,
    raw: Vec<RawItem>,
    children: Vec<Page>,
}

/// A leaf page waiting for its rows.
struct PendingLeaf {
    header: Page,
    raw: Vec<RawItem>,
}

/// A tree being built, depth-first, from the root the metadata page names.
pub struct TreeWalk {
    index_name: String,
    metadata: MetadataPage,
    root_id: i64,
    root_level: i64,
    frames: Vec<Frame>,
    leaf: Option<PendingLeaf>,
    root: Option<Page>,
    visited: Vec<i64>,
    fetched: Ghost<Fetched>,
    resolved: Ghost<Resolved>,
}

/// An open page's header as its statistics give it, before its items are in.
spec fn header_wf(p: Page, f: Fetched, root: bool) -> bool {
    &&& f.contains_key(p.id)
    &&& header_from(p, f[p.id].0, root)
    &&& p.items@.len() == 0
    &&& p.high_key.is_none()
    &&& p.prev_item.is_none()
    &&& p.nb_items.is_none()
    &&& p.level >= 0
    &&& p.is_leaf == (p.level == 0)
    &&& f[p.id].1.len() >= sentinel_count(p)
}

spec fn frame_wf(fr: Frame, f: Fetched, rs: Resolved, root: bool) -> bool {
    &&& !fr.header.is_leaf
    &&& header_wf(fr.header, f, root)
    &&& fr.raw@ == f[fr.header.id].1
    &&& fr.children@.len() < fr.raw@.len()
    &&& forall|i: int|
        0 <= i < fr.children@.len() ==> {
            &&& page_wf(#[trigger] fr.children@[i])
            &&& fr.children@[i].level == fr.header.level - 1
            &&& fr.children@[i].id == fr.raw@[i].ctid.block_number as i64
            &&& built_from(fr.children@[i], f, rs, fr.header.level - 1, false)
        }
}

spec fn frames_wf(frames: Seq<Frame>, root_level: i64, root_id: i64, f: Fetched, rs: Resolved) -> bool {
    &&& forall|k: int| 0 <= k < frames.len() ==> frame_wf(#[trigger] frames[k], f, rs, k == 0)
    &&& forall|k: int|
        0 < k < frames.len() ==> #[trigger] frames[k].header.level == frames[k - 1].header.level
            - 1
    &&& forall|k: int|
        0 < k < frames.len() ==> #[trigger] frames[k].header.id == frames[k - 1].raw@[frames[k
            - 1].children@.len() as int].ctid.block_number as i64
    &&& frames.len() > 0 ==> frames[0].header.level == root_level && frames[0].header.id
        == root_id
}

/// The level that the page fetched next, or the page finished next, must have.
spec fn level_below(frames: Seq<Frame>, root_level: i64) -> int {
    if frames.len() == 0 {
        root_level as int
    } else {
        frames.last().header.level - 1
    }
}

/// The id that the page fetched next, or the page finished next, must have.
spec fn id_below(frames: Seq<Frame>, root_id: i64) -> i64 {
    if frames.len() == 0 {
        root_id
    } else {
        let fr = frames.last();
        fr.raw@[fr.children@.len() as int].ctid.block_number as i64
    }
}

spec fn shape_of(frames: Seq<Frame>) -> Shape {
    frames.map_values(|fr: Frame| (fr.children@.len() as int, fr.raw@.len() as int))
}

impl TreeWalk {
    /// The walk's bookkeeping is consistent: open pages descend one level at a time along the
    /// down-links, and every finished page is well formed and built from what was fetched.
    pub closed spec fn wf(&self) -> bool {
        let f = self.fetched@;
        let rs = self.resolved@;
        &&& self.root_id == self.metadata.root
        &&& self.root_level == self.metadata.level
        &&& frames_wf(self.frames@, self.root_level, self.root_id, f, rs)
        &&& forall|id: i64| #[trigger] f.contains_key(id) <==> self.visited@.contains(id)
        &&& rs.dom().subset_of(f.dom())
        &&& match self.leaf {
            Some(l) => {
                &&& self.root.is_none()
                &&& l.header.is_leaf
                &&& header_wf(l.header, f, self.frames@.len() == 0)
                &&& l.raw@ == f[l.header.id].1
                &&& l.raw@.len() > 0
                &&& l.header.level == level_below(self.frames@, self.root_level)
                &&& l.header.id == id_below(self.frames@, self.root_id)
                &&& !rs.contains_key(l.header.id)
            },
            None => true,
        }
        &&& match self.root {
            Some(r) => {
                &&& self.frames@.len() == 0
                &&& page_wf(r)
                &&& r.level == self.root_level
                &&& r.id == self.root_id
                &&& r.is_root
                &&& built_from(r, f, rs, self.root_level as int, true)
            },
            None => true,
        }
    }

    /// The walk waits for a page.
    pub closed spec fn awaits_page(&self) -> bool {
        self.root.is_none() && self.leaf.is_none()
    }

    /// The walk waits for the rows of a leaf page.
    pub closed spec fn awaits_rows(&self) -> bool {
        self.leaf.is_some()
    }

    /// The walk is over.
    pub closed spec fn is_done(&self) -> bool {
        self.root.is_some()
    }

    /// The name of the index walked.
    pub closed spec fn index_name(&self) -> String {
        self.index_name
    }

    /// Everything fetched so far, by page id.
    pub closed spec fn fetched(&self) -> Fetched {
        self.fetched@
    }

    /// The rows resolved so far, by leaf page id.
    pub closed spec fn resolved(&self) -> Resolved {
        self.resolved@
    }

    /// Children fetched and raw items held by each open internal page, outermost first.
    pub closed spec fn shape(&self) -> Shape {
        shape_of(self.frames@)
    }

    /// The page the walk waits for: the root, or the child that the next raw item of the
    /// innermost open internal page points to.
    pub closed spec fn pending_page_id(&self) -> i64 {
        id_below(self.frames@, self.root_id)
    }

    /// The level that the page the walk waits for must have.
    pub closed spec fn level_below_spec(&self) -> int {
        level_below(self.frames@, self.root_level)
    }

    /// Whether the page the walk waits for is the root.
    pub closed spec fn at_root(&self) -> bool {
        self.frames@.len() == 0
    }

    /// The identifiers of the raw items of the leaf page that waits for its rows.
    pub closed spec fn pending_tids(&self) -> Seq<Tid> {
        match self.leaf {
            Some(l) => l.raw@.map_values(|r: RawItem| r.ctid),
            None => Seq::empty(),
        }
    }

    /// The header of the leaf page that waits for its rows.
    pub closed spec fn pending_leaf(&self) -> Page {
        self.leaf.unwrap().header
    }

    /// The metadata page the walk started from.
    pub closed spec fn metadata_spec(&self) -> MetadataPage {
        self.metadata
    }

    /// The finished root page.
    pub closed spec fn root_page(&self) -> Page {
        self.root.unwrap()
    }

    /// Starts a walk of index `index_name` at the root that the metadata page names. An empty
    /// descriptor means the index name resolved to nothing: no page is fetched.
    pub fn start(index_name: String, metadata: MetadataPage, info: &IndexInfo) -> (r: Result<
        TreeWalk,
        BuildError,
    >)
        ensures
            info_is_empty(*info) ==> r == Err::<TreeWalk, BuildError>(BuildError::IndexNotFound),
            !info_is_empty(*info) ==> (r matches Ok(w) && w.wf() && w.awaits_page()
                && w.pending_page_id() == metadata.root && w.level_below_spec() == metadata.level
                && w.at_root() && w.metadata_spec() == metadata && w.index_name() == index_name
                && w.fetched() == Map::<i64, (PageStats, Seq<RawItem>)>::empty() && w.resolved()
                == Map::<i64, Seq<(Tid, RowData)>>::empty()),
    {
        if info.is_empty() {
            return Err(BuildError::IndexNotFound);
        }
        let w = TreeWalk {
            index_name,
            root_id: metadata.root,
            root_level: metadata.level,
            metadata,
            frames: Vec::new(),
            leaf: None,
            root: None,
            visited: Vec::new(),
            fetched: Ghost(Map::empty()),
            resolved: Ghost(Map::empty()),
        };
        Ok(w)
    }

    fn next_page_id(&self) -> (id: i64)
        requires
            self.wf(),
            self.awaits_page(),
        ensures
            id == self.pending_page_id(),
    {
        if self.frames.len() == 0 {
            self.root_id
        } else {
            let fr = &self.frames[self.frames.len() - 1];
            assert(frame_wf(self.frames@[self.frames@.len() - 1], self.fetched@, self.resolved@, self.frames@.len() - 1 == 0));
            fr.raw[fr.children.len()].ctid.block_number as i64
        }
    }

    fn level_below(&self) -> (l: i64)
        requires
            frames_wf(self.frames@, self.root_level, self.root_id, self.fetched@, self.resolved@),
        ensures
            l == level_below(self.frames@, self.root_level),
    {
        if self.frames.len() == 0 {
            self.root_level
        } else {
            assert(frame_wf(self.frames@[self.frames@.len() - 1], self.fetched@, self.resolved@, self.frames@.len() - 1 == 0));
            self.frames[self.frames.len() - 1].header.level - 1
        }
    }

    /// The lookup the walk needs next.
    pub fn next_request(&self) -> (r: Request)
        requires
            self.wf(),
        ensures
            self.is_done() ==> r is Done,
            self.awaits_rows() ==> (r matches Request::Rows { tids } && tids@
                == self.pending_tids()),
            self.awaits_page() ==> r == (Request::Page { page_id: self.pending_page_id() }),
    {
        if self.root.is_some() {
            Request::Done
        } else {
            match &self.leaf {
                Some(l) => {
                    let tids = leaf_tids(&l.raw);
                    assert(tids@ =~= self.pending_tids());
                    Request::Rows { tids }
                },
                None => Request::Page { page_id: self.next_page_id() },
            }
        }
    }
}

fn contains_id(v: &Vec<i64>, x: i64) -> (r: bool)
    ensures
        r == v@.contains(x),
{
    let mut i: usize = 0;
    while i < v.len()
        invariant
            i <= v@.len(),
            forall|k: int| 0 <= k < i ==> v@[k] != x,
        decreases v@.len() - i,
    {
        if v[i] == x {
            return true;
        }
        i = i + 1;
    }
    false
}

proof fn lemma_frames_grow(
    frames: Seq<Frame>,
    root_level: i64,
    root_id: i64,
    f1: Fetched,
    rs1: Resolved,
    f2: Fetched,
    rs2: Resolved,
)
    requires
        frames_wf(frames, root_level, root_id, f1, rs1),
        f1.submap_of(f2),
        rs1.submap_of(rs2),
    ensures
        frames_wf(frames, root_level, root_id, f2, rs2),
{
    assert forall|k: int| 0 <= k < frames.len() implies frame_wf(#[trigger] frames[k], f2, rs2, k == 0) by {
        let fr = frames[k];
        assert(frame_wf(fr, f1, rs1, k == 0));
        assert(f1.dom().contains(fr.header.id) && f2.dom().contains(fr.header.id));
        assert(f2[fr.header.id] == f1[fr.header.id]);
        assert forall|i: int| 0 <= i < fr.children@.len() implies {
            &&& page_wf(#[trigger] fr.children@[i])
            &&& fr.children@[i].level == fr.header.level - 1
            &&& fr.children@[i].id == fr.raw@[i].ctid.block_number as i64
            &&& built_from(fr.children@[i], f2, rs2, fr.header.level - 1, false)
        } by {
            lemma_built_grows(fr.children@[i], f1, rs1, f2, rs2, fr.header.level - 1, false);
        }
    }
}

/// The page finished from an open internal page once all its children are in is built from
/// what was fetched for it.
proof fn lemma_internal_built(
    fr: Frame,
    items: Seq<Item>,
    p: Page,
    f: Fetched,
    rs: Resolved,
    root: bool,
)
    requires
        !fr.header.is_leaf,
        header_wf(fr.header, f, root),
        fr.raw@ == f[fr.header.id].1,
        fr.children@.len() == fr.raw@.len(),
        forall|i: int| 0 <= i < fr.children@.len() ==> {
            &&& page_wf(#[trigger] fr.children@[i])
            &&& fr.children@[i].level == fr.header.level - 1
            &&& fr.children@[i].id == fr.raw@[i].ctid.block_number as i64
            &&& built_from(fr.children@[i], f, rs, fr.header.level - 1, false)
        },
        items.len() == fr.raw@.len(),
        forall|i: int|
            0 <= i < fr.raw@.len() ==> is_internal_item(#[trigger] items[i], fr.raw@[i], fr.children@[i]),
        ({
            let header = fr.header;
            let h: int = if takes_high_key(header) {
                1
            } else {
                0
            };
            &&& p.id == header.id
            &&& p.level == header.level
            &&& p.is_leaf == header.is_leaf
            &&& p.is_root == header.is_root
            &&& p.prev_page_id == header.prev_page_id
            &&& p.next_page_id == header.next_page_id
            &&& p.items@ == items.skip(sentinel_count(header))
            &&& p.high_key == (if takes_high_key(header) {
                Some(items[0].value)
            } else {
                None
            })
            &&& p.prev_item == (if takes_prev_item(header) {
                Some(Box::new(items[h]))
            } else {
                None
            })
            &&& p.nb_items == (if items.len() <= i32::MAX {
                Some(items.len() as i32)
            } else {
                None
            })
        }),
    ensures
        built_from(p, f, rs, fr.header.level as int, root),
        page_wf(p),
{
    let header = fr.header;
    let raw = fr.raw@;
    let n = sentinel_count(header);
    let h: int = if takes_high_key(header) {
        1
    } else {
        0
    };
    assert(sentinel_count(p) == n);
    assert forall|i: int| 0 <= i < p.items@.len() implies built_item(
        #[trigger] p.items@[i],
        raw[i + n],
        p.is_leaf,
        p.id,
        f,
        rs,
        p.level as int,
    ) by {
        assert(p.items@[i] == items[i + n]);
        assert(is_internal_item(items[i + n], raw[i + n], fr.children@[i + n]));
    }
    assert forall|i: int| 0 <= i < p.items@.len() implies #[trigger] crate::model::item_wf(
        p.items@[i],
        p.level as int,
        p.is_leaf,
    ) by {
        assert(p.items@[i] == items[i + n]);
        assert(is_internal_item(items[i + n], raw[i + n], fr.children@[i + n]));
    }
    assert forall|i: int| 0 <= i < p.items@.len() implies #[trigger] crate::model::child_wf(
        p.items@[i],
    ) by {
        assert(p.items@[i] == items[i + n]);
        assert(is_internal_item(items[i + n], raw[i + n], fr.children@[i + n]));
    }
    if takes_prev_item(header) {
        assert(is_internal_item(items[h], raw[h], fr.children@[h]));
    }
    if takes_high_key(header) {
        assert(is_internal_item(items[0], raw[0], fr.children@[0]));
    }
}

proof fn lemma_hang_here(
    before: Seq<Frame>,
    fr0: Frame,
    fr: Frame,
    page: Page,
    after: Seq<Frame>,
    root_level: i64,
    root_id: i64,
    f: Fetched,
    rs: Resolved,
)
    requires
        frames_wf(before, root_level, root_id, f, rs),
        before.len() > 0,
        fr0 == before.last(),
        fr.header == fr0.header,
        fr.raw == fr0.raw,
        fr.children@ == fr0.children@.push(page),
        fr.children@.len() < fr.raw@.len(),
        page_wf(page),
        page.level == level_below(before, root_level),
        page.id == id_below(before, root_id),
        built_from(page, f, rs, page.level as int, before.len() == 0),
        after == before.drop_last().push(fr),
    ensures
        frames_wf(after, root_level, root_id, f, rs),
        hung(shape_of(before)) == Some(shape_of(after)),
{
    assert(frame_wf(fr0, f, rs, before.len() - 1 == 0));
    assert forall|k: int| 0 <= k < after.len() implies frame_wf(#[trigger] after[k], f, rs, k == 0) by {
        if k < after.len() - 1 {
            assert(after[k] == before[k]);
        } else {
            assert forall|i: int| 0 <= i < fr.children@.len() implies {
                &&& page_wf(#[trigger] fr.children@[i])
                &&& fr.children@[i].level == fr.header.level - 1
                &&& fr.children@[i].id == fr.raw@[i].ctid.block_number as i64
                &&& built_from(fr.children@[i], f, rs, fr.header.level - 1, false)
            } by {
                if i < fr.children@.len() - 1 {
                    assert(fr.children@[i] == fr0.children@[i]);
                }
            }
        }
    }
    assert forall|k: int| 0 < k < after.len() implies #[trigger] after[k].header.level == after[k
        - 1].header.level - 1 by {
        assert(after[k - 1] == before[k - 1]);
        assert(after[k].header == before[k].header);
    }
    assert forall|k: int| 0 < k < after.len() implies #[trigger] after[k].header.id == after[k
        - 1].raw@[after[k - 1].children@.len() as int].ctid.block_number as i64 by {
        assert(after[k - 1] == before[k - 1]);
        assert(after[k].header == before[k].header);
    }
    let sb = shape_of(before);
    assert(sb.last() == (fr0.children@.len() as int, fr0.raw@.len() as int));
    assert(sb.drop_last() =~= shape_of(before.drop_last()));
    assert(shape_of(after) =~= sb.drop_last().push((sb.last().0 + 1, sb.last().1)));
}

proof fn lemma_hang_up(
    before: Seq<Frame>,
    fr0: Frame,
    page: Page,
    p: Page,
    root_level: i64,
    root_id: i64,
    f: Fetched,
    rs: Resolved,
)
    requires
        frames_wf(before, root_level, root_id, f, rs),
        before.len() > 0,
        fr0 == before.last(),
        fr0.children@.len() + 1 == fr0.raw@.len(),
        p.id == fr0.header.id,
        p.level == fr0.header.level,
    ensures
        frames_wf(before.drop_last(), root_level, root_id, f, rs),
        p.level == level_below(before.drop_last(), root_level),
        p.id == id_below(before.drop_last(), root_id),
        hung(shape_of(before)) == hung(shape_of(before.drop_last())),
{
    let rest = before.drop_last();
    assert forall|k: int| 0 <= k < rest.len() implies frame_wf(#[trigger] rest[k], f, rs, k == 0) by {
        assert(rest[k] == before[k]);
    }
    assert forall|k: int| 0 < k < rest.len() implies #[trigger] rest[k].header.level == rest[k
        - 1].header.level - 1 by {
        assert(rest[k] == before[k]);
        assert(rest[k - 1] == before[k - 1]);
    }
    assert forall|k: int| 0 < k < rest.len() implies #[trigger] rest[k].header.id == rest[k
        - 1].raw@[rest[k - 1].children@.len() as int].ctid.block_number as i64 by {
        assert(rest[k] == before[k]);
        assert(rest[k - 1] == before[k - 1]);
    }
    if before.len() > 1 {
        assert(before[before.len() - 1].header.id == before[before.len() - 2].raw@[before[
            before.len() - 2].children@.len() as int].ctid.block_number as i64);
        assert(before[before.len() - 1].header.level == before[before.len() - 2].header.level - 1);
        assert(rest.last() == before[before.len() - 2]);
    }
    let sb = shape_of(before);
    assert(sb.last() == (fr0.children@.len() as int, fr0.raw@.len() as int));
    assert(sb.drop_last() =~= shape_of(rest));
}

impl TreeWalk {
    /// Hangs a finished page under the innermost open internal page, finishing every open
    /// page whose last child it completes; the root when none is open.
    #[verifier::rlimit(100)]
    fn attach(&mut self, page: Page)
        requires
            frames_wf(old(self).frames@, old(self).root_level, old(self).root_id, old(self).fetched@, old(self).resolved@),
            forall|id: i64| #[trigger] old(self).fetched@.contains_key(id) <==> old(self).visited@.contains(id),
            old(self).resolved@.dom().subset_of(old(self).fetched@.dom()),
            old(self).leaf.is_none(),
            old(self).root.is_none(),
            old(self).root_id == old(self).metadata.root,
            old(self).root_level == old(self).metadata.level,
            page_wf(page),
            page.level == level_below(old(self).frames@, old(self).root_level),
            page.id == id_below(old(self).frames@, old(self).root_id),
            built_from(page, old(self).fetched@, old(self).resolved@, page.level as int, old(self).frames@.len() == 0),
        ensures
            final(self).wf(),
            final(self).leaf.is_none(),
            final(self).metadata == old(self).metadata,
            final(self).index_name == old(self).index_name,
            final(self).fetched == old(self).fetched,
            final(self).resolved == old(self).resolved,
            match hung(shape_of(old(self).frames@)) {
                None => final(self).root.is_some(),
                Some(x) => final(self).root.is_none() && shape_of(final(self).frames@) == x,
            },
    {
        let ghost shape0 = shape_of(self.frames@);
        let mut page = page;
        loop
            invariant
                frames_wf(self.frames@, self.root_level, self.root_id, self.fetched@, self.resolved@),
                forall|id: i64| #[trigger] self.fetched@.contains_key(id) <==> self.visited@.contains(id),
                self.resolved@.dom().subset_of(self.fetched@.dom()),
                self.leaf.is_none(),
                self.root.is_none(),
                self.root_id == self.metadata.root,
                self.root_level == self.metadata.level,
                page_wf(page),
                page.level == level_below(self.frames@, self.root_level),
                page.id == id_below(self.frames@, self.root_id),
                built_from(page, self.fetched@, self.resolved@, page.level as int, self.frames@.len() == 0),
                self.metadata == old(self).metadata,
                self.index_name == old(self).index_name,
                self.fetched == old(self).fetched,
                self.resolved == old(self).resolved,
                shape0 == shape_of(old(self).frames@),
                hung(shape0) == hung(shape_of(self.frames@)),
            decreases self.frames@.len(),
        {
            if self.frames.len() == 0 {
                proof {
                    assert(shape_of(self.frames@) =~= Seq::<(int, int)>::empty());
                }
                self.root = Some(page);
                return;
            }
            let ghost before = self.frames@;
            let ghost f = self.fetched@;
            let ghost rs = self.resolved@;
            let mut fr = self.frames.pop().unwrap();
            assert(fr == before.last());
            assert(frame_wf(fr, f, rs, before.len() - 1 == 0));
            assert(self.frames@ =~= before.drop_last());
            let ghost c0: int = fr.children@.len() as int;
            let ghost fr0 = fr;
            fr.children.push(page);
            if fr.children.len() < fr.raw.len() {
                self.frames.push(fr);
                proof {
                    assert(self.frames@ =~= before.drop_last().push(fr));
                    lemma_hang_here(before, fr0, fr, page, self.frames@, self.root_level, self.root_id, f, rs);
                }
                return;
            }
            let ghost frame = fr;
            let items = internal_items(&fr.raw, fr.children);
            let ghost all_items = items@;
            let p = finish_page(fr.header, items);
            proof {
                assert(frame_wf(fr0, f, rs, before.len() - 1 == 0));
                assert forall|i: int| 0 <= i < frame.children@.len() implies {
                    &&& page_wf(#[trigger] frame.children@[i])
                    &&& frame.children@[i].level == frame.header.level - 1
                    &&& frame.children@[i].id == frame.raw@[i].ctid.block_number as i64
                    &&& built_from(frame.children@[i], f, rs, frame.header.level - 1, false)
                } by {
                    if i < frame.children@.len() - 1 {
                        assert(frame.children@[i] == fr0.children@[i]);
                    }
                }
                lemma_internal_built(frame, all_items, p, f, rs, before.len() - 1 == 0);
                lemma_hang_up(before, fr0, page, p, self.root_level, self.root_id, f, rs);
            }
            page = p;
        }
    }

    /// Takes the statistics and the raw items of the page the walk waits for. The page is
    /// refused when it is missing, was met before, does not sit where the walk expects it (its
    /// block, its level, a leaf exactly at level 0), or holds fewer raw items than its
    /// sentinels. Otherwise a leaf page with items waits for its rows, an internal page with
    /// items waits for its children, and a page without items is finished and hung at once.
    #[verifier::rlimit(100)]
    pub fn accept_page(&mut self, stats: Option<PageStats>, raw: Vec<RawItem>) -> (r: Result<
        (),
        BuildError,
    >)
        requires
            old(self).wf(),
            old(self).awaits_page(),
        ensures
            final(self).metadata_spec() == old(self).metadata_spec(),
            final(self).index_name() == old(self).index_name(),
            stats.is_none() ==> r == Err::<(), BuildError>(
                BuildError::PageNotFound {
                    index_name: old(self).index_name(),
                    page_id: old(self).pending_page_id(),
                },
            ),
            match stats {
                Some(s) => {
                    let bad = old(self).fetched().contains_key(old(self).pending_page_id())
                        || s.block_number != old(self).pending_page_id() || s.level < 0 || s.level
                        != old(self).level_below_spec() || (s.page_type@ == "l"@) != (s.level == 0)
                        || raw@.len() < stats_sentinels(s, old(self).at_root());
                    &&& bad ==> r == Err::<(), BuildError>(
                        BuildError::InconsistentPage {
                            index_name: old(self).index_name(),
                            page_id: old(self).pending_page_id(),
                        },
                    )
                    &&& !bad ==> {
                        &&& r is Ok
                        &&& final(self).wf()
                        &&& final(self).fetched() == old(self).fetched().insert(
                            s.block_number,
                            (s, raw@),
                        )
                        &&& final(self).resolved() == old(self).resolved()
                        &&& raw@.len() > 0 && s.page_type@ == "l"@ ==> final(self).awaits_rows()
                            && final(self).pending_tids() == raw@.map_values(|ri: RawItem| ri.ctid)
                            && final(self).pending_leaf().id == s.block_number
                            && final(self).shape() == old(self).shape()
                        &&& raw@.len() > 0 && s.page_type@ != "l"@ ==> final(self).awaits_page()
                            && final(self).pending_page_id() == raw@[0].ctid.block_number as i64
                            && final(self).shape() == old(self).shape().push((0, raw@.len() as int))
                        &&& raw@.len() == 0 ==> match hung(old(self).shape()) {
                            None => final(self).is_done(),
                            Some(x) => final(self).awaits_page() && final(self).shape() == x,
                        }
                    }
                },
                None => true,
            },
    {
        let page_id = self.next_page_id();
        let stats = match stats {
            None => {
                return Err(BuildError::PageNotFound { index_name: self.index_name.clone(), page_id });
            },
            Some(s) => s,
        };
        let expected = self.level_below();
        let mut header = stats.header();
        let at_root = self.frames.len() == 0;
        if at_root {
            header.is_root = true;
        }
        let take_high = header.next_page_id.is_some();
        let take_prev = header.prev_page_id.is_some() || (header.prev_page_id.is_none()
            && !header.is_root && !header.is_leaf);
        let needed: usize = if take_high {
            1
        } else {
            0
        } + if take_prev {
            1
        } else {
            0
        };
        if contains_id(&self.visited, page_id) || stats.block_number != page_id || stats.level < 0
            || stats.level != expected || header.is_leaf != (stats.level == 0) || raw.len() < needed {
            return Err(BuildError::InconsistentPage { index_name: self.index_name.clone(), page_id });
        }
        let ghost f0 = self.fetched@;
        let ghost rs = self.resolved@;
        let ghost frames0 = self.frames@;
        self.visited.push(page_id);
        proof {
            self.fetched@ = f0.insert(page_id, (stats, raw@));
            assert(f0.submap_of(self.fetched@));
            lemma_frames_grow(frames0, self.root_level, self.root_id, f0, rs, self.fetched@, rs);
            assert forall|id: i64| #[trigger] self.fetched@.contains_key(id) <==> self.visited@.contains(id) by {
                if self.visited@.contains(id) && id != page_id {
                    let k = choose|k: int| 0 <= k < self.visited@.len() && self.visited@[k] == id;
                    assert(old(self).visited@[k] == id);
                }
                if old(self).visited@.contains(id) {
                    let k = choose|k: int| 0 <= k < old(self).visited@.len() && old(self).visited@[k] == id;
                    assert(self.visited@[k] == id);
                }
                assert(self.visited@[self.visited@.len() - 1] == page_id);
            }
            assert(header_wf(header, self.fetched@, at_root));
        }
        if raw.len() > 0 {
            if header.is_leaf {
                self.leaf = Some(PendingLeaf { header, raw });
                assert(self.pending_tids() =~= raw@.map_values(|ri: RawItem| ri.ctid));
            } else {
                let ghost before = self.frames@;
                self.frames.push(Frame { header, raw, children: Vec::new() });
                proof {
                    let f = self.fetched@;
                    assert forall|k: int| 0 <= k < self.frames@.len() implies frame_wf(
                        #[trigger] self.frames@[k], f, rs, k == 0,
                    ) by {
                        if k < before.len() {
                            assert(self.frames@[k] == before[k]);
                        }
                    }
                    assert forall|k: int| 0 < k < self.frames@.len() implies #[trigger] self.frames@[
                        k].header.level == self.frames@[k - 1].header.level - 1 by {
                        assert(self.frames@[k - 1] == before[k - 1]);
                        if k < before.len() {
                            assert(self.frames@[k] == before[k]);
                        }
                    }
                    assert forall|k: int| 0 < k < self.frames@.len() implies #[trigger] self.frames@[
                        k].header.id == self.frames@[k - 1].raw@[self.frames@[k - 1].children@.len() as int].ctid.block_number as i64 by {
                        assert(self.frames@[k - 1] == before[k - 1]);
                        if k < before.len() {
                            assert(self.frames@[k] == before[k]);
                        }
                    }
                    assert(shape_of(self.frames@) =~= shape_of(before).push((0, raw@.len() as int)));
                }
            }
            Ok(())
        } else {
            let items: Vec<Item> = Vec::new();
            let p = finish_page(header, items);
            proof {
                assert(p.items@.len() == 0);
                assert(built_from(p, self.fetched@, rs, p.level as int, at_root));
            }
            self.attach(p);
            Ok(())
        }
    }

    /// Takes the rows that the identifiers of the waiting leaf page resolved to, finishes that
    /// page over them, and hangs it in place.
    pub fn accept_rows(&mut self, rows: Vec<(Tid, RowData)>)
        requires
            old(self).wf(),
            old(self).awaits_rows(),
        ensures
            final(self).wf(),
            final(self).metadata_spec() == old(self).metadata_spec(),
            final(self).index_name() == old(self).index_name(),
            final(self).fetched() == old(self).fetched(),
            final(self).resolved() == old(self).resolved().insert(old(self).pending_leaf().id, rows@),
            match hung(old(self).shape()) {
                None => final(self).is_done(),
                Some(x) => final(self).awaits_page() && final(self).shape() == x,
            },
    {
        let l = self.leaf.take().unwrap();
        let ghost raw = l.raw@;
        let ghost header = l.header;
        let ghost f = self.fetched@;
        let ghost rs0 = self.resolved@;
        let items = leaf_items(&l.raw, &rows);
        let ghost all_items = items@;
        let p = finish_page(l.header, items);
        proof {
            self.resolved@ = rs0.insert(header.id, rows@);
            let rs = self.resolved@;
            assert(rs0.submap_of(rs));
            lemma_frames_grow(self.frames@, self.root_level, self.root_id, f, rs0, f, rs);
            assert(rs.dom().subset_of(f.dom()));
            let n = sentinel_count(header);
            let h: int = if takes_high_key(header) {
                1
            } else {
                0
            };
            assert(rs[p.id] == rows@);
            assert forall|i: int| 0 <= i < p.items@.len() implies built_item(
                #[trigger] p.items@[i],
                raw[i + n],
                p.is_leaf,
                p.id,
                f,
                rs,
                p.level as int,
            ) by {
                assert(p.items@[i] == all_items[i + n]);
                assert(is_leaf_item(all_items[i + n], raw[i + n], rows@));
            }
            assert forall|i: int| 0 <= i < p.items@.len() implies #[trigger] crate::model::item_wf(
                p.items@[i],
                p.level as int,
                p.is_leaf,
            ) by {
                assert(p.items@[i] == all_items[i + n]);
                assert(is_leaf_item(all_items[i + n], raw[i + n], rows@));
            }
            assert forall|i: int| 0 <= i < p.items@.len() implies #[trigger] crate::model::child_wf(
                p.items@[i],
            ) by {
                assert(p.items@[i] == all_items[i + n]);
                assert(is_leaf_item(all_items[i + n], raw[i + n], rows@));
            }
            if takes_prev_item(header) {
                assert(is_leaf_item(all_items[h], raw[h], rows@));
            }
            if takes_high_key(header) {
                assert(is_leaf_item(all_items[0], raw[0], rows@));
            }
            assert(built_from(p, f, rs, p.level as int, self.frames@.len() == 0));
        }
        self.attach(p);
    }

    /// The tree, once the walk is over: its root is the page built from what was fetched for
    /// the metadata's root, at the metadata's level.
    pub fn into_tree(self, info: Rc<IndexInfo>) -> (r: Option<Tree>)
        requires
            self.wf(),
        ensures
            self.is_done() ==> (r matches Some(t) && t.root == self.root_page() && page_wf(t.root)
                && built_from(t.root, self.fetched(), self.resolved(), self.metadata_spec().level as int, true)
                && t.root.is_root && t.root.level == self.metadata_spec().level && t.root.id
                == self.metadata_spec().root && t.metadata_page == Some(self.metadata_spec())
                && t.index_name == self.index_name() && t.table_name == info.table_name),
            !self.is_done() ==> r.is_none(),
    {
        match self.root {
            Some(root) => Some(Tree::new(self.metadata, root, self.index_name, info)),
            None => None,
        }
    }
}

} // verus!
