//! Views of a built tree for display: which pages hang under which.

use vstd::prelude::*;
use crate::decimal::{push_signed_decimal, signed_decimal_of};
use crate::model::{Item, Page};

verus! {

/// The child pages of `p`'s items from position `i` on, in order.
pub open spec fn children_from(p: Page, i: int) -> Seq<Page>
    decreases p.items@.len() - i,
{
    if i < 0 || i >= p.items@.len() {
        Seq::empty()
    } else {
        match p.items@[i].child {
            Some(c) => seq![*c] + children_from(p, i + 1),
            None => children_from(p, i + 1),
        }
    }
}

/// The pages immediately below `p`, in the order of its items.
pub open spec fn children_of(p: Page) -> Seq<Page> {
    children_from(p, 0)
}

/// The entries that the subtrees of `p`'s items from position `i` on contribute, in order.
pub open spec fn entries_from(p: Page, i: int) -> Seq<(Seq<char>, Seq<Page>)>
    decreases p, p.items@.len() - i,
{
    if i < 0 || i >= p.items@.len() {
        Seq::empty()
    } else {
        match p.items@[i].child {
            Some(c) => entries_of(*c) + entries_from(p, i + 1),
            None => entries_from(p, i + 1),
        }
    }
}

/// One entry per internal page of the subtree of `p`, below before above: the page's id in
/// decimal and the pages immediately below it. Leaf pages give none.
pub open spec fn entries_of(p: Page) -> Seq<(Seq<char>, Seq<Page>)>
    decreases p, p.items@.len() + 1,
{
    if p.is_leaf {
        Seq::empty()
    } else {
        entries_from(p, 0) + seq![(signed_decimal_of(p.id as int), children_of(p))]
    }
}

/// The pages that references point to.
pub open spec fn pages_of(s: Seq<&Page>) -> Seq<Page> {
    s.map_values(|q: &Page| *q)
}

fn collect<'a>(p: &'a Page, out: &mut Vec<(String, Vec<&'a Page>)>)
    ensures
        final(out)@.len() == old(out)@.len() + entries_of(*p).len(),
        forall|k: int| 0 <= k < old(out)@.len() ==> #[trigger] final(out)@[k] == old(out)@[k],
        forall|k: int|
            0 <= k < entries_of(*p).len() ==> final(out)@[old(out)@.len() + k].0@ == (#[trigger] entries_of(
                *p,
            )[k]).0 && pages_of(final(out)@[old(out)@.len() + k].1@) == entries_of(*p)[k].1,
    decreases p, p.items@.len() + 1,
{
    if p.is_leaf {
        return;
    }
    let ghost start = out@.len();
    let mut children: Vec<&'a Page> = Vec::new();
    let ghost mut prefix: Seq<(Seq<char>, Seq<Page>)> = Seq::empty();
    let mut i: usize = 0;
    while i < p.items.len()
        invariant
            i <= p.items@.len(),
            !p.is_leaf,
            start == old(out)@.len(),
            entries_from(*p, 0) == prefix + entries_from(*p, i as int),
            out@.len() == start + prefix.len(),
            forall|k: int| 0 <= k < start ==> #[trigger] out@[k] == old(out)@[k],
            forall|k: int|
                0 <= k < out@.len() - start ==> out@[start + k].0@ == (#[trigger] entries_from(
                    *p,
                    0,
                )[k]).0 && pages_of(out@[start + k].1@) == entries_from(*p, 0)[k].1,
            children_of(*p) == pages_of(children@) + children_from(*p, i as int),
        decreases p.items@.len() - i,
    {
        let it: &'a Item = &p.items[i];
        proof {
            assert(decreases_to!(p.items => p.items[i as int]));
        }
        match &it.child {
            Some(c) => {
                let ghost before = out@;
                let ghost done = prefix.len();
                assert(entries_from(*p, i as int) == entries_of(**c) + entries_from(*p, i + 1));
                collect(c, out);
                proof {
                    assert forall|k: int| 0 <= k < start implies #[trigger] out@[k] == old(out)@[k] by {
                        assert(out@[k] == before[k]);
                    }
                    assert forall|k: int| 0 <= k < out@.len() - start implies out@[start + k].0@
                        == (#[trigger] entries_from(*p, 0)[k]).0 && pages_of(out@[start + k].1@)
                        == entries_from(*p, 0)[k].1 by {
                        if k < done {
                            assert(out@[start + k] == before[start + k]);
                        } else {
                            assert(entries_from(*p, 0)[k] == entries_from(*p, i as int)[k - done]);
                            assert(entries_from(*p, i as int)[k - done] == entries_of(**c)[k - done]);
                            assert(out@[start + k] == out@[before.len() + (k - done)]);
                        }
                    }
                }
                proof {
                    prefix = prefix + entries_of(**c);
                    assert(entries_from(*p, 0) =~= prefix + entries_from(*p, i + 1));
                }
                let cp: &'a Page = c;
                children.push(cp);
                assert(children_from(*p, i as int) == seq![**c] + children_from(*p, i + 1));
                assert(children_of(*p) =~= pages_of(children@) + children_from(*p, i + 1));
            },
            None => {
                assert(entries_from(*p, i as int) == entries_from(*p, i + 1));
            },
        }
        i = i + 1;
    }
    let mut key = String::new();
    push_signed_decimal(&mut key, p.id);
    let ghost before = out@;
    assert(pages_of(children@) =~= children_of(*p));
    out.push((key, children));
    proof {
        assert(entries_from(*p, p.items@.len() as int) == Seq::<(Seq<char>, Seq<Page>)>::empty());
        assert forall|k: int| 0 <= k < entries_of(*p).len() implies out@[old(out)@.len() + k].0@
            == (#[trigger] entries_of(*p)[k]).0 && pages_of(out@[old(out)@.len() + k].1@)
            == entries_of(*p)[k].1 by {
            if k < entries_from(*p, 0).len() {
                assert(entries_of(*p)[k] == entries_from(*p, 0)[k]);
                assert(out@[start + k] == before[start + k]);
            }
        }
        assert forall|k: int| 0 <= k < old(out)@.len() implies #[trigger] out@[k] == old(out)@[k] by {
            assert(out@[k] == before[k]);
        }
    }
}

/// For every internal page of the subtree of `page`, its id in decimal and the pages
/// immediately below it in item order; pages below come before pages above, and leaf pages
/// give no entry.
pub fn parent_child_mapping<'a>(page: &'a Page) -> (r: Vec<(String, Vec<&'a Page>)>)
    ensures
        r@.len() == entries_of(*page).len(),
        forall|k: int|
            0 <= k < r@.len() ==> r@[k].0@ == (#[trigger] entries_of(*page)[k]).0 && pages_of(r@[k].1@)
                == entries_of(*page)[k].1,
{
    let mut r: Vec<(String, Vec<&'a Page>)> = Vec::new();
    collect(page, &mut r);
    proof {
        assert forall|k: int| 0 <= k < r@.len() implies r@[k].0@ == (#[trigger] entries_of(
            *page,
        )[k]).0 && pages_of(r@[k].1@) == entries_of(*page)[k].1 by {
            assert(r@[0 + k] == r@[k]);
        }
    }
    r
}

} // verus!
