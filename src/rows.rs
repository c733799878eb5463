//! The batched row lookup of a leaf page: the query text and how a returned row is read.

use vstd::prelude::*;
use crate::model::{IndexInfo, RowData};
use crate::tid::{text_of, Tid};

verus! {

/// The parts written one after another, separated by a comma and a space.
pub open spec fn comma_joined(parts: Seq<Seq<char>>) -> Seq<char>
    decreases parts.len(),
{
    if parts.len() == 0 {
        Seq::empty()
    } else if parts.len() == 1 {
        parts[0]
    } else {
        comma_joined(parts.drop_last()) + ", "@ + parts.last()
    }
}

/// Each column projected as text.
pub open spec fn text_columns(cols: Seq<String>) -> Seq<Seq<char>> {
    cols.map_values(|c: String| c@ + "::text"@)
}

pub open spec fn texts(vals: Seq<String>) -> Seq<Seq<char>> {
    vals.map_values(|v: String| v@)
}

/// The encoded text of a resolved row: its primary-key values, then its indexed-column values,
/// separated by commas.
pub open spec fn row_text(vals: Seq<String>) -> Seq<char> {
    comma_joined(texts(vals))
}

pub open spec fn tid_texts(tids: Seq<Tid>) -> Seq<Seq<char>> {
    tids.map_values(|t: Tid| text_of(t))
}

/// The projection: the row identifier, the primary-key columns when the table has any, then
/// the indexed columns, all as text.
pub open spec fn select_list(info: IndexInfo) -> Seq<char> {
    if info.primary_indexed_attributes@.len() == 0 {
        "ctid, "@ + comma_joined(text_columns(info.columns@))
    } else {
        "ctid, "@ + comma_joined(text_columns(info.primary_indexed_attributes@)) + ", "@
            + comma_joined(text_columns(info.columns@))
    }
}

/// One query for all the rows of the table whose identifiers are among `tids`.
pub open spec fn row_query_text(info: IndexInfo, tids: Seq<Tid>) -> Seq<char> {
    "SELECT "@ + select_list(info) + " FROM "@ + info.table_name@
        + " WHERE ctid IN (SELECT ('(' || block_num || ',' || offset_num || ')')::tid FROM unnest(ARRAY["@
        + comma_joined(tid_texts(tids))
        + "]) AS t(block_num integer, offset_num integer))"@
}

proof fn lemma_joined_step(parts: Seq<Seq<char>>, i: int)
    requires
        1 <= i < parts.len(),
    ensures
        comma_joined(parts.take(i + 1)) == comma_joined(parts.take(i)) + ", "@ + parts[i],
{
    assert(parts.take(i + 1).drop_last() =~= parts.take(i));
}

/// Appends the columns, each cast to text, separated by commas.
fn push_text_columns(s: &mut String, cols: &Vec<String>)
    ensures
        final(s)@ == old(s)@ + comma_joined(text_columns(cols@)),
{
    proof {
        reveal_strlit(", ");
        reveal_strlit("::text");
    }
    let ghost parts = text_columns(cols@);
    let mut i: usize = 0;
    while i < cols.len()
        invariant
            i <= cols@.len() == parts.len(),
            parts == text_columns(cols@),
            s@ == old(s)@ + comma_joined(parts.take(i as int)),
        decreases cols@.len() - i,
    {
        if i > 0 {
            s.append(", ");
        }
        s.append(cols[i].as_str());
        s.append("::text");
        proof {
            if i > 0 {
                lemma_joined_step(parts, i as int);
            } else {
                assert(parts.take(1) =~= seq![parts[0]]);
            }
            assert(s@ =~= old(s)@ + comma_joined(parts.take(i + 1)));
        }
        i = i + 1;
    }
    assert(parts.take(cols@.len() as int) =~= parts);
}

/// The first `n` values, separated by commas.
fn joined_values(vals: &Vec<String>, n: usize) -> (r: String)
    requires
        n <= vals@.len(),
    ensures
        r@ == row_text(vals@.take(n as int)),
{
    proof {
        reveal_strlit(", ");
    }
    let ghost parts = texts(vals@.take(n as int));
    let mut s = String::new();
    let mut i: usize = 0;
    while i < n
        invariant
            n <= vals@.len(),
            i <= n == parts.len(),
            parts == texts(vals@.take(n as int)),
            s@ == comma_joined(parts.take(i as int)),
        decreases n - i,
    {
        if i > 0 {
            s.append(", ");
        }
        s.append(vals[i].as_str());
        proof {
            assert(parts[i as int] == vals@[i as int]@);
            if i > 0 {
                lemma_joined_step(parts, i as int);
            } else {
                assert(parts.take(1) =~= seq![parts[0]]);
            }
            assert(s@ =~= comma_joined(parts.take(i + 1)));
        }
        i = i + 1;
    }
    assert(parts.take(n as int) =~= parts);
    s
}

/// Appends the text forms of the identifiers, separated by commas.
fn push_tid_list(s: &mut String, tids: &Vec<Tid>)
    ensures
        final(s)@ == old(s)@ + comma_joined(tid_texts(tids@)),
{
    proof {
        reveal_strlit(", ");
    }
    let ghost parts = tid_texts(tids@);
    let mut i: usize = 0;
    while i < tids.len()
        invariant
            i <= tids@.len() == parts.len(),
            parts == tid_texts(tids@),
            s@ == old(s)@ + comma_joined(parts.take(i as int)),
        decreases tids@.len() - i,
    {
        if i > 0 {
            s.append(", ");
        }
        let t = tids[i].encode_text();
        s.append(t.as_str());
        proof {
            if i > 0 {
                lemma_joined_step(parts, i as int);
            } else {
                assert(parts.take(1) =~= seq![parts[0]]);
            }
            assert(s@ =~= old(s)@ + comma_joined(parts.take(i + 1)));
        }
        i = i + 1;
    }
    assert(parts.take(tids@.len() as int) =~= parts);
}

/// The single query that looks up, in the index's table, the rows whose identifiers are
/// among `tids`, projecting the identifier, the primary-key columns (when there are any) and
/// the indexed columns as text.
pub fn row_query(info: &IndexInfo, tids: &Vec<Tid>) -> (q: String)
    ensures
        q@ == row_query_text(*info, tids@),
{
    proof {
        reveal_strlit("SELECT ");
        reveal_strlit("ctid, ");
        reveal_strlit(", ");
        reveal_strlit(" FROM ");
        reveal_strlit(
            " WHERE ctid IN (SELECT ('(' || block_num || ',' || offset_num || ')')::tid FROM unnest(ARRAY[",
        );
        reveal_strlit("]) AS t(block_num integer, offset_num integer))");
    }
    let mut q = String::new();
    q.append("SELECT ");
    q.append("ctid, ");
    if info.primary_indexed_attributes.len() > 0 {
        push_text_columns(&mut q, &info.primary_indexed_attributes);
        q.append(", ");
    }
    push_text_columns(&mut q, &info.columns);
    q.append(" FROM ");
    q.append(info.table_name.as_str());
    q.append(
        " WHERE ctid IN (SELECT ('(' || block_num || ',' || offset_num || ')')::tid FROM unnest(ARRAY[",
    );
    push_tid_list(&mut q, tids);
    q.append("]) AS t(block_num integer, offset_num integer))");
    assert(q@ =~= row_query_text(*info, tids@));
    q
}

impl RowData {
    /// Reads a returned row's text values after its identifier: the first `n_keys` are the
    /// primary-key values, the next `n_cols` the indexed-column values, and the row's encoded
    /// text is all of them, separated by commas. Nothing when the row holds fewer values.
    pub fn from_columns(values: Vec<String>, n_keys: usize, n_cols: usize) -> (r: Option<RowData>)
        ensures
            r.is_some() <==> values@.len() >= n_keys + n_cols,
            r matches Some(row) ==> {
                &&& row.primary_key_data matches Some(k) && k@ == values@.subrange(
                    0,
                    n_keys as int,
                )
                &&& row.column_data matches Some(c) && c@ == values@.subrange(
                    n_keys as int,
                    n_keys + n_cols,
                )
                &&& row.byte_values matches Some(b) && b@ == row_text(
                    values@.take(n_keys + n_cols),
                )
            },
    {
        if values.len() < n_keys || values.len() - n_keys < n_cols {
            return None;
        }
        let mut keys: Vec<String> = Vec::new();
        let mut cols: Vec<String> = Vec::new();
        let total = n_keys + n_cols;
        let mut i: usize = 0;
        while i < total
            invariant
                total == n_keys + n_cols,
                n_keys + n_cols <= values@.len(),
                i <= n_keys + n_cols,
                i <= n_keys ==> keys@ == values@.subrange(0, i as int) && cols@.len() == 0,
                i > n_keys ==> keys@ == values@.subrange(0, n_keys as int) && cols@
                    == values@.subrange(n_keys as int, i as int),
            decreases total - i,
        {
            if i < n_keys {
                keys.push(values[i].clone());
            } else {
                cols.push(values[i].clone());
            }
            i = i + 1;
            assert(keys@ =~= values@.subrange(0, if i <= n_keys { i as int } else { n_keys as int }));
            if i > n_keys {
                assert(cols@ =~= values@.subrange(n_keys as int, i as int));
            }
        }
        if n_cols == 0 {
            assert(cols@ =~= values@.subrange(n_keys as int, n_keys + n_cols));
        }
        let text = joined_values(&values, total);
        Some(RowData { primary_key_data: Some(keys), column_data: Some(cols), byte_values: Some(text) })
    }
}

} // verus!
