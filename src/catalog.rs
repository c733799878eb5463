//! The index descriptor as the catalog lookups give it, and the connection settings.

use vstd::prelude::*;
use crate::error::BuildError;
use crate::model::{info_is_empty, IndexInfo};

verus! {

/// The catalog row of an index: its table, its access method, its columns as one
/// comma-separated text, and its table's object id.
#[derive(Debug)]
pub struct CatalogEntry {
    pub table_name: String,
    pub index_type: String,
    pub column_names: String,
    pub table_oid: u32,
}

/// Whitespace as Unicode's `White_Space` property has it: tab through carriage return, space,
/// next line, no-break space, ogham space mark, the spaces from en quad to hair space, line and
/// paragraph separators, narrow no-break space, medium mathematical space and ideographic space.
pub open spec fn is_space(c: char) -> bool {
    ('\t' <= c && c <= '\r') || c == ' ' || c == '\u{85}' || c == '\u{A0}' || c == '\u{1680}'
        || ('\u{2000}' <= c && c <= '\u{200A}') || c == '\u{2028}' || c == '\u{2029}'
        || c == '\u{202F}' || c == '\u{205F}' || c == '\u{3000}'
}

pub open spec fn trim_end(s: Seq<char>) -> Seq<char>
    decreases s.len(),
{
    if s.len() > 0 && is_space(s.last()) {
        trim_end(s.drop_last())
    } else {
        s
    }
}

pub open spec fn trim_start(s: Seq<char>) -> Seq<char>
    decreases s.len(),
{
    if s.len() > 0 && is_space(s[0]) {
        trim_start(s.skip(1))
    } else {
        s
    }
}

/// `s` without leading and trailing whitespace.
pub open spec fn trimmed(s: Seq<char>) -> Seq<char> {
    trim_start(trim_end(s))
}

/// The pieces of `s` between commas: one more than there are commas.
pub open spec fn split_commas(s: Seq<char>) -> Seq<Seq<char>>
    decreases s.len(),
{
    if s.len() == 0 {
        seq![Seq::empty()]
    } else {
        let r = split_commas(s.drop_last());
        if s.last() == ',' {
            r.push(Seq::empty())
        } else {
            r.update(r.len() - 1, r.last().push(s.last()))
        }
    }
}

fn is_space_char(c: char) -> (r: bool)
    ensures
        r == is_space(c),
{
    ('\t' <= c && c <= '\r') || c == ' ' || c == '\u{85}' || c == '\u{A0}' || c == '\u{1680}'
        || ('\u{2000}' <= c && c <= '\u{200A}') || c == '\u{2028}' || c == '\u{2029}'
        || c == '\u{202F}' || c == '\u{205F}' || c == '\u{3000}'
}

/// The characters of `s` from `a` to `b`, without leading and trailing whitespace.
fn trimmed_range(s: &str, a: usize, b: usize) -> (r: String)
    requires
        a <= b <= s@.len(),
    ensures
        r@ == trimmed(s@.subrange(a as int, b as int)),
{
    let mut e = b;
    while e > a && is_space_char(s.get_char(e - 1))
        invariant
            a <= e <= b <= s@.len(),
            trim_end(s@.subrange(a as int, b as int)) == trim_end(s@.subrange(a as int, e as int)),
        decreases e,
    {
        assert(s@.subrange(a as int, e as int).drop_last() =~= s@.subrange(a as int, e - 1));
        e = e - 1;
    }
    assert(trim_end(s@.subrange(a as int, e as int)) == s@.subrange(a as int, e as int));
    let mut f = a;
    while f < e && is_space_char(s.get_char(f))
        invariant
            a <= f <= e <= b <= s@.len(),
            trimmed(s@.subrange(a as int, b as int)) == trim_start(s@.subrange(f as int, e as int)),
        decreases e - f,
    {
        assert(s@.subrange(f as int, e as int).skip(1) =~= s@.subrange(f + 1, e as int));
        f = f + 1;
    }
    String::from_str(s.substring_char(f, e))
}

/// The column names of a comma-separated list, each without surrounding whitespace.
pub fn split_column_names(s: &str) -> (r: Vec<String>)
    ensures
        r@.len() == split_commas(s@).len(),
        forall|k: int| 0 <= k < r@.len() ==> #[trigger] r@[k]@ == trimmed(split_commas(s@)[k]),
{
    let n = s.unicode_len();
    let mut r: Vec<String> = Vec::new();
    let mut start: usize = 0;
    let mut i: usize = 0;
    while i < n
        invariant
            n == s@.len(),
            start <= i <= n,
            split_commas(s@.take(i as int)).len() == r@.len() + 1,
            forall|k: int|
                0 <= k < r@.len() ==> #[trigger] r@[k]@ == trimmed(split_commas(s@.take(i as int))[k]),
            split_commas(s@.take(i as int)).last() == s@.subrange(start as int, i as int),
        decreases n - i,
    {
        let c = s.get_char(i);
        let ghost before = split_commas(s@.take(i as int));
        assert(s@.take(i + 1).drop_last() =~= s@.take(i as int));
        assert(s@.take(i + 1).last() == c);
        if c == ',' {
            r.push(trimmed_range(s, start, i));
            start = i + 1;
            assert(s@.subrange(start as int, i + 1) =~= Seq::<char>::empty());
        } else {
            assert(s@.subrange(start as int, i + 1) =~= s@.subrange(start as int, i as int).push(c));
        }
        i = i + 1;
    }
    assert(s@.take(n as int) =~= s@);
    r.push(trimmed_range(s, start, n));
    r
}

impl IndexInfo {
    /// The descriptor from the catalog lookups: an index name that resolved to nothing gives
    /// empty names, no columns, no primary key and object id 0. The columns are the comma-separated names of
    /// the catalog row, trimmed.
    pub fn from_catalog(entry: Option<CatalogEntry>, primary_key_columns: Vec<String>) -> (r:
        IndexInfo)
        ensures
            entry.is_none() ==> info_is_empty(r),
            entry matches Some(e) ==> {
                &&& r.primary_indexed_attributes@ == primary_key_columns@
                &&& r.index_type == e.index_type
                &&& r.table_name == e.table_name
                &&& r.table_oid == e.table_oid
                &&& r.columns@.len() == split_commas(e.column_names@).len()
                &&& forall|k: int|
                    0 <= k < r.columns@.len() ==> #[trigger] r.columns@[k]@ == trimmed(
                        split_commas(e.column_names@)[k],
                    )
            },
    {
        match entry {
            Some(e) => {
                let columns = split_column_names(e.column_names.as_str());
                IndexInfo {
                    index_type: e.index_type,
                    columns,
                    table_name: e.table_name,
                    table_oid: e.table_oid,
                    primary_indexed_attributes: primary_key_columns,
                }
            },
            None => IndexInfo {
                index_type: String::new(),
                columns: Vec::new(),
                table_name: String::new(),
                table_oid: 0,
                primary_indexed_attributes: Vec::new(),
            },
        }
    }

    /// Refuses the descriptor of an index name that resolved to nothing, before any lookup of
    /// the index itself.
    pub fn require_found(&self) -> (r: Result<(), BuildError>)
        ensures
            info_is_empty(*self) <==> r == Err::<(), BuildError>(BuildError::IndexNotFound),
            !info_is_empty(*self) <==> r is Ok,
    {
        if self.is_empty() {
            Err(BuildError::IndexNotFound)
        } else {
            Ok(())
        }
    }

    /// Whether the index is a B-tree, the only kind that can be walked.
    pub fn is_btree(&self) -> (r: bool)
        ensures
            r == (self.index_type@ == "btree"@),
    {
        self.index_type == String::from_str("btree")
    }
}

/// The text of a connection to `host`, `port` and database `db`; the user and the password
/// are named only when they are given.
pub open spec fn connection_text(
    host: Seq<char>,
    port: Seq<char>,
    db: Seq<char>,
    user: Seq<char>,
    pass: Seq<char>,
) -> Seq<char> {
    "host="@ + host + " port="@ + port + " dbname="@ + db + (if user.len() > 0 {
        " user="@ + user
    } else {
        Seq::empty()
    }) + (if pass.len() > 0 {
        " password="@ + pass
    } else {
        Seq::empty()
    })
}

pub fn connection_string(host: &str, port: &str, db: &str, user: &str, pass: &str) -> (r: String)
    ensures
        r@ == connection_text(host@, port@, db@, user@, pass@),
{
    proof {
        reveal_strlit("host=");
        reveal_strlit(" port=");
        reveal_strlit(" dbname=");
        reveal_strlit(" user=");
        reveal_strlit(" password=");
    }
    let mut r = String::new();
    r.append("host=");
    r.append(host);
    r.append(" port=");
    r.append(port);
    r.append(" dbname=");
    r.append(db);
    if !user.is_empty() {
        r.append(" user=");
        r.append(user);
    }
    if !pass.is_empty() {
        r.append(" password=");
        r.append(pass);
    }
    assert(r@ =~= connection_text(host@, port@, db@, user@, pass@));
    r
}

} // verus!
