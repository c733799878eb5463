//! Physical row identifiers and their binary and text encodings.

use vstd::prelude::*;
use crate::decimal::{
    decimal_of, digits_stop, digits_value, is_canonical, lemma_decimal_canonical,
    lemma_decimal_len_u32, lemma_decimal_of_value, lemma_digits_stop_unique, lemma_value_of_decimal,
    push_decimal, scan_digits, value_of,
};

verus! {

/// A physical row locator: a page block number and an offset inside that page.
#[derive(Clone, Copy, Debug, PartialEq, Eq, Hash, PartialOrd, Ord, Structural)]
pub struct Tid {
    pub block_number: u32,
    pub offset_number: u16,
}

/// The six-byte wire form: the block number, then the offset, both big-endian.
pub open spec fn binary_of(t: Tid) -> Seq<u8> {
    let b = t.block_number as int;
    let o = t.offset_number as int;
    seq![
        (b / 0x1000000) as u8,
        ((b / 0x10000) % 0x100) as u8,
        ((b / 0x100) % 0x100) as u8,
        (b % 0x100) as u8,
        (o / 0x100) as u8,
        (o % 0x100) as u8,
    ]
}

/// The identifier held by the first six bytes of `s`.
pub open spec fn tid_of_bytes(s: Seq<u8>) -> Tid
    recommends
        s.len() >= 6,
{
    Tid {
        block_number: (s[0] * 0x1000000 + s[1] * 0x10000 + s[2] * 0x100 + s[3]) as u32,
        offset_number: (s[4] * 0x100 + s[5]) as u16,
    }
}

/// The text form `(block,offset)`, both numbers in decimal.
pub open spec fn text_of(t: Tid) -> Seq<char> {
    seq!['('] + decimal_of(t.block_number as nat) + seq![','] + decimal_of(t.offset_number as nat)
        + seq![')']
}

/// How the text form of `t` is laid out, and where a scan for digits from either number's
/// first position stops.
proof fn lemma_text_layout(t: Tid, s: Seq<char>)
    requires
        s == text_of(t),
    ensures
        ({
            let d1 = decimal_of(t.block_number as nat);
            let d2 = decimal_of(t.offset_number as nat);
            &&& s.len() == d1.len() + d2.len() + 3
            &&& 1 <= d1.len() <= 10
            &&& 1 <= d2.len() <= 10
            &&& s[0] == '('
            &&& s[s.len() - 1] == ')'
            &&& s[d1.len() as int + 1] == ','
            &&& is_canonical(d1)
            &&& is_canonical(d2)
            &&& s.subrange(1, d1.len() as int + 1) == d1
            &&& s.subrange(d1.len() as int + 2, s.len() - 1) == d2
            &&& digits_stop(s, 1, s.len() - 1, d1.len() as int + 1)
            &&& digits_stop(s, d1.len() as int + 2, s.len() - 1, s.len() - 1)
            &&& value_of(d1) == t.block_number
            &&& value_of(d2) == t.offset_number
        }),
{
    let d1 = decimal_of(t.block_number as nat);
    let d2 = decimal_of(t.offset_number as nat);
    lemma_decimal_canonical(t.block_number as nat);
    lemma_decimal_canonical(t.offset_number as nat);
    lemma_decimal_len_u32(t.block_number as nat);
    lemma_decimal_len_u32(t.offset_number as nat);
    lemma_value_of_decimal(t.block_number as nat);
    lemma_value_of_decimal(t.offset_number as nat);
    assert(s.subrange(1, d1.len() as int + 1) =~= d1);
    assert(s.subrange(d1.len() as int + 2, s.len() - 1) =~= d2);
    assert forall|k: int| 1 <= k < d1.len() as int + 1 implies crate::decimal::is_digit(#[trigger] s[k]) by {
        assert(s[k] == d1[k - 1]);
    }
    assert forall|k: int| d1.len() as int + 2 <= k < s.len() - 1 implies crate::decimal::is_digit(
        #[trigger] s[k],
    ) by {
        assert(s[k] == d2[k - d1.len() - 2]);
    }
}

/// Why an identifier could not be read.
#[derive(Clone, Copy, Debug, PartialEq, Eq, Structural)]
pub enum TidError {
    /// Fewer than six bytes, or text that is not of the form `(block,offset)`.
    Malformed,
}

impl Tid {
    /// The six-byte big-endian wire form of this identifier.
    pub fn encode_binary(&self) -> (r: Vec<u8>)
        ensures
            r@ == binary_of(*self),
    {
        let b = self.block_number;
        let o = self.offset_number;
        let mut r: Vec<u8> = Vec::new();
        r.push((b / 0x1000000) as u8);
        r.push(((b / 0x10000) % 0x100) as u8);
        r.push(((b / 0x100) % 0x100) as u8);
        r.push((b % 0x100) as u8);
        r.push((o / 0x100) as u8);
        r.push((o % 0x100) as u8);
        assert(r@ =~= binary_of(*self));
        r
    }

    /// Reads an identifier from the first six bytes of `buf`; any further bytes are ignored.
    pub fn decode_binary(buf: &[u8]) -> (r: Result<Tid, TidError>)
        ensures
            buf@.len() >= 6 ==> r == Ok::<Tid, TidError>(tid_of_bytes(buf@)),
            buf@.len() < 6 ==> r == Err::<Tid, TidError>(TidError::Malformed),
    {
        if buf.len() < 6 {
            return Err(TidError::Malformed);
        }
        let block_number: u32 = (buf[0] as u32) * 0x1000000 + (buf[1] as u32) * 0x10000
            + (buf[2] as u32) * 0x100 + (buf[3] as u32);
        let offset_number: u16 = (buf[4] as u16) * 0x100 + (buf[5] as u16);
        Ok(Tid { block_number, offset_number })
    }

    /// The text form `(block,offset)` of this identifier.
    pub fn encode_text(&self) -> (r: String)
        ensures
            r@ == text_of(*self),
    {
        proof {
            reveal_strlit("(");
            reveal_strlit(",");
            reveal_strlit(")");
        }
        let mut r = String::new();
        r.append("(");
        push_decimal(&mut r, self.block_number as u64);
        r.append(",");
        push_decimal(&mut r, self.offset_number as u64);
        r.append(")");
        assert(r@ =~= text_of(*self));
        r
    }

    /// Reads the text form `(block,offset)`: decimal numbers without sign, leading zeros or
    /// spaces, each within its field's range.
    pub fn decode_text(s: &str) -> (r: Result<Tid, TidError>)
        ensures
            match r {
                Ok(t) => s@ == text_of(t),
                Err(e) => e == TidError::Malformed && forall|t: Tid| s@ != #[trigger] text_of(t),
            },
    {
        let n = s.unicode_len();
        if n < 5 {
            proof {
                assert forall|t: Tid| s@ != #[trigger] text_of(t) by {
                    if s@ == text_of(t) {
                        lemma_text_layout(t, s@);
                    }
                }
            }
            return Err(TidError::Malformed);
        }
        let end = n - 1;
        if s.get_char(0) != '(' || s.get_char(end) != ')' {
            proof {
                assert forall|t: Tid| s@ != #[trigger] text_of(t) by {
                    if s@ == text_of(t) {
                        lemma_text_layout(t, s@);
                    }
                }
            }
            return Err(TidError::Malformed);
        }
        let j = scan_digits(s, 1, end);
        if j == 1 || j - 1 > 10 || j == end || (j - 1 > 1 && s.get_char(1) == '0') || s.get_char(j)
            != ',' {
            proof {
                assert forall|t: Tid| s@ != #[trigger] text_of(t) by {
                    if s@ == text_of(t) {
                        lemma_text_layout(t, s@);
                        let l1 = decimal_of(t.block_number as nat).len() as int;
                        lemma_digits_stop_unique(s@, 1, end as int, j as int, l1 + 1);
                        assert(s@[1] == decimal_of(t.block_number as nat)[0]);
                    }
                }
            }
            return Err(TidError::Malformed);
        }
        proof {
            assert forall|k: int| 0 <= k < j - 1 implies crate::decimal::is_digit(
                #[trigger] s@.subrange(1, j as int)[k],
            ) by {
                assert(s@.subrange(1, j as int)[k] == s@[k + 1]);
            }
        }
        let b = digits_value(s, 1, j);
        let k = scan_digits(s, j + 1, end);
        if b > 0xffff_ffff || k != end || k == j + 1 || k - (j + 1) > 10 || (k - (j + 1) > 1
            && s.get_char(j + 1) == '0') {
            proof {
                assert forall|t: Tid| s@ != #[trigger] text_of(t) by {
                    if s@ == text_of(t) {
                        lemma_text_layout(t, s@);
                        let l1 = decimal_of(t.block_number as nat).len() as int;
                        lemma_digits_stop_unique(s@, 1, end as int, j as int, l1 + 1);
                        lemma_digits_stop_unique(s@, j + 1, end as int, k as int, end as int);
                        assert(s@[j + 1] == decimal_of(t.offset_number as nat)[0]);
                    }
                }
            }
            return Err(TidError::Malformed);
        }
        proof {
            assert forall|i: int| 0 <= i < k - (j + 1) implies crate::decimal::is_digit(
                #[trigger] s@.subrange(j + 1, k as int)[i],
            ) by {
                assert(s@.subrange(j + 1, k as int)[i] == s@[i + j + 1]);
            }
        }
        let o = digits_value(s, j + 1, k);
        if o > 0xffff {
            proof {
                assert forall|t: Tid| s@ != #[trigger] text_of(t) by {
                    if s@ == text_of(t) {
                        lemma_text_layout(t, s@);
                        let l1 = decimal_of(t.block_number as nat).len() as int;
                        lemma_digits_stop_unique(s@, 1, end as int, j as int, l1 + 1);
                    }
                }
            }
            return Err(TidError::Malformed);
        }
        let t = Tid { block_number: b as u32, offset_number: o as u16 };
        proof {
            let d1 = s@.subrange(1, j as int);
            let d2 = s@.subrange(j + 1, k as int);
            assert(d1[0] == s@[1]);
            assert(d2[0] == s@[j + 1]);
            lemma_decimal_of_value(d1);
            lemma_decimal_of_value(d2);
            assert(s@ =~= text_of(t));
        }
        Ok(t)
    }
}

/// Reading back the wire form of an identifier gives the identifier.
pub proof fn lemma_binary_round_trip(t: Tid)
    ensures
        binary_of(t).len() == 6,
        tid_of_bytes(binary_of(t)) == t,
{
    let b = t.block_number as int;
    let o = t.offset_number as int;
    let s = binary_of(t);
    assert(s[0] == b / 0x1000000);
    assert(s[1] == (b / 0x10000) % 0x100);
    assert(s[2] == (b / 0x100) % 0x100);
    assert(s[3] == b % 0x100);
    assert(s[0] * 0x1000000 + s[1] * 0x10000 + s[2] * 0x100 + s[3] == b) by (nonlinear_arith)
        requires
            0 <= b < 0x100000000,
            s[0] == b / 0x1000000,
            s[1] == (b / 0x10000) % 0x100,
            s[2] == (b / 0x100) % 0x100,
            s[3] == b % 0x100,
    ;
    assert(s[4] * 0x100 + s[5] == o) by (nonlinear_arith)
        requires
            0 <= o < 0x10000,
            s[4] == o / 0x100,
            s[5] == o % 0x100,
    ;
}

/// Reading back the text form of an identifier gives the identifier: no other identifier
/// is written the same way, and `decode_text` accepts exactly the text forms.
pub proof fn lemma_text_round_trip(x: Tid)
    ensures
        forall|u: Tid| #[trigger] text_of(u) == text_of(x) ==> u == x,
{
    assert forall|u: Tid| #[trigger] text_of(u) == text_of(x) implies u == x by {
        let s = text_of(x);
        lemma_text_layout(x, s);
        lemma_text_layout(u, s);
        let lx = decimal_of(x.block_number as nat).len() as int;
        let lu = decimal_of(u.block_number as nat).len() as int;
        lemma_digits_stop_unique(s, 1, s.len() - 1, lx + 1, lu + 1);
    }
}

} // verus!
