//! Decimal digit strings: their meaning, how to write them and how to read them.

use vstd::prelude::*;

verus! {

pub open spec fn is_digit(c: char) -> bool {
    '0' <= c && c <= '9'
}

pub open spec fn digit_char(d: nat) -> char
    recommends
        d < 10,
{
    (d + '0' as nat) as char
}

pub open spec fn digit_value(c: char) -> nat
    recommends
        is_digit(c),
{
    (c as int - '0' as int) as nat
}

/// The shortest decimal writing of `n`: no sign and no leading zero.
pub open spec fn decimal_of(n: nat) -> Seq<char>
    decreases n,
{
    if n < 10 {
        seq![digit_char(n)]
    } else {
        decimal_of(n / 10).push(digit_char(n % 10))
    }
}

/// The decimal writing of a signed integer: a minus sign before the digits of a negative one.
pub open spec fn signed_decimal_of(n: int) -> Seq<char> {
    if n < 0 {
        seq!['-'] + decimal_of((-n) as nat)
    } else {
        decimal_of(n as nat)
    }
}

/// The number that a string of decimal digits denotes.
pub open spec fn value_of(s: Seq<char>) -> nat
    decreases s.len(),
{
    if s.len() == 0 {
        0
    } else {
        value_of(s.drop_last()) * 10 + digit_value(s.last())
    }
}

pub open spec fn all_digits(s: Seq<char>) -> bool {
    forall|k: int| 0 <= k < s.len() ==> is_digit(#[trigger] s[k])
}

/// Digits only, at least one, and no leading zero unless the number is zero itself.
pub open spec fn is_canonical(s: Seq<char>) -> bool {
    &&& s.len() >= 1
    &&& all_digits(s)
    &&& (s.len() > 1 ==> s[0] != '0')
}

pub open spec fn pow10(k: nat) -> nat
    decreases k,
{
    if k == 0 {
        1
    } else {
        10 * pow10((k - 1) as nat)
    }
}

/// `j` is where a run of digits that starts at `start` stops, looking no further than `end`.
pub open spec fn digits_stop(s: Seq<char>, start: int, end: int, j: int) -> bool {
    &&& start <= j <= end
    &&& forall|k: int| start <= k < j ==> is_digit(#[trigger] s[k])
    &&& (j == end || !is_digit(s[j]))
}

pub proof fn lemma_digits_stop_unique(s: Seq<char>, start: int, end: int, j1: int, j2: int)
    requires
        end <= s.len(),
        digits_stop(s, start, end, j1),
        digits_stop(s, start, end, j2),
    ensures
        j1 == j2,
{
    if j1 < j2 {
        assert(is_digit(s[j1]));
    } else if j2 < j1 {
        assert(is_digit(s[j2]));
    }
}

pub proof fn lemma_digit_char(d: nat)
    requires
        d < 10,
    ensures
        is_digit(digit_char(d)),
        digit_value(digit_char(d)) == d,
        digit_char(d) == '0' <==> d == 0,
{
}

pub proof fn lemma_decimal_canonical(n: nat)
    ensures
        is_canonical(decimal_of(n)),
        n < pow10(decimal_of(n).len() as nat),
        decimal_of(n).len() > 1 ==> pow10((decimal_of(n).len() - 1) as nat) <= n,
    decreases n,
{
    if n < 10 {
        lemma_digit_char(n);
        assert(pow10(1) == 10 * pow10(0));
    } else {
        lemma_decimal_canonical(n / 10);
        lemma_digit_char(n % 10);
        let p = decimal_of(n / 10);
        let l = p.len();
        assert(decimal_of(n) == p.push(digit_char(n % 10)));
        assert(decimal_of(n)[0] == p[0]);
        assert(pow10(l + 1 as nat) == 10 * pow10(l as nat));
        let q = n / 10;
        let pl = pow10(l as nat);
        assert(n < 10 * pl) by (nonlinear_arith)
            requires
                q < pl,
                q == n / 10,
        ;
        if l > 1 {
            assert(pow10(l as nat) == 10 * pow10((l - 1) as nat));
            let pm = pow10((l - 1) as nat);
            assert(10 * pm <= n) by (nonlinear_arith)
                requires
                    pm <= q,
                    q == n / 10,
            ;
        } else {
            assert(pow10(1) == 10 * pow10(0));
        }
        assert forall|k: int| 0 <= k < decimal_of(n).len() implies is_digit(
            #[trigger] decimal_of(n)[k],
        ) by {
            if k < l {
                assert(decimal_of(n)[k] == p[k]);
            }
        }
    }
}

/// Ten digits suffice for any `u32`.
pub proof fn lemma_decimal_len_u32(n: nat)
    requires
        n <= 0xffff_ffff,
    ensures
        decimal_of(n).len() <= 10,
{
    lemma_decimal_canonical(n);
    let l = decimal_of(n).len();
    if l > 10 {
        lemma_pow10_monotone(10, (l - 1) as nat);
        reveal_with_fuel(pow10, 11);
        assert(pow10(10) == 10000000000);
    }
}

pub proof fn lemma_pow10_monotone(a: nat, b: nat)
    requires
        a <= b,
    ensures
        pow10(a) <= pow10(b),
    decreases b,
{
    if a < b {
        lemma_pow10_monotone(a, (b - 1) as nat);
    }
}

pub proof fn lemma_value_of_decimal(n: nat)
    ensures
        value_of(decimal_of(n)) == n,
    decreases n,
{
    lemma_digit_char(n % 10);
    if n < 10 {
        assert(decimal_of(n).drop_last() =~= Seq::<char>::empty());
        assert(decimal_of(n).last() == digit_char(n));
        assert(value_of(Seq::<char>::empty()) == 0);
    } else {
        lemma_value_of_decimal(n / 10);
        assert(decimal_of(n).drop_last() =~= decimal_of(n / 10));
        assert(decimal_of(n).last() == digit_char(n % 10));
        assert((n / 10) * 10 + n % 10 == n);
    }
}

pub proof fn lemma_value_positive(s: Seq<char>)
    requires
        is_canonical(s),
        s.len() > 1 || s[0] != '0',
    ensures
        value_of(s) >= 1,
    decreases s.len(),
{
    if s.len() > 1 {
        let p = s.drop_last();
        assert(p[0] == s[0]);
        assert forall|k: int| 0 <= k < p.len() implies is_digit(#[trigger] p[k]) by {
            assert(p[k] == s[k]);
        }
        lemma_value_positive(p);
    } else {
        assert(s.drop_last() =~= Seq::<char>::empty());
    }
}

/// A canonical digit string is the decimal writing of the number it denotes.
pub proof fn lemma_decimal_of_value(s: Seq<char>)
    requires
        is_canonical(s),
    ensures
        decimal_of(value_of(s)) == s,
    decreases s.len(),
{
    if s.len() == 1 {
        assert(s.drop_last() =~= Seq::<char>::empty());
        assert(decimal_of(value_of(s)) =~= s);
    } else {
        let p = s.drop_last();
        assert(p[0] == s[0]);
        assert forall|k: int| 0 <= k < p.len() implies is_digit(#[trigger] p[k]) by {
            assert(p[k] == s[k]);
        }
        lemma_value_positive(p);
        lemma_decimal_of_value(p);
        let v = value_of(s);
        assert(v == value_of(p) * 10 + digit_value(s.last()));
        assert(v / 10 == value_of(p));
        assert(v % 10 == digit_value(s.last()));
        assert(decimal_of(v) =~= s);
    }
}

fn digit_str(d: u64) -> (r: &'static str)
    requires
        d < 10,
    ensures
        r@ == seq![digit_char(d as nat)],
{
    proof {
        reveal_strlit("0");
        reveal_strlit("1");
        reveal_strlit("2");
        reveal_strlit("3");
        reveal_strlit("4");
        reveal_strlit("5");
        reveal_strlit("6");
        reveal_strlit("7");
        reveal_strlit("8");
        reveal_strlit("9");
    }
    let r = if d == 0 {
        "0"
    } else if d == 1 {
        "1"
    } else if d == 2 {
        "2"
    } else if d == 3 {
        "3"
    } else if d == 4 {
        "4"
    } else if d == 5 {
        "5"
    } else if d == 6 {
        "6"
    } else if d == 7 {
        "7"
    } else if d == 8 {
        "8"
    } else {
        "9"
    };
    assert(r@ =~= seq![digit_char(d as nat)]);
    r
}

/// Appends the decimal writing of `n` to `s`.
pub fn push_decimal(s: &mut String, n: u64)
    ensures
        final(s)@ == old(s)@ + decimal_of(n as nat),
    decreases n,
{
    if n >= 10 {
        push_decimal(s, n / 10);
    }
    s.append(digit_str(n % 10));
    proof {
        if n >= 10 {
            assert(decimal_of(n as nat) == decimal_of((n / 10) as nat).push(
                digit_char((n % 10) as nat),
            ));
        }
        assert(final(s)@ =~= old(s)@ + decimal_of(n as nat));
    }
}

/// Appends the decimal writing of the signed `n` to `s`.
pub fn push_signed_decimal(s: &mut String, n: i64)
    ensures
        final(s)@ == old(s)@ + signed_decimal_of(n as int),
{
    proof {
        reveal_strlit("-");
    }
    if n < 0 {
        s.append("-");
        let m: u64 = (-(n as i128)) as u64;
        push_decimal(s, m);
        assert(final(s)@ =~= old(s)@ + signed_decimal_of(n as int));
    } else {
        push_decimal(s, n as u64);
    }
}

/// Where the run of digits of `s` that starts at `start` stops, at `end` at the latest.
pub fn scan_digits(s: &str, start: usize, end: usize) -> (j: usize)
    requires
        start <= end <= s@.len(),
    ensures
        digits_stop(s@, start as int, end as int, j as int),
{
    let mut j = start;
    while j < end
        invariant
            start <= j <= end <= s@.len(),
            forall|k: int| start <= k < j ==> is_digit(#[trigger] s@[k]),
        decreases end - j,
    {
        let c = s.get_char(j);
        if !('0' <= c && c <= '9') {
            return j;
        }
        j = j + 1;
    }
    j
}

/// The number denoted by the digits of `s` from `start` to `end`.
pub fn digits_value(s: &str, start: usize, end: usize) -> (v: u64)
    requires
        start <= end <= s@.len(),
        end - start <= 10,
        all_digits(s@.subrange(start as int, end as int)),
    ensures
        v as nat == value_of(s@.subrange(start as int, end as int)),
{
    let mut v: u64 = 0;
    let mut i = start;
    while i < end
        invariant
            start <= i <= end <= s@.len(),
            end - start <= 10,
            all_digits(s@.subrange(start as int, end as int)),
            v as nat == value_of(s@.subrange(start as int, i as int)),
            v < pow10((i - start) as nat),
        decreases end - i,
    {
        let c = s.get_char(i);
        assert(s@.subrange(start as int, end as int)[i - start] == c);
        proof {
            lemma_pow10_monotone((i - start) as nat, 9);
            reveal_with_fuel(pow10, 10);
            assert(pow10(9) == 1000000000);
            assert(s@.subrange(start as int, i + 1).drop_last() =~= s@.subrange(
                start as int,
                i as int,
            ));
        }
        v = v * 10 + (c as u64 - '0' as u64);
        i = i + 1;
    }
    v
}

} // verus!
