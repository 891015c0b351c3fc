//! Decimal digits: the value of a digit string and the digit string of a value.
//!
//! Identifiers and validity flags arrive as decimal text and identifiers are
//! rendered back to decimal text on output, so both directions carry exact
//! specifications here.

use vstd::prelude::*;

verus! {

/// A decimal digit character, `'0'` through `'9'`.
pub open spec fn is_digit(c: char) -> bool {
    48 <= c as int <= 57
}

/// Numeric value of a digit character.
pub open spec fn digit_val(c: char) -> int {
    c as int - 48
}

/// The digit character for a value in `0 ..= 9`.
pub open spec fn digit_char(d: int) -> char {
    if d == 0 {
        '0'
    } else if d == 1 {
        '1'
    } else if d == 2 {
        '2'
    } else if d == 3 {
        '3'
    } else if d == 4 {
        '4'
    } else if d == 5 {
        '5'
    } else if d == 6 {
        '6'
    } else if d == 7 {
        '7'
    } else if d == 8 {
        '8'
    } else {
        '9'
    }
}

pub proof fn lemma_digit_char_val(d: int)
    requires
        0 <= d <= 9,
    ensures
        is_digit(digit_char(d)),
        digit_val(digit_char(d)) == d,
{
}

pub proof fn lemma_digit_val_char(c: char)
    requires
        is_digit(c),
    ensures
        digit_char(digit_val(c)) == c,
{
}

/// Every character of `s` is a decimal digit.
pub open spec fn all_digits(s: Seq<char>) -> bool {
    forall|i: int| 0 <= i < s.len() ==> is_digit(#[trigger] s[i])
}

/// The value of a digit string, most significant digit first.
pub open spec fn uint_value(s: Seq<char>) -> int
    decreases s.len(),
{
    if s.len() == 0 {
        0
    } else {
        uint_value(s.drop_last()) * 10 + digit_val(s.last())
    }
}

pub proof fn lemma_uint_value_nonneg(s: Seq<char>)
    requires
        all_digits(s),
    ensures
        uint_value(s) >= 0,
    decreases s.len(),
{
    if s.len() > 0 {
        assert(all_digits(s.drop_last()));
        lemma_uint_value_nonneg(s.drop_last());
    }
}

/// A digit string is worth at least as much as any of its prefixes.
pub proof fn lemma_uint_value_prefix(s: Seq<char>, k: int)
    requires
        all_digits(s),
        0 <= k <= s.len(),
    ensures
        uint_value(s.take(k)) <= uint_value(s),
    decreases s.len(),
{
    if k == s.len() {
        assert(s.take(k) =~= s);
    } else {
        assert(all_digits(s.drop_last()));
        lemma_uint_value_prefix(s.drop_last(), k);
        assert(s.drop_last().take(k) =~= s.take(k));
        lemma_uint_value_nonneg(s.drop_last());
    }
}

/// Powers of ten.
pub open spec fn pow10(k: nat) -> int
    decreases k,
{
    if k == 0 {
        1
    } else {
        10 * pow10((k - 1) as nat)
    }
}

/// A digit string's value is below ten to the power of its length.
pub proof fn lemma_uint_value_bound(s: Seq<char>)
    requires
        all_digits(s),
    ensures
        0 <= uint_value(s) < pow10(s.len()),
    decreases s.len(),
{
    if s.len() > 0 {
        assert(all_digits(s.drop_last()));
        lemma_uint_value_bound(s.drop_last());
    }
}

/// The digit part of an unsigned decimal literal: everything after an
/// optional leading `'+'`.
pub open spec fn uint_body(s: Seq<char>) -> Seq<char> {
    if s.len() > 0 && s[0] == '+' {
        s.drop_first()
    } else {
        s
    }
}

/// Whether `s` is shaped like an unsigned decimal literal: an optional
/// leading `'+'` followed by one or more digits and nothing else.
pub open spec fn is_uint_syntax(s: Seq<char>) -> bool {
    uint_body(s).len() > 0 && all_digits(uint_body(s))
}

/// What parsing `s` as an unsigned machine integer yields: the value when the
/// shape is right and the value fits, nothing otherwise.
pub open spec fn parsed_uint(s: Seq<char>) -> Option<int> {
    if is_uint_syntax(s) && uint_value(uint_body(s)) <= usize::MAX as int {
        Some(uint_value(uint_body(s)))
    } else {
        None
    }
}

/// Parse `s` as an unsigned decimal integer; `None` on any malformed input
/// and on overflow.
pub fn parse_uint(s: &str) -> (r: Option<usize>)
    ensures
        match r {
            Some(v) => parsed_uint(s@) == Some(v as int),
            None => parsed_uint(s@) is None,
        },
{
    let n: usize = s.unicode_len();
    let start: usize = if n > 0 && s.get_char(0) == '+' {
        1
    } else {
        0
    };
    let ghost b = uint_body(s@);
    proof {
        assert(b =~= s@.subrange(start as int, n as int));
    }
    if start == n {
        return None;
    }
    let mut v: usize = 0;
    let mut i: usize = start;
    while i < n
        invariant
            start <= i <= n,
            n == s@.len(),
            b =~= s@.subrange(start as int, n as int),
            b == uint_body(s@),
            all_digits(b.take(i - start)),
            v as int == uint_value(b.take(i - start)),
        decreases n - i,
    {
        let c = s.get_char(i);
        if c < '0' || c > '9' {
            proof {
                assert(b[i - start] == c);
                assert(!is_digit(b[i - start]));
                assert(parsed_uint(s@) is None);
            }
            return None;
        }
        let d: usize = (c as u32 as usize) - 48;
        let limit: usize = (usize::MAX - d) / 10;
        let ghost prefix1 = b.take(i + 1 - start);
        proof {
            assert(prefix1.drop_last() =~= b.take(i - start));
            assert(prefix1.last() == c);
            assert(all_digits(prefix1));
            assert(uint_value(prefix1) == (v as int) * 10 + d as int);
        }
        if v > limit {
            proof {
                let m = usize::MAX as int;
                let di = d as int;
                assert(((m - di) / 10) * 10 >= m - di - 9) by (nonlinear_arith)
                    requires
                        0 <= di <= 9,
                ;
                assert((v as int) * 10 + di > m);
                if is_uint_syntax(s@) {
                    lemma_uint_value_prefix(b, i + 1 - start);
                    assert(uint_value(b) > m);
                }
                assert(parsed_uint(s@) is None);
            }
            return None;
        }
        proof {
            let m = usize::MAX as int;
            let di = d as int;
            assert(((m - di) / 10) * 10 <= m - di) by (nonlinear_arith)
                requires
                    0 <= di <= 9,
            ;
            assert((v as int) * 10 + di <= m);
        }
        v = v * 10 + d;
        i = i + 1;
    }
    proof {
        assert(b.take(n - start) =~= b);
        assert(is_uint_syntax(s@));
    }
    Some(v)
}

/// The canonical decimal rendering of a value, no padding, no sign.
pub open spec fn dec_str(n: nat) -> Seq<char>
    decreases n,
{
    if n < 10 {
        seq![digit_char(n as int)]
    } else {
        dec_str(n / 10).push(digit_char((n % 10) as int))
    }
}

pub proof fn lemma_dec_str_digits(n: nat)
    ensures
        dec_str(n).len() >= 1,
        all_digits(dec_str(n)),
    decreases n,
{
    if n >= 10 {
        lemma_dec_str_digits(n / 10);
        lemma_digit_char_val((n % 10) as int);
        assert forall|i: int| 0 <= i < dec_str(n).len() implies is_digit(
            #[trigger] dec_str(n)[i],
        ) by {
            if i < dec_str(n / 10).len() {
                assert(dec_str(n)[i] == dec_str(n / 10)[i]);
            }
        }
    } else {
        lemma_digit_char_val(n as int);
    }
}

/// Rendering a value and reading the digits back yields the value: the
/// decimal form is faithful.
pub proof fn lemma_dec_str_value(n: nat)
    ensures
        uint_value(dec_str(n)) == n,
    decreases n,
{
    if n < 10 {
        assert(dec_str(n).drop_last() =~= Seq::<char>::empty());
        assert(uint_value(Seq::<char>::empty()) == 0);
        lemma_digit_char_val(n as int);
    } else {
        lemma_dec_str_value(n / 10);
        lemma_digit_char_val((n % 10) as int);
        assert(dec_str(n).drop_last() =~= dec_str(n / 10));
        assert(dec_str(n).last() == digit_char((n % 10) as int));
    }
}

/// A one-character string slice for a digit value.
pub fn digit_str(d: usize) -> (r: &'static str)
    requires
        d <= 9,
    ensures
        r@ == seq![digit_char(d as int)],
{
    let r: &'static str = match d {
        0 => "0",
        1 => "1",
        2 => "2",
        3 => "3",
        4 => "4",
        5 => "5",
        6 => "6",
        7 => "7",
        8 => "8",
        _ => "9",
    };
    proof {
        reveal_strlit("0");
        reveal_strlit("1");
        reveal_strlit("2");
        reveal_strlit("3");
        reveal_strlit("4");
        reveal_strlit("5");
        reveal_strlit("6");
        reveal_strlit("7");
        reveal_strlit("8");
        reveal_strlit("9");
        assert(r@ =~= seq![digit_char(d as int)]);
    }
    r
}

/// Render a value in decimal, most significant digit first.
pub fn fmt_uint(n: usize) -> (r: String)
    ensures
        r@ == dec_str(n as nat),
    decreases n,
{
    let d: usize = n % 10;
    if n < 10 {
        let mut s = String::new();
        s.append(digit_str(d));
        proof {
            assert(s@ =~= dec_str(n as nat));
        }
        s
    } else {
        let mut s = fmt_uint(n / 10);
        s.append(digit_str(d));
        proof {
            assert(s@ =~= dec_str(n as nat));
        }
        s
    }
}

} // verus!
