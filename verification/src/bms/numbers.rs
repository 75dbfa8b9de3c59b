//! Number syntax of BMS text: base-36 object ids and the integer and float
//! literals that std's `FromStr` impls accept, all on UTF-8 bytes.

use vstd::prelude::*;

verus! {

/// The value of `c` as a digit in `radix` (`char::to_digit`): `0-9`, then
/// `a-z` or `A-Z` from 10 on, where that is below `radix`.
pub open spec fn radix_digit(c: u8, radix: u32) -> Option<u32> {
    let d: int = if 0x30 <= c <= 0x39 {
        c - 0x30
    } else if 0x61 <= c <= 0x7a {
        c - 0x61 + 10
    } else if 0x41 <= c <= 0x5a {
        c - 0x41 + 10
    } else {
        99
    };
    if d < radix {
        Some(d as u32)
    } else {
        None
    }
}

/// Every byte of `d` is a digit in `radix`.
pub open spec fn all_digits(d: Seq<u8>, radix: u32) -> bool {
    forall|i: int| 0 <= i < d.len() ==> (#[trigger] radix_digit(d[i], radix)) is Some
}

/// The number that the digits `d` spell in `radix`, most significant first;
/// a byte that is no digit counts as 0.
pub open spec fn digits_value(d: Seq<u8>, radix: u32) -> int
    decreases d.len(),
{
    if d.len() == 0 {
        0
    } else {
        digits_value(d.drop_last(), radix) * radix + match radix_digit(d.last(), radix) {
            Some(v) => v as int,
            None => 0,
        }
    }
}

/// The value of a base-36 object id: each byte a digit `0-9`, `a-z` or
/// `A-Z` (case-insensitive), any other byte 0.
pub open spec fn base36_value(b: Seq<u8>) -> int {
    digits_value(b, 36)
}

/// What `u32::from_str_radix(s, radix)` gives for the bytes `b`: an optional
/// `+`, then at least one digit, and a value that fits in a `u32`.
pub open spec fn parse_unsigned(b: Seq<u8>, radix: u32) -> Option<u32> {
    let d = if b.len() > 0 && b[0] == 0x2b {
        b.drop_first()
    } else {
        b
    };
    if d.len() > 0 && all_digits(d, radix) && digits_value(d, radix) <= u32::MAX {
        Some(digits_value(d, radix) as u32)
    } else {
        None
    }
}

/// What `str::parse::<i32>` gives for the bytes `b`: an optional `+` or `-`,
/// then at least one decimal digit, and a value in the range of `i32`.
pub open spec fn parse_i32(b: Seq<u8>) -> Option<i32> {
    if b.len() > 0 && b[0] == 0x2d {
        let d = b.drop_first();
        if d.len() > 0 && all_digits(d, 10) && digits_value(d, 10) <= 0x8000_0000 {
            Some((-digits_value(d, 10)) as i32)
        } else {
            None
        }
    } else {
        let d = if b.len() > 0 && b[0] == 0x2b {
            b.drop_first()
        } else {
            b
        };
        if d.len() > 0 && all_digits(d, 10) && digits_value(d, 10) <= 0x7fff_ffff {
            Some(digits_value(d, 10) as i32)
        } else {
            None
        }
    }
}

proof fn lemma_digits_value_take(d: Seq<u8>, radix: u32, k: int)
    requires
        0 <= k < d.len(),
        2 <= radix <= 36,
    ensures
        digits_value(d.take(k + 1), radix) == digits_value(d.take(k), radix) * radix + match radix_digit(d[k], radix) {
            Some(v) => v as int,
            None => 0,
        },
{
    assert(d.take(k + 1).drop_last() =~= d.take(k));
}

proof fn lemma_digits_value_nonneg(d: Seq<u8>, radix: u32)
    requires
        2 <= radix <= 36,
    ensures
        digits_value(d, radix) >= 0,
    decreases d.len(),
{
    if d.len() > 0 {
        lemma_digits_value_nonneg(d.drop_last(), radix);
        let v = digits_value(d.drop_last(), radix);
        assert(v * radix >= 0) by (nonlinear_arith)
            requires v >= 0, radix >= 2;
    }
}

/// A longer prefix of a digit string never has a smaller value.
proof fn lemma_digits_value_prefix_mono(d: Seq<u8>, radix: u32, i: int, j: int)
    requires
        0 <= i <= j <= d.len(),
        2 <= radix <= 36,
    ensures
        digits_value(d.take(i), radix) <= digits_value(d.take(j), radix),
    decreases j - i,
{
    if i < j {
        lemma_digits_value_prefix_mono(d, radix, i, j - 1);
        lemma_digits_value_take(d, radix, j - 1);
        lemma_digits_value_nonneg(d.take(j - 1), radix);
        let v = digits_value(d.take(j - 1), radix);
        assert(v <= v * radix) by (nonlinear_arith)
            requires v >= 0, radix >= 2;
    }
}

/// An id of at most two base-36 digits is below 36 * 36.
pub proof fn lemma_base36_two_digits(d: Seq<u8>)
    requires
        d.len() <= 2,
    ensures
        0 <= base36_value(d) < 1296,
{
    if d.len() > 0 {
        let p = d.drop_last();
        if p.len() > 0 {
            assert(p.drop_last().len() == 0);
            assert(digits_value(p.drop_last(), 36) == 0);
        } else {
            assert(digits_value(p, 36) == 0);
        }
        assert(0 <= digits_value(p, 36) < 36);
    }
}

/// `radix_digit(c, radix)` for an exec caller.
pub fn digit_of(c: u8, radix: u32) -> (r: Option<u32>)
    requires
        2 <= radix <= 36,
    ensures
        r == radix_digit(c, radix),
{
    let d: u32 = if 0x30 <= c && c <= 0x39 {
        (c - 0x30) as u32
    } else if 0x61 <= c && c <= 0x7a {
        (c - 0x61 + 10) as u32
    } else if 0x41 <= c && c <= 0x5a {
        (c - 0x41 + 10) as u32
    } else {
        99
    };
    if d < radix {
        Some(d)
    } else {
        None
    }
}

/// `digits_value` of `b[lo..hi]` where it is at most `limit`; `None` where it
/// is larger or a byte there is no digit.
pub fn digits_value_upto(b: &[u8], lo: usize, hi: usize, radix: u32, limit: u64) -> (r: Option<u64>)
    requires
        lo <= hi <= b@.len(),
        2 <= radix <= 36,
        limit <= 0x1_0000_0000,
    ensures
        ({
            let d = b@.subrange(lo as int, hi as int);
            match r {
                Some(v) => all_digits(d, radix) && v == digits_value(d, radix) && v <= limit,
                None => !all_digits(d, radix) || digits_value(d, radix) > limit,
            }
        }),
{
    let ghost d = b@.subrange(lo as int, hi as int);
    let mut acc: u64 = 0;
    let mut k: usize = lo;
    assert(d.take(0) =~= Seq::<u8>::empty());
    while k < hi
        invariant
            lo <= k <= hi <= b@.len(),
            2 <= radix <= 36,
            limit <= 0x1_0000_0000,
            d == b@.subrange(lo as int, hi as int),
            acc == digits_value(d.take(k - lo), radix),
            acc <= limit,
            forall|i: int| 0 <= i < k - lo ==> (#[trigger] radix_digit(d[i], radix)) is Some,
        decreases hi - k,
    {
        let dg = digit_of(b[k], radix);
        proof {
            lemma_digits_value_take(d, radix, k - lo);
        }
        match dg {
            None => {
                assert(radix_digit(d[k - lo], radix) is None);
                return None;
            },
            Some(v) => {
                assert(acc * (radix as u64) <= 0x1_0000_0000 * 36) by (nonlinear_arith)
                    requires acc <= 0x1_0000_0000, radix <= 36;
                let next = acc * (radix as u64) + (v as u64);
                if next > limit {
                    proof {
                        if all_digits(d, radix) {
                            lemma_digits_value_prefix_mono(d, radix, k - lo + 1, d.len() as int);
                            assert(d.take(d.len() as int) =~= d);
                        }
                    }
                    return None;
                }
                acc = next;
                k = k + 1;
            },
        }
    }
    assert(d.take(hi - lo) =~= d);
    Some(acc)
}

/// `parse_unsigned(b[lo..hi], radix)` (`u32::from_str_radix`).
pub fn parse_unsigned_in(b: &[u8], lo: usize, hi: usize, radix: u32) -> (r: Option<u32>)
    requires
        lo <= hi <= b@.len(),
        2 <= radix <= 36,
    ensures
        r == parse_unsigned(b@.subrange(lo as int, hi as int), radix),
{
    let ghost s = b@.subrange(lo as int, hi as int);
    let start = if lo < hi && b[lo] == 0x2b { lo + 1 } else { lo };
    proof {
        if lo < hi && b[lo as int] == 0x2b {
            assert(s.drop_first() =~= b@.subrange(start as int, hi as int));
        }
    }
    if start == hi {
        return None;
    }
    match digits_value_upto(b, start, hi, radix, 0xffff_ffff) {
        Some(v) => Some(v as u32),
        None => None,
    }
}

/// `parse_i32(b[lo..hi])` (`str::parse::<i32>`).
pub fn parse_i32_in(b: &[u8], lo: usize, hi: usize) -> (r: Option<i32>)
    requires
        lo <= hi <= b@.len(),
    ensures
        r == parse_i32(b@.subrange(lo as int, hi as int)),
{
    let ghost s = b@.subrange(lo as int, hi as int);
    if lo < hi && b[lo] == 0x2d {
        assert(s.drop_first() =~= b@.subrange(lo + 1, hi as int));
        if lo + 1 == hi {
            return None;
        }
        match digits_value_upto(b, lo + 1, hi, 10, 0x8000_0000) {
            Some(v) => Some((0 - (v as i64)) as i32),
            None => None,
        }
    } else {
        let start = if lo < hi && b[lo] == 0x2b { lo + 1 } else { lo };
        proof {
            if lo < hi && b[lo as int] == 0x2b {
                assert(s.drop_first() =~= b@.subrange(start as int, hi as int));
            }
        }
        if start == hi {
            return None;
        }
        match digits_value_upto(b, start, hi, 10, 0x7fff_ffff) {
            Some(v) => Some(v as i32),
            None => None,
        }
    }
}

/// `base36_value(b[lo..hi])`, where it fits in a `u32`.
pub fn base36_in(b: &[u8], lo: usize, hi: usize) -> (r: u32)
    requires
        lo <= hi <= b@.len(),
        base36_value(b@.subrange(lo as int, hi as int)) <= u32::MAX,
    ensures
        r == base36_value(b@.subrange(lo as int, hi as int)),
{
    let ghost d = b@.subrange(lo as int, hi as int);
    let mut v: u32 = 0;
    let mut k: usize = lo;
    assert(d.take(0) =~= Seq::<u8>::empty());
    while k < hi
        invariant
            lo <= k <= hi <= b@.len(),
            d == b@.subrange(lo as int, hi as int),
            base36_value(d) <= u32::MAX,
            v == digits_value(d.take(k - lo), 36),
        decreases hi - k,
    {
        let c = b[k];
        let dg: u32 = match digit_of(c, 36) {
            Some(x) => x,
            None => 0,
        };
        proof {
            lemma_digits_value_take(d, 36, k - lo);
            lemma_digits_value_prefix_mono(d, 36, k - lo + 1, d.len() as int);
            assert(d.take(d.len() as int) =~= d);
        }
        v = v * 36 + dg;
        k = k + 1;
    }
    assert(d.take(hi - lo) =~= d);
    v
}


/// `c` with ASCII upper case mapped to lower case (`u8::to_ascii_lowercase`).
pub open spec fn ascii_lower(c: u8) -> u8 {
    if 0x41 <= c <= 0x5a {
        (c + 32) as u8
    } else {
        c
    }
}

/// `c` with ASCII lower case mapped to upper case (`u8::to_ascii_uppercase`).
pub open spec fn ascii_upper(c: u8) -> u8 {
    if 0x61 <= c <= 0x7a {
        (c - 32) as u8
    } else {
        c
    }
}

/// `u8::to_ascii_lowercase` for an exec caller.
pub fn lower_byte(c: u8) -> (r: u8)
    ensures
        r == ascii_lower(c),
{
    if 0x41 <= c && c <= 0x5a {
        c + 32
    } else {
        c
    }
}

/// A decimal digit `0-9`.
pub open spec fn is_dec(c: u8) -> bool {
    0x30 <= c <= 0x39
}

/// The first index from `i` on where `b` holds no decimal digit.
pub open spec fn digits_end(b: Seq<u8>, i: int) -> int
    decreases b.len() - i,
{
    if 0 <= i < b.len() && is_dec(b[i]) {
        digits_end(b, i + 1)
    } else {
        i
    }
}

/// `b` equals the lower-case ASCII `word` when its letters are lowered.
pub open spec fn eq_ignore_case(b: Seq<u8>, word: Seq<u8>) -> bool {
    b.len() == word.len() && forall|i: int| 0 <= i < b.len() ==> ascii_lower(#[trigger] b[i]) == word[i]
}

/// An exponent: `e` or `E`, an optional sign, then at least one digit.
pub open spec fn exponent_text(e: Seq<u8>) -> bool {
    let k: int = if e.len() >= 2 && (e[1] == 0x2b || e[1] == 0x2d) {
        2
    } else {
        1
    };
    &&& e.len() >= 2
    &&& ascii_lower(e[0]) == 0x65
    &&& k < e.len()
    &&& forall|i: int| k <= i < e.len() ==> is_dec(#[trigger] e[i])
}

/// A decimal number: digits, optionally a `.` and more digits (at least one
/// digit in all), then optionally an exponent.
pub open spec fn number_text(u: Seq<u8>) -> bool {
    let i = digits_end(u, 0);
    let j = if i < u.len() && u[i] == 0x2e {
        digits_end(u, i + 1)
    } else {
        i
    };
    &&& (i > 0 || j > i + 1)
    &&& (j == u.len() || exponent_text(u.subrange(j, u.len() as int)))
}

/// The bytes that `str::parse::<f64>` accepts: an optional sign, then
/// `inf`, `infinity`, `nan` (any case) or a decimal number.
pub open spec fn float_text(b: Seq<u8>) -> bool {
    let u = if b.len() > 0 && (b[0] == 0x2b || b[0] == 0x2d) {
        b.drop_first()
    } else {
        b
    };
    ||| eq_ignore_case(u, seq![0x69u8, 0x6e, 0x66])
    ||| eq_ignore_case(u, seq![0x69u8, 0x6e, 0x66, 0x69, 0x6e, 0x69, 0x74, 0x79])
    ||| eq_ignore_case(u, seq![0x6eu8, 0x61, 0x6e])
    ||| number_text(u)
}

proof fn lemma_digits_end_bounds(b: Seq<u8>, i: int)
    requires
        0 <= i <= b.len(),
    ensures
        i <= digits_end(b, i) <= b.len(),
        forall|k: int| i <= k < digits_end(b, i) ==> is_dec(#[trigger] b[k]),
        digits_end(b, i) < b.len() ==> !is_dec(b[digits_end(b, i)]),
    decreases b.len() - i,
{
    if i < b.len() && is_dec(b[i]) {
        lemma_digits_end_bounds(b, i + 1);
    }
}

fn digits_end_in(b: &[u8], lo: usize, hi: usize, i: usize) -> (r: usize)
    requires
        lo <= i <= hi <= b@.len(),
    ensures
        r == lo + digits_end(b@.subrange(lo as int, hi as int), i - lo),
        i <= r <= hi,
{
    let ghost s = b@.subrange(lo as int, hi as int);
    let mut k = i;
    while k < hi && 0x30 <= b[k] && b[k] <= 0x39
        invariant
            lo <= i <= k <= hi <= b@.len(),
            s == b@.subrange(lo as int, hi as int),
            digits_end(s, i - lo) == digits_end(s, k - lo),
        decreases hi - k,
    {
        k = k + 1;
    }
    k
}

fn eq_ignore_case_in(b: &[u8], lo: usize, hi: usize, word: &[u8]) -> (r: bool)
    requires
        lo <= hi <= b@.len(),
    ensures
        r == eq_ignore_case(b@.subrange(lo as int, hi as int), word@),
{
    let ghost s = b@.subrange(lo as int, hi as int);
    if hi - lo != word.len() {
        return false;
    }
    let mut k: usize = 0;
    while k < word.len()
        invariant
            lo <= hi <= b@.len(),
            hi - lo == word@.len(),
            s == b@.subrange(lo as int, hi as int),
            k <= word@.len(),
            forall|i: int| 0 <= i < k ==> ascii_lower(#[trigger] s[i]) == word@[i],
        decreases word@.len() - k,
    {
        if lower_byte(b[lo + k]) != word[k] {
            assert(s[k as int] == b@[lo + k]);
            return false;
        }
        k = k + 1;
    }
    true
}

/// `exponent_text(b[lo..hi])`.
fn is_exponent_in(b: &[u8], lo: usize, hi: usize) -> (r: bool)
    requires
        lo <= hi <= b@.len(),
    ensures
        r == exponent_text(b@.subrange(lo as int, hi as int)),
{
    let ghost e = b@.subrange(lo as int, hi as int);
    if hi - lo < 2 || lower_byte(b[lo]) != 0x65 {
        return false;
    }
    assert(e[0] == b@[lo as int] && e[1] == b@[lo + 1]);
    let k = if b[lo + 1] == 0x2b || b[lo + 1] == 0x2d { lo + 2 } else { lo + 1 };
    if k >= hi {
        return false;
    }
    let mut m = k;
    while m < hi
        invariant
            lo < k <= m <= hi <= b@.len(),
            e == b@.subrange(lo as int, hi as int),
            e.len() >= 2,
            ascii_lower(e[0]) == 0x65,
            k - lo == (if e[1] == 0x2b || e[1] == 0x2d { 2int } else { 1int }),
            forall|x: int| k - lo <= x < m - lo ==> is_dec(#[trigger] e[x]),
        decreases hi - m,
    {
        if !(0x30 <= b[m] && b[m] <= 0x39) {
            assert(e[m - lo] == b@[m as int]);
            return false;
        }
        m = m + 1;
    }
    true
}

/// `number_text(b[lo..hi])`.
fn is_number_in(b: &[u8], lo: usize, hi: usize) -> (r: bool)
    requires
        lo <= hi <= b@.len(),
    ensures
        r == number_text(b@.subrange(lo as int, hi as int)),
{
    let ghost u = b@.subrange(lo as int, hi as int);
    let i = digits_end_in(b, lo, hi, lo);
    let j = if i < hi && b[i] == 0x2e { digits_end_in(b, lo, hi, i + 1) } else { i };
    proof {
        if i < hi {
            assert(u[i - lo] == b@[i as int]);
        }
    }
    if !(i > lo || j - i > 1) {
        return false;
    }
    if j == hi {
        return true;
    }
    assert(u.subrange(j - lo, u.len() as int) =~= b@.subrange(j as int, hi as int));
    is_exponent_in(b, j, hi)
}

/// `float_text(b[lo..hi])`: whether `str::parse::<f64>` accepts that text.
pub fn is_float_text_in(b: &[u8], lo: usize, hi: usize) -> (r: bool)
    requires
        lo <= hi <= b@.len(),
    ensures
        r == float_text(b@.subrange(lo as int, hi as int)),
{
    let ghost s = b@.subrange(lo as int, hi as int);
    let start = if lo < hi && (b[lo] == 0x2b || b[lo] == 0x2d) { lo + 1 } else { lo };
    let ghost u = b@.subrange(start as int, hi as int);
    proof {
        if lo < hi && (b[lo as int] == 0x2b || b[lo as int] == 0x2d) {
            assert(s.drop_first() =~= u);
        } else {
            assert(s =~= u);
        }
    }
    let w_inf: [u8; 3] = [0x69, 0x6e, 0x66];
    let w_infinity: [u8; 8] = [0x69, 0x6e, 0x66, 0x69, 0x6e, 0x69, 0x74, 0x79];
    let w_nan: [u8; 3] = [0x6e, 0x61, 0x6e];
    assert(w_inf@ =~= seq![0x69u8, 0x6e, 0x66]);
    assert(w_infinity@ =~= seq![0x69u8, 0x6e, 0x66, 0x69, 0x6e, 0x69, 0x74, 0x79]);
    assert(w_nan@ =~= seq![0x6eu8, 0x61, 0x6e]);
    if eq_ignore_case_in(b, start, hi, &w_inf) || eq_ignore_case_in(b, start, hi, &w_infinity)
        || eq_ignore_case_in(b, start, hi, &w_nan) {
        return true;
    }
    is_number_in(b, start, hi)
}

} // verus!
