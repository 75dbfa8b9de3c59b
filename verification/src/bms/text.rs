//! Byte-level views of UTF-8 text: character starts, Unicode white space,
//! trimming, and slicing a `str` at character starts.

use vstd::prelude::*;
use vstd::string::StringSliceAdditionalSpecFns;
use vstd::utf8::*;

verus! {

broadcast use vstd::utf8::encode_utf8_valid_utf8;

/// `i` is where a character starts in `b`, or the end of `b`: in valid UTF-8
/// that is every index whose byte is not a continuation byte.
pub open spec fn at_char_start(b: Seq<u8>, i: int) -> bool {
    i == b.len() || (0 <= i < b.len() && !is_continuation_byte(b[i]))
}

/// Byte length of the UTF-8 character whose leading byte is `lead`.
pub open spec fn char_width(lead: u8) -> int {
    if lead < 0x80 {
        1
    } else if 0xc0 <= lead <= 0xdf {
        2
    } else if 0xe0 <= lead <= 0xef {
        3
    } else {
        4
    }
}

proof fn lemma_char_start_is_boundary(b: Seq<u8>, i: int)
    requires
        valid_utf8(b),
        at_char_start(b, i),
    ensures
        is_char_boundary(b, i),
{
    if i == b.len() {
        is_char_boundary_start_end_of_seq(b);
    } else {
        is_char_boundary_iff_not_is_continuation_byte(b, i);
    }
}

proof fn lemma_boundary_step(b: Seq<u8>, i: int)
    requires
        valid_utf8(b),
        is_char_boundary(b, i),
        0 <= i < b.len(),
    ensures
        valid_first_scalar(b.subrange(i, b.len() as int)),
        i + length_of_first_scalar(b.subrange(i, b.len() as int)) <= b.len(),
        is_char_boundary(b, i + length_of_first_scalar(b.subrange(i, b.len() as int))),
    decreases b.len(),
{
    let suf = b.subrange(i, b.len() as int);
    valid_utf8_split(b, i);
    assert(valid_first_scalar(suf));
    let k = length_of_first_scalar(suf);
    let l0 = length_of_first_scalar(b);
    let pop = pop_first_scalar(b);
    if i == 0 {
        assert(suf =~= b);
        assert(is_char_boundary(pop, 0));
    } else {
        assert(i >= l0);
        assert(pop.subrange(i - l0, pop.len() as int) =~= suf);
        lemma_boundary_step(pop, i - l0);
    }
}

/// After the character that starts at `i`, another one starts (or the text ends).
pub proof fn lemma_next_char_start(b: Seq<u8>, i: int)
    requires
        valid_utf8(b),
        at_char_start(b, i),
        i < b.len(),
    ensures
        i + char_width(b[i]) <= b.len(),
        at_char_start(b, i + char_width(b[i])),
{
    lemma_char_start_is_boundary(b, i);
    lemma_boundary_step(b, i);
    let suf = b.subrange(i, b.len() as int);
    assert(suf[0] == b[i]);
    let j = i + char_width(b[i]);
    if j < b.len() {
        is_char_boundary_iff_not_is_continuation_byte(b, j);
    }
}

/// The bytes of `s`; they are valid UTF-8.
pub fn str_bytes(s: &str) -> (r: &[u8])
    ensures
        r@ == s.spec_bytes(),
        valid_utf8(r@),
{
    s.as_bytes()
}

/// The part of `s` between the byte offsets `lo` and `hi`.
pub fn slice(s: &str, lo: usize, hi: usize) -> (r: &str)
    requires
        lo <= hi <= s.spec_bytes().len(),
        at_char_start(s.spec_bytes(), lo as int),
        at_char_start(s.spec_bytes(), hi as int),
    ensures
        r.spec_bytes() == s.spec_bytes().subrange(lo as int, hi as int),
{
    let ghost b = s.spec_bytes();
    proof {
        lemma_char_start_is_boundary(b, hi as int);
    }
    let (a, _) = s.split_at(hi);
    proof {
        let ab = a.spec_bytes();
        assert(ab =~= b.subrange(0, hi as int));
        assert(at_char_start(ab, lo as int));
        lemma_char_start_is_boundary(ab, lo as int);
    }
    let (_, c) = a.split_at(lo);
    proof {
        assert(c.spec_bytes() =~= b.subrange(lo as int, hi as int));
    }
    c
}


/// ASCII white space as `char::is_whitespace` sees it: tab, line feed,
/// vertical tab, form feed, carriage return and space.
pub open spec fn is_ascii_ws(c: u8) -> bool {
    c == 0x20 || (0x09 <= c <= 0x0d)
}

/// Byte length of the white-space character (Unicode `White_Space`, as
/// `char::is_whitespace` tests it) that starts at `i` in `b`, or 0 where none
/// does. Besides ASCII these are U+0085, U+00A0, U+1680, U+2000..U+200A,
/// U+2028, U+2029, U+202F, U+205F and U+3000.
pub open spec fn ws_width(b: Seq<u8>, i: int) -> int {
    if i < 0 || i >= b.len() {
        0
    } else if is_ascii_ws(b[i]) {
        1
    } else if b[i] == 0xc2 && i + 1 < b.len() && (b[i + 1] == 0x85 || b[i + 1] == 0xa0) {
        2
    } else if i + 2 < b.len() && (
        (b[i] == 0xe1 && b[i + 1] == 0x9a && b[i + 2] == 0x80)
        || (b[i] == 0xe2 && b[i + 1] == 0x80 && (0x80 <= b[i + 2] <= 0x8a || b[i + 2] == 0xa8
            || b[i + 2] == 0xa9 || b[i + 2] == 0xaf))
        || (b[i] == 0xe2 && b[i + 1] == 0x81 && b[i + 2] == 0x9f)
        || (b[i] == 0xe3 && b[i + 1] == 0x80 && b[i + 2] == 0x80)) {
        3
    } else {
        0
    }
}

/// Byte length of the white-space character that ends at `e` in `b`, or 0.
pub open spec fn ws_width_before(b: Seq<u8>, e: int) -> int {
    if ws_width(b, e - 1) == 1 {
        1
    } else if ws_width(b, e - 2) == 2 {
        2
    } else if ws_width(b, e - 3) == 3 {
        3
    } else {
        0
    }
}

/// `b` without its leading white space (`str::trim_start`).
pub open spec fn trim_start(b: Seq<u8>) -> Seq<u8>
    decreases b.len(),
{
    if ws_width(b, 0) > 0 {
        trim_start(b.subrange(ws_width(b, 0), b.len() as int))
    } else {
        b
    }
}

/// `b` without its trailing white space (`str::trim_end`).
pub open spec fn trim_end(b: Seq<u8>) -> Seq<u8>
    decreases b.len(),
{
    if ws_width_before(b, b.len() as int) > 0 {
        trim_end(b.subrange(0, b.len() - ws_width_before(b, b.len() as int)))
    } else {
        b
    }
}

/// `b` without leading and trailing white space (`str::trim`).
pub open spec fn trim(b: Seq<u8>) -> Seq<u8> {
    trim_end(trim_start(b))
}

/// `ws_width(b@.subrange(lo, hi), i - lo)`, computed on `b` in place.
pub fn ws_width_in(b: &[u8], lo: usize, hi: usize, i: usize) -> (r: usize)
    requires
        lo <= i <= hi <= b@.len(),
    ensures
        r == ws_width(b@.subrange(lo as int, hi as int), i - lo),
        r <= hi - i,
{
    let ghost s = b@.subrange(lo as int, hi as int);
    if i >= hi {
        return 0;
    }
    let c = b[i];
    if c == 0x20 || (0x09 <= c && c <= 0x0d) {
        return 1;
    }
    if c == 0xc2 && hi - i > 1 && (b[i + 1] == 0x85 || b[i + 1] == 0xa0) {
        return 2;
    }
    if hi - i > 2 {
        let c1 = b[i + 1];
        let c2 = b[i + 2];
        if (c == 0xe1 && c1 == 0x9a && c2 == 0x80) || (c == 0xe2 && c1 == 0x80 && ((0x80 <= c2
            && c2 <= 0x8a) || c2 == 0xa8 || c2 == 0xa9 || c2 == 0xaf)) || (c == 0xe2 && c1 == 0x81
            && c2 == 0x9f) || (c == 0xe3 && c1 == 0x80 && c2 == 0x80) {
            return 3;
        }
    }
    0
}

/// `ws_width_before(b@.subrange(lo, hi), e - lo)`, computed on `b` in place.
pub fn ws_width_before_in(b: &[u8], lo: usize, hi: usize, e: usize) -> (r: usize)
    requires
        lo <= e <= hi <= b@.len(),
    ensures
        r == ws_width_before(b@.subrange(lo as int, hi as int), e - lo),
        r <= e - lo,
{
    if e - lo >= 1 && ws_width_in(b, lo, hi, e - 1) == 1 {
        1
    } else if e - lo >= 2 && ws_width_in(b, lo, hi, e - 2) == 2 {
        2
    } else if e - lo >= 3 && ws_width_in(b, lo, hi, e - 3) == 3 {
        3
    } else {
        0
    }
}

/// A white-space character at a character start is followed by another
/// character start.
pub proof fn lemma_after_ws(b: Seq<u8>, i: int)
    requires
        valid_utf8(b),
        at_char_start(b, i),
        ws_width(b, i) > 0,
    ensures
        at_char_start(b, i + ws_width(b, i)),
{
    lemma_next_char_start(b, i);
}

/// `s` without leading and trailing white space (`str::trim`).
pub fn trim_str(s: &str) -> (r: &str)
    ensures
        r.spec_bytes() == trim(s.spec_bytes()),
{
    let b = str_bytes(s);
    let n = b.len();
    let mut i: usize = 0;
    assert(b@.subrange(0, n as int) =~= b@);
    while ws_width_in(b, 0, n, i) > 0
        invariant
            n == b@.len(),
            i <= n,
            at_char_start(b@, i as int),
            valid_utf8(b@),
            trim_start(b@) == trim_start(b@.subrange(i as int, n as int)),
            b@.subrange(0, n as int) == b@,
        decreases n - i,
    {
        let w = ws_width_in(b, 0, n, i);
        proof {
            let t = b@.subrange(i as int, n as int);
            assert(ws_width(t, 0) == w);
            assert(t.subrange(w as int, t.len() as int) =~= b@.subrange(i + w, n as int));
            lemma_after_ws(b@, i as int);
        }
        i = i + w;
    }
    proof {
        let t = b@.subrange(i as int, n as int);
        assert(ws_width(t, 0) == ws_width(b@, i as int));
    }
    let mut j: usize = n;
    while j > i && ws_width_before_in(b, i, n, j) > 0
        invariant
            n == b@.len(),
            i <= j <= n,
            at_char_start(b@, i as int),
            at_char_start(b@, j as int),
            trim(b@) == trim_end(b@.subrange(i as int, j as int)),
        decreases j,
    {
        let w = ws_width_before_in(b, i, n, j);
        proof {
            let t = b@.subrange(i as int, j as int);
            let u = b@.subrange(i as int, n as int);
            assert forall|k: int| 0 <= k < j - i implies t[k] == u[k] by {}
            assert(ws_width_before(t, t.len() as int) == w);
            assert(t.subrange(0, t.len() - w) =~= b@.subrange(i as int, j - w));
        }
        j = j - w;
    }
    proof {
        let t = b@.subrange(i as int, j as int);
        assert(ws_width_before(t, t.len() as int) == 0);
    }
    slice(s, i, j)
}


/// Replacing ASCII bytes by ASCII bytes, and keeping every other byte, keeps
/// a text valid UTF-8.
pub proof fn lemma_ascii_remap_valid(b: Seq<u8>, b2: Seq<u8>)
    requires
        valid_utf8(b),
        b2.len() == b.len(),
        forall|i: int|
            0 <= i < b.len() ==> (#[trigger] b[i] < 0x80 ==> b2[i] < 0x80) && (b[i] >= 0x80
                ==> b2[i] == b[i]),
    ensures
        valid_utf8(b2),
    decreases b.len(),
{
    if b.len() > 0 {
        let l = length_of_first_scalar(b);
        if b[0] < 0x80 {
            let c = b2[0];
            assert(c < 0x80);
            assert((c & 0x7f) as u32 <= 0x7f) by (bit_vector);
            assert(valid_first_scalar(b2));
        } else {
            assert(b[0] == b2[0]);
            assert(b.len() >= l);
            assert forall|k: int| 0 <= k < l implies b2[k] == b[k] by {
                if k > 0 {
                    assert(b[k] >= 0x80);
                }
            }
            assert(valid_first_scalar(b2));
        }
        let p = pop_first_scalar(b);
        let p2 = pop_first_scalar(b2);
        assert forall|i: int| 0 <= i < p.len() implies (#[trigger] p[i] < 0x80 ==> p2[i] < 0x80) && (
        p[i] >= 0x80 ==> p2[i] == p[i]) by {
            assert(p[i] == b[i + l]);
            assert(p2[i] == b2[i + l]);
        }
        lemma_ascii_remap_valid(p, p2);
    }
}

/// In valid `key` that begins with the complete valid text `head`, a
/// character starts right after `head`.
pub proof fn lemma_prefix_char_start(key: Seq<u8>, head: Seq<u8>)
    requires
        valid_utf8(key),
        valid_utf8(head),
        head.len() <= key.len(),
        key.subrange(0, head.len() as int) == head,
    ensures
        at_char_start(key, head.len() as int),
{
    lemma_prefix_boundary(key, head);
    if head.len() < key.len() {
        is_char_boundary_iff_not_is_continuation_byte(key, head.len() as int);
    }
}

proof fn lemma_prefix_boundary(key: Seq<u8>, head: Seq<u8>)
    requires
        valid_utf8(key),
        valid_utf8(head),
        head.len() <= key.len(),
        key.subrange(0, head.len() as int) == head,
    ensures
        is_char_boundary(key, head.len() as int),
    decreases head.len(),
{
    if head.len() > 0 {
        assert(head[0] == key[0]);
        let l = length_of_first_scalar(key);
        assert(length_of_first_scalar(head) == l);
        assert forall|k: int| 0 <= k < l implies key[k] == head[k] by {
            assert(key.subrange(0, head.len() as int)[k] == key[k]);
        }
        let pk = pop_first_scalar(key);
        let ph = pop_first_scalar(head);
        assert(pk.subrange(0, ph.len() as int) =~= ph) by {
            assert forall|k: int| 0 <= k < ph.len() implies pk[k] == ph[k] by {
                assert(key.subrange(0, head.len() as int)[k + l] == key[k + l]);
            }
        }
        lemma_prefix_boundary(pk, ph);
    }
}

/// A `String` holding the valid UTF-8 bytes `v` (`String::from_utf8`, which
/// succeeds exactly on valid UTF-8 and then keeps the bytes as they are).
#[verifier::external_body]
pub fn string_from_utf8(v: Vec<u8>) -> (r: String)
    requires
        valid_utf8(v@),
    ensures
        encode_utf8(r@) == v@,
{
    String::from_utf8(v).unwrap()
}

/// Whether the two byte strings are equal.
pub fn bytes_eq(a: &[u8], b: &[u8]) -> (r: bool)
    ensures
        r == (a@ == b@),
{
    if a.len() != b.len() {
        return false;
    }
    let mut i: usize = 0;
    while i < a.len()
        invariant
            a@.len() == b@.len(),
            i <= a@.len(),
            forall|k: int| 0 <= k < i ==> a@[k] == b@[k],
        decreases a@.len() - i,
    {
        if a[i] != b[i] {
            return false;
        }
        i = i + 1;
    }
    assert(a@ =~= b@);
    true
}

} // verus!
