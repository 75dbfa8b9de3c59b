//! BMS file parser implementing a pragmatic subset of the format.
//!
//! A BMS file is a text file made of lines of the form `#<command> <args>`.
//! Data (note) lines look like `#<measure><channel>:<obj><obj>...` where
//! `<measure>` is three decimal digits, `<channel>` is hex, and `<obj>` are
//! two-character base-36 ids; the looser `#<measure>:<channel> <objs>` form is
//! accepted too. Every function here states its result over the UTF-8 bytes
//! of its text arguments.

use vstd::prelude::*;
use vstd::string::StringSliceAdditionalSpecFns;
use vstd::utf8::*;

use super::model::{BmsData, BmsNote, ChartModel, ObjId, text_map};
use super::numbers::{
    is_dec, all_digits, digits_value, radix_digit, ascii_lower, ascii_upper, base36_in, base36_value, is_float_text_in, lemma_base36_two_digits, lower_byte,
    parse_i32, parse_i32_in, parse_unsigned, parse_unsigned_in, float_text,
};
use super::text::{
    at_char_start, lemma_after_ws, lemma_ascii_remap_valid, lemma_next_char_start,
    lemma_prefix_char_start, slice, str_bytes, string_from_utf8, trim, trim_start, trim_end,
    trim_str, ws_width, ws_width_before, ws_width_in, bytes_eq,
};

verus! {

broadcast use vstd::utf8::encode_utf8_valid_utf8;

/// The bytes of an optional text.
pub open spec fn opt_bytes(o: Option<&str>) -> Option<Seq<u8>> {
    match o {
        Some(s) => Some(s.spec_bytes()),
        None => None,
    }
}

/// Index of the first byte `c` in `b` at or after `i`, or `b.len()`.
pub open spec fn find_byte(b: Seq<u8>, c: u8, i: int) -> int
    decreases b.len() - i,
{
    if i < 0 || i >= b.len() {
        b.len() as int
    } else if b[i] == c {
        i
    } else {
        find_byte(b, c, i + 1)
    }
}

/// Index of the first `//` in `b` at or after `i`, or -1.
pub open spec fn find_double_slash(b: Seq<u8>, i: int) -> int
    decreases b.len() - i,
{
    if i < 0 || i + 1 >= b.len() {
        -1
    } else if b[i] == 0x2f && b[i + 1] == 0x2f {
        i
    } else {
        find_double_slash(b, i + 1)
    }
}

/// Index of the first white-space character in `b` at or after `i`, or -1.
pub open spec fn first_ws(b: Seq<u8>, i: int) -> int
    decreases b.len() - i,
{
    if i < 0 || i >= b.len() {
        -1
    } else if ws_width(b, i) > 0 {
        i
    } else {
        first_ws(b, i + 1)
    }
}

/// `line` cut before its first `//`, unless that `//` follows a `:` (as in a
/// URL); a `//` at the very start always cuts.
pub open spec fn spec_strip_comment(b: Seq<u8>) -> Seq<u8> {
    let p = find_double_slash(b, 0);
    if p >= 0 && (p == 0 || b[p - 1] != 0x3a) {
        b.subrange(0, p)
    } else {
        b
    }
}

/// The first token of a line: everything before its first white space.
pub open spec fn token_head(b: Seq<u8>) -> Seq<u8> {
    let p = first_ws(b, 0);
    if p < 0 {
        b
    } else {
        b.subrange(0, p)
    }
}

/// What follows the first white-space character of a line, if it has one.
pub open spec fn token_tail(b: Seq<u8>) -> Option<Seq<u8>> {
    let p = first_ws(b, 0);
    if p < 0 {
        None
    } else {
        Some(b.subrange(p + ws_width(b, p), b.len() as int))
    }
}

/// `b` with every backslash turned into a slash.
pub open spec fn spec_normalize_path(b: Seq<u8>) -> Seq<u8> {
    b.map_values(|c: u8| if c == 0x5c { 0x2fu8 } else { c })
}

/// `b` with ASCII letters lowered (`str::to_ascii_lowercase`).
pub open spec fn lower_bytes(b: Seq<u8>) -> Seq<u8> {
    b.map_values(|c: u8| ascii_lower(c))
}

/// `b` with ASCII letters raised (`str::to_ascii_uppercase`).
pub open spec fn upper_bytes(b: Seq<u8>) -> Seq<u8> {
    b.map_values(|c: u8| ascii_upper(c))
}

/// The object id after `head` in `key`, where `key` is `head` and exactly
/// two more bytes.
pub open spec fn spec_strip_key(key: Seq<u8>, head: Seq<u8>) -> Option<u32> {
    if key.len() == head.len() + 2 && key.subrange(0, head.len() as int) == head {
        Some(base36_value(key.subrange(head.len() as int, key.len() as int)) as u32)
    } else {
        None
    }
}

/// `parse_channel` does not panic on `s`: after trimming, a channel longer
/// than two bytes has a character start at byte 2.
pub open spec fn channel_ok(s: Seq<u8>) -> bool {
    let t = trim(s);
    t.len() <= 2 || at_char_start(t, 2)
}

/// The channel number: the first two bytes of the trimmed text read as hex,
/// or, where they are no hex number, as base 36; 0 for empty text.
pub open spec fn spec_parse_channel(s: Seq<u8>) -> u32 {
    let t = trim(s);
    if t.len() == 0 {
        0
    } else {
        let u = if t.len() > 2 {
            t.subrange(0, 2)
        } else {
            t
        };
        match parse_unsigned(u, 16) {
            Some(v) => v,
            None => base36_value(u) as u32,
        }
    }
}

/// `s` cut before its comment (see `spec_strip_comment`).
pub fn strip_comment(line: &str) -> (r: &str)
    ensures
        r.spec_bytes() == spec_strip_comment(line.spec_bytes()),
{
    let b = str_bytes(line);
    let n = b.len();
    let mut i: usize = 0;
    while n - i > 1 && !(b[i] == 0x2f && b[i + 1] == 0x2f)
        invariant
            n == b@.len(),
            i <= n,
            find_double_slash(b@, 0) == find_double_slash(b@, i as int),
        decreases n - i,
    {
        i = i + 1;
    }
    if n - i > 1 && (i == 0 || b[i - 1] != 0x3a) {
        slice(line, 0, i)
    } else {
        line
    }
}

/// The first token of `line` and, if there is white space, what follows the
/// first white-space character (`splitn(2, char::is_whitespace)`).
pub fn split_first_token(line: &str) -> (r: Option<(&str, Option<&str>)>)
    ensures
        r matches Some((h, t)) && h.spec_bytes() == token_head(line.spec_bytes()) && opt_bytes(t)
            == token_tail(line.spec_bytes()),
{
    let b = str_bytes(line);
    let n = b.len();
    assert(b@.subrange(0, n as int) =~= b@);
    let mut i: usize = 0;
    while i < n && ws_width_in(b, 0, n, i) == 0
        invariant
            n == b@.len(),
            i <= n,
            b@.subrange(0, n as int) == b@,
            first_ws(b@, 0) == first_ws(b@, i as int),
        decreases n - i,
    {
        i = i + 1;
    }
    if i == n {
        Some((line, None))
    } else {
        let w = ws_width_in(b, 0, n, i);
        proof {
            lemma_after_ws(b@, i as int);
        }
        Some((slice(line, 0, i), Some(slice(line, i + w, n))))
    }
}

/// `p` with backslashes turned into slashes.
pub fn normalize_path(p: &str) -> (r: String)
    ensures
        encode_utf8(r@) == spec_normalize_path(p.spec_bytes()),
{
    let b = str_bytes(p);
    let mut v: Vec<u8> = Vec::new();
    let mut i: usize = 0;
    while i < b.len()
        invariant
            i <= b@.len(),
            v@ == spec_normalize_path(b@.subrange(0, i as int)),
        decreases b@.len() - i,
    {
        let c = b[i];
        v.push(if c == 0x5c { 0x2f } else { c });
        assert(b@.subrange(0, i + 1).drop_last() =~= b@.subrange(0, i as int));
        assert(spec_normalize_path(b@.subrange(0, i + 1)) =~= spec_normalize_path(
            b@.subrange(0, i as int),
        ).push(if c == 0x5c { 0x2fu8 } else { c }));
        i = i + 1;
    }
    assert(b@.subrange(0, b@.len() as int) =~= b@);
    proof {
        lemma_ascii_remap_valid(b@, v@);
    }
    string_from_utf8(v)
}

/// `s` with ASCII letters lowered.
pub fn ascii_lowercase(s: &str) -> (r: String)
    ensures
        encode_utf8(r@) == lower_bytes(s.spec_bytes()),
{
    let b = str_bytes(s);
    let mut v: Vec<u8> = Vec::new();
    let mut i: usize = 0;
    while i < b.len()
        invariant
            i <= b@.len(),
            v@ == lower_bytes(b@.subrange(0, i as int)),
        decreases b@.len() - i,
    {
        let c = b[i];
        v.push(lower_byte(c));
        assert(lower_bytes(b@.subrange(0, i + 1)) =~= lower_bytes(b@.subrange(0, i as int)).push(
            ascii_lower(c),
        ));
        i = i + 1;
    }
    assert(b@.subrange(0, b@.len() as int) =~= b@);
    proof {
        lemma_ascii_remap_valid(b@, v@);
    }
    string_from_utf8(v)
}

/// The object id that follows `head` in `key`, where exactly two bytes
/// follow it.
pub fn strip_key(key: &str, head: &str) -> (r: Option<ObjId>)
    ensures
        r matches Some(id) ==> spec_strip_key(key.spec_bytes(), head.spec_bytes()) == Some(id.0),
        r is None ==> spec_strip_key(key.spec_bytes(), head.spec_bytes()) is None,
{
    let kb = str_bytes(key);
    let hb = str_bytes(head);
    if kb.len() < hb.len() {
        return None;
    }
    let mut i: usize = 0;
    while i < hb.len()
        invariant
            kb@ == key.spec_bytes(),
            hb@ == head.spec_bytes(),
            hb@.len() <= kb@.len(),
            i <= hb@.len(),
            forall|k: int| 0 <= k < i ==> kb@[k] == hb@[k],
        decreases hb@.len() - i,
    {
        if kb[i] != hb[i] {
            assert(kb@.subrange(0, hb@.len() as int)[i as int] != hb@[i as int]);
            assert(kb@.subrange(0, hb@.len() as int) != hb@);
            return None;
        }
        i = i + 1;
    }
    assert(kb@.subrange(0, hb@.len() as int) =~= hb@);
    if kb.len() - hb.len() != 2 {
        return None;
    }
    proof {
        lemma_prefix_char_start(kb@, hb@);
        lemma_base36_two_digits(kb@.subrange(hb@.len() as int, kb@.len() as int));
    }
    let id = slice(key, hb.len(), kb.len());
    Some(ObjId::from_hex36(id))
}

proof fn lemma_trim_start_len(b: Seq<u8>)
    ensures
        trim_start(b).len() <= b.len(),
    decreases b.len(),
{
    if ws_width(b, 0) > 0 {
        lemma_trim_start_len(b.subrange(ws_width(b, 0), b.len() as int));
    }
}

proof fn lemma_trim_end_len(b: Seq<u8>)
    ensures
        trim_end(b).len() <= b.len(),
    decreases b.len(),
{
    if ws_width_before(b, b.len() as int) > 0 {
        lemma_trim_end_len(b.subrange(0, b.len() - ws_width_before(b, b.len() as int)));
    }
}

/// Trimming never lengthens a text.
pub proof fn lemma_trim_len(b: Seq<u8>)
    ensures
        trim(b).len() <= b.len(),
{
    lemma_trim_start_len(b);
    lemma_trim_end_len(trim_start(b));
}

/// The channel number of a note line (see `spec_parse_channel`).
pub fn parse_channel(s: &str) -> (r: u32)
    requires
        channel_ok(s.spec_bytes()),
    ensures
        r == spec_parse_channel(s.spec_bytes()),
{
    let t = trim_str(s);
    let tb = str_bytes(t);
    if tb.len() == 0 {
        return 0;
    }
    let u = if tb.len() > 2 { slice(t, 0, 2) } else { t };
    let ub = str_bytes(u);
    assert(ub@.subrange(0, ub@.len() as int) =~= ub@);
    match parse_unsigned_in(ub, 0, ub.len(), 16) {
        Some(v) => v,
        None => {
            proof {
                lemma_base36_two_digits(ub@);
            }
            base36_in(ub, 0, ub.len())
        },
    }
}


/// The measure, channel and object data of a note line, given its first
/// token `head` and the rest of the line: `mmmcc:data` (or `mmmcc:` with the
/// data after white space) and `mmm:cc data`, where `mmm` is a decimal
/// measure.
pub open spec fn spec_note_line(head: Seq<u8>, rest: Option<Seq<u8>>) -> Option<(u32, u32, Seq<u8>)> {
    let p = find_byte(head, 0x3a, 0);
    if p >= head.len() {
        None
    } else {
        let left = head.subrange(0, p);
        let after = head.subrange(p + 1, head.len() as int);
        if left.len() == 3 {
            match rest {
                None => None,
                Some(objs) => match parse_unsigned(trim(left), 10) {
                    None => None,
                    Some(m) => Some((m, spec_parse_channel(after), trim(objs))),
                },
            }
        } else if left.len() == 5 {
            match parse_unsigned(left.subrange(0, 3), 10) {
                None => None,
                Some(m) => Some(
                    (
                        m,
                        spec_parse_channel(left.subrange(3, 5)),
                        trim(
                            match rest {
                                Some(r) => r,
                                None => after,
                            },
                        ),
                    ),
                ),
            }
        } else {
            None
        }
    }
}

/// `parse_note_line` does not panic: a five-byte `mmmcc` has a character
/// start after `mmm`, and the channel of a `mmm:cc` line is `channel_ok`.
pub open spec fn note_line_ok(head: Seq<u8>, rest: Option<Seq<u8>>) -> bool {
    let p = find_byte(head, 0x3a, 0);
    let left = head.subrange(0, p);
    let after = head.subrange(p + 1, head.len() as int);
    p >= head.len() || ((left.len() == 3 ==> rest is None || parse_unsigned(trim(left), 10) is None
        || channel_ok(after)) && (left.len() == 5 ==> at_char_start(left, 3)))
}

pub proof fn lemma_find_byte(b: Seq<u8>, c: u8, i: int)
    requires
        0 <= i <= b.len(),
    ensures
        i <= find_byte(b, c, i) <= b.len(),
        find_byte(b, c, i) < b.len() ==> b[find_byte(b, c, i)] == c,
    decreases b.len() - i,
{
    if i < b.len() && b[i] != c {
        lemma_find_byte(b, c, i + 1);
    }
}

/// Index of the first byte `c` of `s`, or its length.
fn find_byte_in(b: &[u8], c: u8) -> (r: usize)
    ensures
        r == find_byte(b@, c, 0),
        r <= b@.len(),
{
    let mut i: usize = 0;
    while i < b.len() && b[i] != c
        invariant
            i <= b@.len(),
            find_byte(b@, c, 0) == find_byte(b@, c, i as int),
        decreases b@.len() - i,
    {
        i = i + 1;
    }
    i
}

/// Measure, channel and object data of a note line (see `spec_note_line`).
pub fn parse_note_line<'a>(head: &'a str, rest: Option<&'a str>) -> (r: Option<(u32, u32, &'a str)>)
    requires
        note_line_ok(head.spec_bytes(), opt_bytes(rest)),
    ensures
        match r {
            Some((m, c, o)) => spec_note_line(head.spec_bytes(), opt_bytes(rest)) == Some(
                (m, c, o.spec_bytes()),
            ),
            None => spec_note_line(head.spec_bytes(), opt_bytes(rest)) is None,
        },
{
    let b = str_bytes(head);
    let p = find_byte_in(b, 0x3a);
    if p == b.len() {
        return None;
    }
    proof {
        lemma_find_byte(b@, 0x3a, 0);
        lemma_next_char_start(b@, p as int);
    }
    let left = slice(head, 0, p);
    let after = slice(head, p + 1, b.len());
    let lb = str_bytes(left);
    if lb.len() == 3 {
        let objs = match rest {
            Some(o) => o,
            None => return None,
        };
        let lt = trim_str(left);
        let ltb = str_bytes(lt);
        assert(ltb@.subrange(0, ltb@.len() as int) =~= ltb@);
        let measure = match parse_unsigned_in(ltb, 0, ltb.len(), 10) {
            Some(m) => m,
            None => return None,
        };
        let channel = parse_channel(after);
        return Some((measure, channel, trim_str(objs)));
    }
    if lb.len() == 5 {
        let mstr = slice(left, 0, 3);
        let cstr = slice(left, 3, 5);
        let mb = str_bytes(mstr);
        assert(mb@.subrange(0, 3) =~= mb@);
        let measure = match parse_unsigned_in(mb, 0, 3, 10) {
            Some(m) => m,
            None => return None,
        };
        proof {
            lemma_trim_len(cstr.spec_bytes());
        }
        let channel = parse_channel(cstr);
        let objs = match rest {
            Some(o) => o,
            None => after,
        };
        return Some((measure, channel, trim_str(objs)));
    }
    None
}

/// `push_objects` does not panic: the object data splits into two-byte
/// pairs at character starts (or is too short or of odd length).
pub open spec fn objects_ok(b: Seq<u8>) -> bool {
    b.len() < 2 || b.len() % 2 != 0 || forall|k: int|
        0 < k < b.len() / 2 ==> #[trigger] at_char_start(b, 2 * k)
}

/// The id of pair `k` of object data `b`.
pub open spec fn pair_id(b: Seq<u8>, k: int) -> int {
    base36_value(b.subrange(2 * k, 2 * k + 2))
}

/// The notes that the first `k` pairs of object data `b` place.
pub open spec fn objects_upto(measure: u32, channel: u32, b: Seq<u8>, k: int) -> Seq<BmsNote>
    decreases k,
{
    if k <= 0 {
        Seq::empty()
    } else {
        let prev = objects_upto(measure, channel, b, k - 1);
        if pair_id(b, k - 1) != 0 {
            prev.push(
                BmsNote {
                    channel,
                    measure,
                    slot: (k - 1) as usize,
                    slots: (b.len() / 2) as usize,
                    obj: ObjId(pair_id(b, k - 1) as u32),
                },
            )
        } else {
            prev
        }
    }
}

/// The notes that object data `b` places in `measure` on `channel`: data of
/// even length at least 2 divides the measure into one slot per two-byte
/// pair, and every pair other than `00` is a note in its slot.
pub open spec fn spec_objects(measure: u32, channel: u32, b: Seq<u8>) -> Seq<BmsNote> {
    if b.len() < 2 || b.len() % 2 != 0 {
        Seq::empty()
    } else {
        objects_upto(measure, channel, b, (b.len() / 2) as int)
    }
}

/// Appends to `notes` the notes that `objs` places (see `spec_objects`).
pub fn push_objects(notes: &mut Vec<BmsNote>, measure: u32, channel: u32, objs: &str)
    requires
        objects_ok(objs.spec_bytes()),
    ensures
        final(notes)@ == old(notes)@ + spec_objects(measure, channel, objs.spec_bytes()),
{
    let b = str_bytes(objs);
    let len = b.len();
    if len < 2 || len % 2 != 0 {
        assert(old(notes)@ + Seq::<BmsNote>::empty() =~= old(notes)@);
        return;
    }
    let n = len / 2;
    let mut k: usize = 0;
    while k < n
        invariant
            b@ == objs.spec_bytes(),
            len == b@.len(),
            len >= 2,
            len % 2 == 0,
            n == len / 2,
            k <= n,
            objects_ok(b@),
            notes@ == old(notes)@ + objects_upto(measure, channel, b@, k as int),
        decreases n - k,
    {
        let i = 2 * k;
        proof {
            if k > 0 {
                assert(at_char_start(b@, 2 * (k as int)));
            }
            if k + 1 < n {
                assert(at_char_start(b@, 2 * (k + 1) as int));
            }
            lemma_base36_two_digits(b@.subrange(i as int, i + 2));
        }
        let pair = slice(objs, i, i + 2);
        let obj = ObjId::from_hex36(pair);
        if obj.0 != 0 {
            notes.push(BmsNote { channel, measure, slot: k, slots: n, obj });
        }
        k = k + 1;
        assert(notes@ =~= old(notes)@ + objects_upto(measure, channel, b@, k as int));
    }
}


/// The key `title`.
pub open spec fn key_title() -> Seq<u8> {
    seq![0x74u8, 0x69, 0x74, 0x6c, 0x65]
}

/// The key `subtitle`.
pub open spec fn key_subtitle() -> Seq<u8> {
    seq![0x73u8, 0x75, 0x62, 0x74, 0x69, 0x74, 0x6c, 0x65]
}

/// The key `artist`.
pub open spec fn key_artist() -> Seq<u8> {
    seq![0x61u8, 0x72, 0x74, 0x69, 0x73, 0x74]
}

/// The key `genre`.
pub open spec fn key_genre() -> Seq<u8> {
    seq![0x67u8, 0x65, 0x6e, 0x72, 0x65]
}

/// The key `player`.
pub open spec fn key_player() -> Seq<u8> {
    seq![0x70u8, 0x6c, 0x61, 0x79, 0x65, 0x72]
}

/// The key `playlevel`.
pub open spec fn key_playlevel() -> Seq<u8> {
    seq![0x70u8, 0x6c, 0x61, 0x79, 0x6c, 0x65, 0x76, 0x65, 0x6c]
}

/// The key `rank`.
pub open spec fn key_rank() -> Seq<u8> {
    seq![0x72u8, 0x61, 0x6e, 0x6b]
}

/// The key `total`.
pub open spec fn key_total() -> Seq<u8> {
    seq![0x74u8, 0x6f, 0x74, 0x61, 0x6c]
}

/// The key `stagefile`.
pub open spec fn key_stagefile() -> Seq<u8> {
    seq![0x73u8, 0x74, 0x61, 0x67, 0x65, 0x66, 0x69, 0x6c, 0x65]
}

/// The key `banner`.
pub open spec fn key_banner() -> Seq<u8> {
    seq![0x62u8, 0x61, 0x6e, 0x6e, 0x65, 0x72]
}

/// The key `backbmp`.
pub open spec fn key_backbmp() -> Seq<u8> {
    seq![0x62u8, 0x61, 0x63, 0x6b, 0x62, 0x6d, 0x70]
}

/// The key `bpm`.
pub open spec fn key_bpm() -> Seq<u8> {
    seq![0x62u8, 0x70, 0x6d]
}

/// The key `wav`.
pub open spec fn key_wav() -> Seq<u8> {
    seq![0x77u8, 0x61, 0x76]
}

/// The key `bmp`.
pub open spec fn key_bmp() -> Seq<u8> {
    seq![0x62u8, 0x6d, 0x70]
}

/// The key `stop`.
pub open spec fn key_stop() -> Seq<u8> {
    seq![0x73u8, 0x74, 0x6f, 0x70]
}

/// The header value of `key` after trimming, applied to the chart `m`.
/// Keys are case-insensitive. `#TITLE`, `#SUBTITLE`, `#ARTIST`, `#GENRE` and
/// `#PLAYLEVEL` keep the text; `#PLAYER` and `#RANK` keep the number (1 and 2
/// where the text is no number); `#TOTAL` and `#BPM` keep the text;
/// `#STAGEFILE`, `#BANNER`, `#BACKBMP`, `#WAVxx` and `#BMPxx` keep the path
/// with slashes for backslashes; `#BPMxx` and `#STOPxx` keep a decimal text.
/// Any other key leaves the chart as it is.
pub open spec fn apply_header(m: ChartModel, key: Seq<u8>, value: Seq<u8>) -> ChartModel {
    let lower = lower_bytes(key);
    let v = trim(value);
    if lower == key_title() {
        ChartModel { title: v, ..m }
    } else if lower == key_subtitle() {
        ChartModel { subtitle: trim_start(v), ..m }
    } else if lower == key_artist() {
        ChartModel { artist: v, ..m }
    } else if lower == key_genre() {
        ChartModel { genre: v, ..m }
    } else if lower == key_player() {
        ChartModel {
            player: match parse_unsigned(v, 10) {
                Some(x) => x,
                None => 1,
            },
            ..m
        }
    } else if lower == key_playlevel() {
        ChartModel { play_level: v, ..m }
    } else if lower == key_rank() {
        ChartModel {
            rank: match parse_i32(v) {
                Some(x) => x,
                None => 2,
            },
            ..m
        }
    } else if lower == key_total() {
        ChartModel { total: v, ..m }
    } else if lower == key_stagefile() {
        ChartModel { stagefile: spec_normalize_path(v), ..m }
    } else if lower == key_banner() {
        ChartModel { banner: spec_normalize_path(v), ..m }
    } else if lower == key_backbmp() {
        ChartModel { backbmp: spec_normalize_path(v), ..m }
    } else if lower == key_bpm() {
        ChartModel { base_bpm: v, ..m }
    } else {
        apply_indexed_header(m, lower, v)
    }
}

/// A `#WAVxx`, `#BMPxx`, `#BPMxx` or `#STOPxx` header with lowered key
/// `lower` and trimmed value `v`, applied to `m`.
pub open spec fn apply_indexed_header(m: ChartModel, lower: Seq<u8>, v: Seq<u8>) -> ChartModel {
    if let Some(id) = spec_strip_key(lower, key_wav()) {
        ChartModel { wav_files: m.wav_files.insert(id, spec_normalize_path(v)), ..m }
    } else if let Some(id) = spec_strip_key(lower, key_bmp()) {
        ChartModel { bmp_files: m.bmp_files.insert(id, spec_normalize_path(v)), ..m }
    } else if let Some(id) = spec_strip_key(lower, key_bpm()) {
        if float_text(v) {
            ChartModel { bpm_changes: m.bpm_changes.insert(id, v), ..m }
        } else {
            m
        }
    } else if let Some(id) = spec_strip_key(lower, key_stop()) {
        if float_text(v) {
            ChartModel { stop_changes: m.stop_changes.insert(id, v), ..m }
        } else {
            m
        }
    } else {
        m
    }
}

/// `s` without its leading white space (`str::trim_start`).
pub fn trim_start_str(s: &str) -> (r: &str)
    ensures
        r.spec_bytes() == trim_start(s.spec_bytes()),
{
    let b = str_bytes(s);
    let n = b.len();
    let mut i: usize = 0;
    assert(b@.subrange(0, n as int) =~= b@);
    while ws_width_in(b, 0, n, i) > 0
        invariant
            n == b@.len(),
            i <= n,
            at_char_start(b@, i as int),
            valid_utf8(b@),
            trim_start(b@) == trim_start(b@.subrange(i as int, n as int)),
            b@.subrange(0, n as int) == b@,
        decreases n - i,
    {
        let w = ws_width_in(b, 0, n, i);
        proof {
            let t = b@.subrange(i as int, n as int);
            assert(ws_width(t, 0) == w);
            assert(t.subrange(w as int, t.len() as int) =~= b@.subrange(i + w, n as int));
            lemma_after_ws(b@, i as int);
        }
        i = i + w;
    }
    proof {
        let t = b@.subrange(i as int, n as int);
        assert(ws_width(t, 0) == ws_width(b@, i as int));
    }
    slice(s, i, n)
}

proof fn lemma_ascii_literal(s: &str, k: Seq<u8>)
    requires
        is_ascii_chars(s@),
        s@.len() == k.len(),
        forall|i: int| 0 <= i < k.len() ==> s@[i] as u8 == k[i],
    ensures
        s.spec_bytes() == k,
{
    is_ascii_chars_encode_utf8(s@);
    assert(s.spec_bytes() =~= k);
}

proof fn lemma_text_map_insert(m: Map<u32, String>, k: u32, v: String)
    ensures
        text_map(m.insert(k, v)) == text_map(m).insert(k, encode_utf8(v@)),
{
    assert(text_map(m.insert(k, v)) =~= text_map(m).insert(k, encode_utf8(v@)));
}

/// Applies a header line with key `key` and value `value` (see
/// `apply_header`).
pub fn handle_header(data: &mut BmsData, key: &str, value: &str)
    ensures
        final(data)@ == apply_header(old(data)@, key.spec_bytes(), value.spec_bytes()),
{
    let lower = ascii_lowercase(key);
    let ls: &str = lower.as_str();
    let lb = str_bytes(ls);
    let v = trim_str(value);
    if bytes_eq(lb, &[0x74, 0x69, 0x74, 0x6c, 0x65]) {
        assert([0x74, 0x69, 0x74, 0x6c, 0x65]@ =~= key_title());
        data.title = v.to_owned();
    } else if bytes_eq(lb, &[0x73, 0x75, 0x62, 0x74, 0x69, 0x74, 0x6c, 0x65]) {
        assert([0x73, 0x75, 0x62, 0x74, 0x69, 0x74, 0x6c, 0x65]@ =~= key_subtitle());
        data.subtitle = trim_start_str(v).to_owned();
    } else if bytes_eq(lb, &[0x61, 0x72, 0x74, 0x69, 0x73, 0x74]) {
        assert([0x61, 0x72, 0x74, 0x69, 0x73, 0x74]@ =~= key_artist());
        data.artist = v.to_owned();
    } else if bytes_eq(lb, &[0x67, 0x65, 0x6e, 0x72, 0x65]) {
        assert([0x67, 0x65, 0x6e, 0x72, 0x65]@ =~= key_genre());
        data.genre = v.to_owned();
    } else if bytes_eq(lb, &[0x70, 0x6c, 0x61, 0x79, 0x65, 0x72]) {
        assert([0x70, 0x6c, 0x61, 0x79, 0x65, 0x72]@ =~= key_player());
        let vb = str_bytes(v);
        assert(vb@.subrange(0, vb@.len() as int) =~= vb@);
        data.player = match parse_unsigned_in(vb, 0, vb.len(), 10) {
            Some(x) => x,
            None => 1,
        };
    } else if bytes_eq(lb, &[0x70, 0x6c, 0x61, 0x79, 0x6c, 0x65, 0x76, 0x65, 0x6c]) {
        assert([0x70, 0x6c, 0x61, 0x79, 0x6c, 0x65, 0x76, 0x65, 0x6c]@ =~= key_playlevel());
        data.play_level = v.to_owned();
    } else if bytes_eq(lb, &[0x72, 0x61, 0x6e, 0x6b]) {
        assert([0x72, 0x61, 0x6e, 0x6b]@ =~= key_rank());
        let vb = str_bytes(v);
        assert(vb@.subrange(0, vb@.len() as int) =~= vb@);
        data.rank = match parse_i32_in(vb, 0, vb.len()) {
            Some(x) => x,
            None => 2,
        };
    } else if bytes_eq(lb, &[0x74, 0x6f, 0x74, 0x61, 0x6c]) {
        assert([0x74, 0x6f, 0x74, 0x61, 0x6c]@ =~= key_total());
        data.total = v.to_owned();
    } else if bytes_eq(lb, &[0x73, 0x74, 0x61, 0x67, 0x65, 0x66, 0x69, 0x6c, 0x65]) {
        assert([0x73, 0x74, 0x61, 0x67, 0x65, 0x66, 0x69, 0x6c, 0x65]@ =~= key_stagefile());
        data.stagefile = normalize_path(v);
    } else if bytes_eq(lb, &[0x62, 0x61, 0x6e, 0x6e, 0x65, 0x72]) {
        assert([0x62, 0x61, 0x6e, 0x6e, 0x65, 0x72]@ =~= key_banner());
        data.banner = normalize_path(v);
    } else if bytes_eq(lb, &[0x62, 0x61, 0x63, 0x6b, 0x62, 0x6d, 0x70]) {
        assert([0x62, 0x61, 0x63, 0x6b, 0x62, 0x6d, 0x70]@ =~= key_backbmp());
        data.backbmp = normalize_path(v);
    } else if bytes_eq(lb, &[0x62, 0x70, 0x6d]) {
        assert([0x62, 0x70, 0x6d]@ =~= key_bpm());
        data.base_bpm = v.to_owned();
    } else {
        handle_indexed_header(data, ls, v);
        return;
    }
    assert(data@ =~= apply_header(old(data)@, key.spec_bytes(), value.spec_bytes()));
}


/// Applies an indexed header (see `apply_indexed_header`).
fn handle_indexed_header(data: &mut BmsData, lower: &str, v: &str)
    ensures
        final(data)@ == apply_indexed_header(old(data)@, lower.spec_bytes(), v.spec_bytes()),
{
    broadcast use vstd::std_specs::hash::group_hash_axioms;
    proof {
        reveal_strlit("wav");
        reveal_strlit("bmp");
        reveal_strlit("bpm");
        reveal_strlit("stop");
        lemma_ascii_literal("wav", key_wav());
        lemma_ascii_literal("bmp", key_bmp());
        lemma_ascii_literal("bpm", key_bpm());
        lemma_ascii_literal("stop", key_stop());
    }
    if let Some(id) = strip_key(lower, "wav") {
        let path = normalize_path(v);
        proof {
            lemma_text_map_insert(data.wav_files@, id.0, path);
        }
        data.wav_files.insert(id.0, path);
    } else if let Some(id) = strip_key(lower, "bmp") {
        let path = normalize_path(v);
        proof {
            lemma_text_map_insert(data.bmp_files@, id.0, path);
        }
        data.bmp_files.insert(id.0, path);
    } else if let Some(id) = strip_key(lower, "bpm") {
        let vb = str_bytes(v);
        assert(vb@.subrange(0, vb@.len() as int) =~= vb@);
        if is_float_text_in(vb, 0, vb.len()) {
            let text = v.to_owned();
            proof {
                lemma_text_map_insert(data.bpm_changes@, id.0, text);
            }
            data.bpm_changes.insert(id.0, text);
        }
    } else if let Some(id) = strip_key(lower, "stop") {
        let vb = str_bytes(v);
        assert(vb@.subrange(0, vb@.len() as int) =~= vb@);
        if is_float_text_in(vb, 0, vb.len()) {
            let text = v.to_owned();
            proof {
                lemma_text_map_insert(data.stop_changes@, id.0, text);
            }
            data.stop_changes.insert(id.0, text);
        }
    }
    assert(data@ =~= apply_indexed_header(old(data)@, lower.spec_bytes(), v.spec_bytes()));
}


/// A line without surrounding white space and comment.
pub open spec fn line_body(raw: Seq<u8>) -> Seq<u8> {
    spec_strip_comment(trim(raw))
}

/// A non-empty line body without its leading `#`, if it has one.
pub open spec fn line_command(raw: Seq<u8>) -> Seq<u8> {
    let line = line_body(raw);
    if line.len() > 0 && line[0] == 0x23 {
        line.subrange(1, line.len() as int)
    } else {
        line
    }
}

/// The text after a header key, or nothing.
pub open spec fn header_value(rest: Option<Seq<u8>>) -> Seq<u8> {
    match rest {
        Some(r) => r,
        None => Seq::empty(),
    }
}

/// One line of BMS text applied to the chart `m`: an empty line (after
/// trimming and cutting its comment) changes nothing; a note line appends
/// its notes; any other line is a header command.
pub open spec fn apply_line(m: ChartModel, raw: Seq<u8>) -> ChartModel {
    let cmd = line_command(raw);
    let head = token_head(cmd);
    let rest = token_tail(cmd);
    if line_body(raw).len() == 0 {
        m
    } else {
        match spec_note_line(head, rest) {
            Some((measure, channel, objs)) => ChartModel {
                notes: m.notes + spec_objects(measure, channel, objs),
                ..m
            },
            None => apply_header(m, head, trim(header_value(rest))),
        }
    }
}

/// Reading the line `raw` does not panic.
pub open spec fn line_ok(raw: Seq<u8>) -> bool {
    let cmd = line_command(raw);
    let head = token_head(cmd);
    let rest = token_tail(cmd);
    line_body(raw).len() == 0 || (note_line_ok(head, rest) && match spec_note_line(head, rest) {
        Some((_, _, objs)) => objects_ok(objs),
        None => true,
    })
}

/// Reads one line of BMS text into `data` (see `apply_line`).
pub fn process_line(data: &mut BmsData, raw: &str)
    requires
        line_ok(raw.spec_bytes()),
    ensures
        final(data)@ == apply_line(old(data)@, raw.spec_bytes()),
{
    let line = strip_comment(trim_str(raw));
    let lb = str_bytes(line);
    if lb.len() == 0 {
        return;
    }
    let cmd = if lb[0] == 0x23 {
        proof {
            lemma_next_char_start(lb@, 0);
        }
        slice(line, 1, lb.len())
    } else {
        line
    };
    let (head, rest) = match split_first_token(cmd) {
        Some(parts) => parts,
        None => return,
    };
    if let Some((measure, channel, objs)) = parse_note_line(head, rest) {
        push_objects(&mut data.notes, measure, channel, objs);
        assert(data@ =~= apply_line(old(data)@, raw.spec_bytes()));
        return;
    }
    proof {
        reveal_strlit("");
        lemma_ascii_literal("", Seq::empty());
    }
    let value = match rest {
        Some(r) => r,
        None => "",
    };
    handle_header(data, head, trim_str(value));
}

/// The chart after reading the lines of `b` (split at line feeds) into `m`.
pub open spec fn parse_lines(m: ChartModel, b: Seq<u8>) -> ChartModel
    decreases b.len(),
{
    if b.len() == 0 {
        m
    } else {
        let i = find_byte(b, 0x0a, 0);
        let m2 = apply_line(m, b.subrange(0, i));
        if i >= b.len() {
            m2
        } else {
            proof {
                lemma_find_byte(b, 0x0a, 0);
            }
            parse_lines(m2, b.subrange(i + 1, b.len() as int))
        }
    }
}

/// Reading every line of `b` does not panic.
pub open spec fn lines_ok(b: Seq<u8>) -> bool
    decreases b.len(),
{
    if b.len() == 0 {
        true
    } else {
        let i = find_byte(b, 0x0a, 0);
        line_ok(b.subrange(0, i)) && (i >= b.len() || {
            proof {
                lemma_find_byte(b, 0x0a, 0);
            }
            lines_ok(b.subrange(i + 1, b.len() as int))
        })
    }
}

/// The chart that the BMS text `b` describes.
pub open spec fn spec_parse(b: Seq<u8>) -> ChartModel {
    parse_lines(ChartModel::initial(), b)
}

/// Parsing does not fail; this error is never returned.
#[derive(Debug, Clone, Copy, PartialEq, Eq)]
pub struct ParseError;

/// Parses BMS text into a chart (see `spec_parse`). The text is read line by
/// line; `lines_ok` excludes the texts on which slicing inside a line would
/// fall in the middle of a character.
pub fn parse(content: &str) -> (r: Result<BmsData, ParseError>)
    requires
        lines_ok(content.spec_bytes()),
    ensures
        r matches Ok(d) && d@ == spec_parse(content.spec_bytes()),
{
    let mut data = BmsData::new();
    let mut rest: &str = content;
    loop
        invariant
            lines_ok(rest.spec_bytes()),
            parse_lines(data@, rest.spec_bytes()) == spec_parse(content.spec_bytes()),
        decreases rest.spec_bytes().len(),
    {
        let b = str_bytes(rest);
        if b.len() == 0 {
            return Ok(data);
        }
        let i = find_byte_in(b, 0x0a);
        proof {
            lemma_find_byte(b@, 0x0a, 0);
        }
        let line = slice(rest, 0, i);
        process_line(&mut data, line);
        if i == b.len() {
            return Ok(data);
        }
        proof {
            lemma_next_char_start(b@, i as int);
        }
        rest = slice(rest, i + 1, b.len());
    }
}


/// Every note sits in a slot of its measure and places a non-empty object.
pub open spec fn valid_notes(notes: Seq<BmsNote>) -> bool {
    forall|i: int|
        0 <= i < notes.len() ==> (#[trigger] notes[i]).slot < notes[i].slots && notes[i].obj.0 != 0
}

/// The object data of a note line is no longer than the line.
proof fn lemma_note_line_objs_len(head: Seq<u8>, rest: Option<Seq<u8>>)
    ensures
        spec_note_line(head, rest) matches Some((_, _, objs)) ==> objs.len() <= head.len() + match rest {
            Some(r) => r.len() as int,
            None => 0int,
        },
{
    let p = find_byte(head, 0x3a, 0);
    if p < head.len() {
        lemma_find_byte(head, 0x3a, 0);
        if let Some(r) = rest {
            lemma_trim_len(r);
        }
        lemma_trim_len(head.subrange(p + 1, head.len() as int));
    }
}

proof fn lemma_double_slash(b: Seq<u8>, i: int)
    requires
        0 <= i,
    ensures
        find_double_slash(b, i) == -1 || (i <= find_double_slash(b, i) && find_double_slash(b, i) + 1 < b.len()),
    decreases b.len() - i,
{
    if i + 1 < b.len() && !(b[i] == 0x2f && b[i + 1] == 0x2f) {
        lemma_double_slash(b, i + 1);
    }
}

/// The first token and the rest of a line are no longer than the line.
proof fn lemma_token_lens(b: Seq<u8>)
    ensures
        token_head(b).len() <= b.len(),
        token_tail(b) matches Some(t) ==> token_head(b).len() + t.len() <= b.len(),
{
    lemma_first_ws(b, 0);
}

proof fn lemma_first_ws(b: Seq<u8>, i: int)
    requires
        0 <= i <= b.len(),
    ensures
        first_ws(b, i) == -1 || (i <= first_ws(b, i) < b.len() && ws_width(b, first_ws(b, i)) > 0),
    decreases b.len() - i,
{
    if i < b.len() && ws_width(b, i) == 0 {
        lemma_first_ws(b, i + 1);
    }
}

proof fn lemma_objects_valid(measure: u32, channel: u32, b: Seq<u8>, k: int)
    requires
        0 <= k <= b.len() / 2,
        b.len() <= usize::MAX,
    ensures
        valid_notes(objects_upto(measure, channel, b, k)),
    decreases k,
{
    if k > 0 {
        lemma_objects_valid(measure, channel, b, k - 1);
        lemma_base36_two_digits(b.subrange(2 * (k - 1), 2 * (k - 1) + 2));
        let prev = objects_upto(measure, channel, b, k - 1);
        let all = objects_upto(measure, channel, b, k);
        assert forall|i: int| 0 <= i < all.len() implies (#[trigger] all[i]).slot < all[i].slots
            && all[i].obj.0 != 0 by {
            if i < prev.len() {
                assert(all[i] == prev[i]);
            }
        }
    }
}

proof fn lemma_apply_line_valid(m: ChartModel, raw: Seq<u8>)
    requires
        valid_notes(m.notes),
        raw.len() <= usize::MAX,
    ensures
        valid_notes(apply_line(m, raw).notes),
{
    let cmd = line_command(raw);
    let head = token_head(cmd);
    let rest = token_tail(cmd);
    if line_body(raw).len() != 0 {
        if let Some((measure, channel, objs)) = spec_note_line(head, rest) {
            lemma_note_line_objs_len(head, rest);
            lemma_token_lens(cmd);
            lemma_trim_len(raw);
            lemma_double_slash(trim(raw), 0);
            assert(cmd.len() <= raw.len());
            if objs.len() >= 2 && objs.len() % 2 == 0 {
                lemma_objects_valid(measure, channel, objs, (objs.len() / 2) as int);
            }
            let added = spec_objects(measure, channel, objs);
            assert forall|i: int| 0 <= i < m.notes.len() + added.len() implies (#[trigger] (m.notes
                + added)[i]).slot < (m.notes + added)[i].slots && (m.notes + added)[i].obj.0 != 0 by {
                if i >= m.notes.len() {
                    assert((m.notes + added)[i] == added[i - m.notes.len()]);
                }
            }
        }
    }
}

proof fn lemma_parse_lines_valid(m: ChartModel, b: Seq<u8>)
    requires
        valid_notes(m.notes),
        b.len() <= usize::MAX,
    ensures
        valid_notes(parse_lines(m, b).notes),
    decreases b.len(),
{
    if b.len() > 0 {
        let i = find_byte(b, 0x0a, 0);
        lemma_find_byte(b, 0x0a, 0);
        let m2 = apply_line(m, b.subrange(0, i));
        lemma_apply_line_valid(m, b.subrange(0, i));
        if i < b.len() {
            lemma_parse_lines_valid(m2, b.subrange(i + 1, b.len() as int));
        }
    }
}

/// Every note of a parsed chart sits in one of the slots its measure is
/// divided into (so the measure has at least one) and places a non-empty
/// object id.
pub proof fn lemma_parsed_notes_valid(b: Seq<u8>)
    requires
        b.len() <= usize::MAX,
    ensures
        valid_notes(spec_parse(b).notes),
{
    lemma_parse_lines_valid(ChartModel::initial(), b);
}

/// `channel_ok` for an exec caller.
fn channel_ok_exec(s: &str) -> (r: bool)
    ensures
        r == channel_ok(s.spec_bytes()),
{
    let t = trim_str(s);
    let tb = str_bytes(t);
    tb.len() <= 2 || !(0x80 <= tb[2] && tb[2] <= 0xbf)
}

/// `note_line_ok` for an exec caller.
fn note_line_ok_exec(head: &str, rest: Option<&str>) -> (r: bool)
    ensures
        r == note_line_ok(head.spec_bytes(), opt_bytes(rest)),
{
    let b = str_bytes(head);
    let p = find_byte_in(b, 0x3a);
    if p == b.len() {
        return true;
    }
    proof {
        lemma_find_byte(b@, 0x3a, 0);
        lemma_next_char_start(b@, p as int);
    }
    let left = slice(head, 0, p);
    let after = slice(head, p + 1, b.len());
    let lb = str_bytes(left);
    if lb.len() == 3 {
        if rest.is_none() {
            return true;
        }
        let lt = trim_str(left);
        let ltb = str_bytes(lt);
        assert(ltb@.subrange(0, ltb@.len() as int) =~= ltb@);
        if parse_unsigned_in(ltb, 0, ltb.len(), 10).is_none() {
            return true;
        }
        return channel_ok_exec(after);
    }
    if lb.len() == 5 {
        return !(0x80 <= lb[3] && lb[3] <= 0xbf);
    }
    true
}

/// `objects_ok` for an exec caller.
fn objects_ok_exec(objs: &str) -> (r: bool)
    ensures
        r == objects_ok(objs.spec_bytes()),
{
    let b = str_bytes(objs);
    let len = b.len();
    if len < 2 || len % 2 != 0 {
        return true;
    }
    let n = len / 2;
    let mut k: usize = 1;
    while k < n
        invariant
            b@ == objs.spec_bytes(),
            len == b@.len(),
            n == len / 2,
            len >= 2,
            len % 2 == 0,
            1 <= k <= n,
            forall|j: int| 0 < j < k ==> #[trigger] at_char_start(b@, 2 * j),
        decreases n - k,
    {
        if 0x80 <= b[2 * k] && b[2 * k] <= 0xbf {
            assert(!at_char_start(b@, 2 * (k as int)));
            return false;
        }
        k = k + 1;
    }
    true
}

/// `line_ok` for an exec caller.
fn line_ok_exec(raw: &str) -> (r: bool)
    ensures
        r == line_ok(raw.spec_bytes()),
{
    let line = strip_comment(trim_str(raw));
    let lb = str_bytes(line);
    if lb.len() == 0 {
        return true;
    }
    let cmd = if lb[0] == 0x23 {
        proof {
            lemma_next_char_start(lb@, 0);
        }
        slice(line, 1, lb.len())
    } else {
        line
    };
    let (head, rest) = match split_first_token(cmd) {
        Some(parts) => parts,
        None => return true,
    };
    if !note_line_ok_exec(head, rest) {
        return false;
    }
    match parse_note_line(head, rest) {
        Some((_, _, objs)) => objects_ok_exec(objs),
        None => true,
    }
}

/// Whether `parse` may read `content` (`lines_ok`): on the other texts,
/// slicing inside some line would fall in the middle of a character.
pub fn chart_text_ok(content: &str) -> (r: bool)
    ensures
        r == lines_ok(content.spec_bytes()),
{
    let mut rest: &str = content;
    loop
        invariant
            lines_ok(content.spec_bytes()) == lines_ok(rest.spec_bytes()),
        decreases rest.spec_bytes().len(),
    {
        let b = str_bytes(rest);
        if b.len() == 0 {
            return true;
        }
        let i = find_byte_in(b, 0x0a);
        proof {
            lemma_find_byte(b@, 0x0a, 0);
        }
        let line = slice(rest, 0, i);
        if !line_ok_exec(line) {
            return false;
        }
        if i == b.len() {
            return true;
        }
        proof {
            lemma_next_char_start(b@, i as int);
        }
        rest = slice(rest, i + 1, b.len());
    }
}


proof fn lemma_digits_ignore_case(b: Seq<u8>)
    ensures
        digits_value(lower_bytes(b), 36) == digits_value(b, 36),
        digits_value(upper_bytes(b), 36) == digits_value(b, 36),
    decreases b.len(),
{
    if b.len() > 0 {
        assert(lower_bytes(b).drop_last() =~= lower_bytes(b.drop_last()));
        assert(upper_bytes(b).drop_last() =~= upper_bytes(b.drop_last()));
        lemma_digits_ignore_case(b.drop_last());
        let c = b.last();
        assert(lower_bytes(b).last() == ascii_lower(c));
        assert(upper_bytes(b).last() == ascii_upper(c));
        assert(radix_digit(ascii_lower(c), 36) == radix_digit(c, 36));
        assert(radix_digit(ascii_upper(c), 36) == radix_digit(c, 36));
    }
}

/// Object ids are case-insensitive (`from_hex36` reads `base36_value`):
/// lowering or raising the letters of an id names the same object, so `zz`,
/// `ZZ` and `zZ` are one id.
pub proof fn lemma_base36_ignores_case(b: Seq<u8>)
    ensures
        base36_value(lower_bytes(b)) == base36_value(b),
        base36_value(upper_bytes(b)) == base36_value(b),
{
    lemma_digits_ignore_case(b);
}

/// A leading `0` does not change an object id: `01` and `1` are one id.
pub proof fn lemma_base36_leading_zero(b: Seq<u8>)
    ensures
        base36_value(seq![0x30u8] + b) == base36_value(b),
    decreases b.len(),
{
    let z = seq![0x30u8] + b;
    if b.len() == 0 {
        assert(z.drop_last() =~= Seq::<u8>::empty());
        assert(z.last() == 0x30);
        assert(radix_digit(0x30, 36) == Some(0u32));
        assert(digits_value(z.drop_last(), 36) == 0);
        assert(digits_value(z, 36) == 0);
    } else {
        assert(z.drop_last() =~= seq![0x30u8] + b.drop_last());
        assert(z.last() == b.last());
        lemma_base36_leading_zero(b.drop_last());
        assert(digits_value(z.drop_last(), 36) == digits_value(b.drop_last(), 36));
        assert(digits_value(z, 36) == digits_value(z.drop_last(), 36) * 36 + match radix_digit(
            z.last(),
            36,
        ) {
            Some(v) => v as int,
            None => 0,
        });
    }
}

/// Header keys are case-insensitive: `#TITLE`, `#Title` and `#title` do the
/// same.
pub proof fn lemma_header_key_ignores_case(m: ChartModel, key: Seq<u8>, value: Seq<u8>)
    ensures
        apply_header(m, lower_bytes(key), value) == apply_header(m, key, value),
{
    assert(lower_bytes(lower_bytes(key)) =~= lower_bytes(key));
}

/// A normalized path holds no backslash, and normalizing it again changes
/// nothing.
pub proof fn lemma_normalize_path_idempotent(p: Seq<u8>)
    ensures
        forall|i: int| 0 <= i < p.len() ==> #[trigger] spec_normalize_path(p)[i] != 0x5c,
        spec_normalize_path(spec_normalize_path(p)) == spec_normalize_path(p),
{
    assert(spec_normalize_path(spec_normalize_path(p)) =~= spec_normalize_path(p));
}


proof fn lemma_find_byte_at(b: Seq<u8>, c: u8, i: int, p: int)
    requires
        0 <= i <= p < b.len(),
        b[p] == c,
        forall|k: int| i <= k < p ==> b[k] != c,
    ensures
        find_byte(b, c, i) == p,
    decreases p - i,
{
    if i < p {
        lemma_find_byte_at(b, c, i + 1, p);
    }
}

/// Three decimal digits are their own trim.
proof fn lemma_trim_digits(m: Seq<u8>)
    requires
        m.len() == 3,
        forall|i: int| 0 <= i < 3 ==> is_dec(#[trigger] m[i]),
    ensures
        trim(m) == m,
{
    assert(is_dec(m[0]) && is_dec(m[1]) && is_dec(m[2]));
    assert(ws_width(m, 0) == 0);
    assert(trim_start(m) == m);
    assert(ws_width_before(m, 3) == 0);
}

/// The legacy `mmm:cc data` form of a note line reads as the standard
/// `mmmcc:data` form: same measure, channel and object data.
pub proof fn lemma_legacy_note_line(m: Seq<u8>, c: Seq<u8>, d: Seq<u8>)
    requires
        m.len() == 3,
        forall|i: int| 0 <= i < 3 ==> is_dec(#[trigger] m[i]),
        c.len() == 2,
        c[0] != 0x3a,
        c[1] != 0x3a,
    ensures
        spec_note_line(m + c + seq![0x3au8] + d, None) == spec_note_line(m + seq![0x3au8] + c, Some(d)),
{
    let std = m + c + seq![0x3au8] + d;
    let leg = m + seq![0x3au8] + c;
    assert(is_dec(m[0]) && is_dec(m[1]) && is_dec(m[2]));
    assert(std[0] == m[0] && std[1] == m[1] && std[2] == m[2] && std[3] == c[0] && std[4] == c[1]
        && std[5] == 0x3a);
    lemma_find_byte_at(std, 0x3a, 0, 5);
    assert(leg[0] == m[0] && leg[1] == m[1] && leg[2] == m[2] && leg[3] == 0x3a);
    lemma_find_byte_at(leg, 0x3a, 0, 3);
    let left = std.subrange(0, 5);
    assert(left =~= m + c);
    assert(left.subrange(0, 3) =~= m);
    assert(left.subrange(3, 5) =~= c);
    assert(std.subrange(6, std.len() as int) =~= d);
    assert(leg.subrange(0, 3) =~= m);
    assert(leg.subrange(4, leg.len() as int) =~= c);
    lemma_trim_digits(m);
}

/// The notes that one line places (see `apply_line`): those of a note line,
/// none for any other line.
pub open spec fn line_notes(raw: Seq<u8>) -> Seq<BmsNote> {
    let cmd = line_command(raw);
    if line_body(raw).len() == 0 {
        Seq::empty()
    } else {
        match spec_note_line(token_head(cmd), token_tail(cmd)) {
            Some((measure, channel, objs)) => spec_objects(measure, channel, objs),
            None => Seq::empty(),
        }
    }
}

/// The notes that the lines of `b` place, in line order.
pub open spec fn text_notes(b: Seq<u8>) -> Seq<BmsNote>
    decreases b.len(),
{
    if b.len() == 0 {
        Seq::empty()
    } else {
        let i = find_byte(b, 0x0a, 0);
        let n = line_notes(b.subrange(0, i));
        if i >= b.len() {
            n
        } else {
            proof {
                lemma_find_byte(b, 0x0a, 0);
            }
            n + text_notes(b.subrange(i + 1, b.len() as int))
        }
    }
}

/// Reading lines only appends their notes: the notes after reading `b` into
/// `m` are those of `m`, then those of the lines of `b`.
proof fn lemma_parse_lines_notes(m: ChartModel, b: Seq<u8>)
    ensures
        parse_lines(m, b).notes == m.notes + text_notes(b),
    decreases b.len(),
{
    if b.len() == 0 {
        assert(m.notes + Seq::<BmsNote>::empty() =~= m.notes);
    } else {
        let i = find_byte(b, 0x0a, 0);
        lemma_find_byte(b, 0x0a, 0);
        let m2 = apply_line(m, b.subrange(0, i));
        assert(m2.notes == m.notes + line_notes(b.subrange(0, i)));
        if i < b.len() {
            let rest = b.subrange(i + 1, b.len() as int);
            lemma_parse_lines_notes(m2, rest);
            assert(m.notes + line_notes(b.subrange(0, i)) + text_notes(rest) =~= m.notes + (
            line_notes(b.subrange(0, i)) + text_notes(rest)));
        }
    }
}

/// A byte `c` at `p` bounds the first `c` from `i` on.
proof fn lemma_find_byte_before(b: Seq<u8>, c: u8, i: int, p: int)
    requires
        0 <= i <= p < b.len(),
        b[p] == c,
    ensures
        find_byte(b, c, i) <= p,
    decreases p - i,
{
    if i < p && b[i] != c {
        lemma_find_byte_before(b, c, i + 1, p);
    }
}

/// Text appended after a `c` does not move the first `c`.
proof fn lemma_find_byte_prefix(a: Seq<u8>, b: Seq<u8>, c: u8, i: int)
    requires
        0 <= i <= a.len(),
        find_byte(a, c, i) < a.len(),
    ensures
        find_byte(a + b, c, i) == find_byte(a, c, i),
    decreases a.len() - i,
{
    if a[i] != c {
        lemma_find_byte_prefix(a, b, c, i + 1);
    }
}

/// The notes of the lines of `a` then `b`, where `a` is empty or ends in a
/// line feed, are those of `a` followed by those of `b`.
proof fn lemma_text_notes_concat(a: Seq<u8>, b: Seq<u8>)
    requires
        a.len() == 0 || a.last() == 0x0a,
    ensures
        text_notes(a + b) == text_notes(a) + text_notes(b),
    decreases a.len(),
{
    if a.len() == 0 {
        assert(a + b =~= b);
        assert(text_notes(a) + text_notes(b) =~= text_notes(b));
    } else {
        let ab = a + b;
        lemma_find_byte_before(a, 0x0a, 0, a.len() - 1);
        lemma_find_byte(a, 0x0a, 0);
        let i = find_byte(a, 0x0a, 0);
        lemma_find_byte_prefix(a, b, 0x0a, 0);
        assert(ab.subrange(0, i) =~= a.subrange(0, i));
        let a2 = a.subrange(i + 1, a.len() as int);
        assert(ab.subrange(i + 1, ab.len() as int) =~= a2 + b);
        if a2.len() > 0 {
            assert(a2.last() == a.last());
        }
        lemma_text_notes_concat(a2, b);
        let n = line_notes(a.subrange(0, i));
        assert(text_notes(ab) == n + text_notes(a2 + b));
        assert(text_notes(a) == n + text_notes(a2));
        assert(n + (text_notes(a2) + text_notes(b)) =~= n + text_notes(a2) + text_notes(b));
    }
}

/// Charts read line by line: for text `a` that is empty or ends in a line
/// feed, the notes of `a` followed by `b` are the notes of `a` followed by
/// the notes of `b`; header lines never change the notes.
pub proof fn lemma_parse_notes_concat(a: Seq<u8>, b: Seq<u8>)
    requires
        a.len() == 0 || a.last() == 0x0a,
    ensures
        spec_parse(a + b).notes == spec_parse(a).notes + spec_parse(b).notes,
{
    let m = ChartModel::initial();
    lemma_parse_lines_notes(m, a + b);
    lemma_parse_lines_notes(m, a);
    lemma_parse_lines_notes(m, b);
    lemma_text_notes_concat(a, b);
    assert(m.notes + text_notes(a + b) =~= text_notes(a + b));
    assert(m.notes + text_notes(a) =~= text_notes(a));
    assert(m.notes + text_notes(b) =~= text_notes(b));
}

/// Three decimal digits read in base 10: `100 * d0 + 10 * d1 + d2`.
proof fn lemma_three_decimal_digits(m: Seq<u8>)
    requires
        m.len() == 3,
        forall|i: int| 0 <= i < 3 ==> is_dec(#[trigger] m[i]),
    ensures
        parse_unsigned(m, 10) == Some(
            (100 * (m[0] - 0x30) + 10 * (m[1] - 0x30) + (m[2] - 0x30)) as u32,
        ),
{
    assert(is_dec(m[0]) && is_dec(m[1]) && is_dec(m[2]));
    let m2 = m.drop_last();
    let m1 = m2.drop_last();
    let m0 = m1.drop_last();
    assert(m2 =~= seq![m[0], m[1]]);
    assert(m1 =~= seq![m[0]]);
    assert(m0 =~= Seq::<u8>::empty());
    assert(digits_value(m0, 10) == 0);
    assert(digits_value(m1, 10) == m[0] - 0x30);
    assert(digits_value(m2, 10) == (m[0] - 0x30) * 10 + (m[1] - 0x30));
    assert(digits_value(m, 10) == ((m[0] - 0x30) * 10 + (m[1] - 0x30)) * 10 + (m[2] - 0x30));
    assert(all_digits(m, 10)) by {
        assert forall|i: int| 0 <= i < m.len() implies (#[trigger] radix_digit(m[i], 10)) is Some by {
            assert(is_dec(m[i]));
        }
    }
}

/// The measure of a note line is its three digits read in decimal: the
/// standard line `d0d1d2cc:D` and the legacy line `d0d1d2:cc D` both place
/// their notes in measure `100 * d0 + 10 * d1 + d2`.
pub proof fn lemma_note_line_measure_decimal(m: Seq<u8>, c: Seq<u8>, d: Seq<u8>)
    requires
        m.len() == 3,
        forall|i: int| 0 <= i < 3 ==> is_dec(#[trigger] m[i]),
        c.len() == 2,
        c[0] != 0x3a,
        c[1] != 0x3a,
    ensures
        spec_note_line(m + c + seq![0x3au8] + d, None) matches Some((measure, _, _)) && measure
            == 100 * (m[0] - 0x30) + 10 * (m[1] - 0x30) + (m[2] - 0x30),
        spec_note_line(m + seq![0x3au8] + c, Some(d)) matches Some((measure, _, _)) && measure
            == 100 * (m[0] - 0x30) + 10 * (m[1] - 0x30) + (m[2] - 0x30),
{
    lemma_legacy_note_line(m, c, d);
    lemma_three_decimal_digits(m);
    let std = m + c + seq![0x3au8] + d;
    assert(is_dec(m[0]) && is_dec(m[1]) && is_dec(m[2]));
    assert(std[0] == m[0] && std[1] == m[1] && std[2] == m[2] && std[3] == c[0] && std[4] == c[1]
        && std[5] == 0x3a);
    lemma_find_byte_at(std, 0x3a, 0, 5);
    assert(std.subrange(0, 5).subrange(0, 3) =~= m);
    let v = 100 * (m[0] - 0x30) + 10 * (m[1] - 0x30) + (m[2] - 0x30);
    assert(0 <= v <= 999);
}

/// The channel of a note line is its two characters read in hex: for hex
/// digits h0 h1 (either case) the channel is `16 * h0 + h1`, so `11` is
/// channel 0x11 and `1A` is 0x1A.
pub proof fn lemma_channel_hex(c: Seq<u8>)
    requires
        c.len() == 2,
        radix_digit(c[0], 16) is Some,
        radix_digit(c[1], 16) is Some,
    ensures
        spec_parse_channel(c) == 16 * radix_digit(c[0], 16).unwrap() + radix_digit(c[1], 16).unwrap(),
{
    assert(ws_width(c, 0) == 0);
    assert(trim_start(c) == c);
    assert(ws_width_before(c, 2) == 0);
    assert(trim(c) == c);
    let c1 = c.drop_last();
    assert(c1 =~= seq![c[0]]);
    assert(c1.drop_last() =~= Seq::<u8>::empty());
    assert(digits_value(c1.drop_last(), 16) == 0);
    assert(c1.last() == c[0]);
    assert(digits_value(c1, 16) == radix_digit(c[0], 16).unwrap());
    assert(c.drop_last() == c1);
    assert(digits_value(c, 16) == digits_value(c1, 16) * 16 + radix_digit(c[1], 16).unwrap());
    assert(all_digits(c, 16)) by {
        assert forall|i: int| 0 <= i < c.len() implies (#[trigger] radix_digit(c[i], 16)) is Some by {}
    }
    assert(c[0] != 0x2b);
}

} // verus!
