//! Song list: which files are charts, the entry a chart's header gives, and
//! the list's order by title.

use std::path::PathBuf;
use vstd::prelude::*;
use vstd::string::StringSliceAdditionalSpecFns;
use vstd::utf8::encode_utf8;

use super::model::BmsData;
use super::numbers::{ascii_lower, lower_byte};
use super::parser::lower_bytes;
use super::text::str_bytes;
use crate::sorting::{lemma_stable_insert, sorted_by, stable_rearrangement, stable_sorted};

verus! {

#[verifier::external_type_specification]
#[verifier::external_body]
pub struct ExPathBuf(PathBuf);

/// `PathBuf::clone` (std), which the derived `Clone` of `SongEntry` calls: it
/// returns a copy of the path. Nothing about the copy is stated: the copy
/// holds the same path, but its buffer may differ, and a value equality here
/// would claim that too.
pub assume_specification[ <PathBuf as Clone>::clone ](p: &PathBuf) -> (r: PathBuf);

/// One chart found on disk, with the header values the song list shows.
#[derive(Debug, Clone)]
pub struct SongEntry {
    pub title: String,
    pub artist: String,
    pub genre: String,
    pub level: String,
    pub player: u32,
    pub path: PathBuf,
    pub dir: PathBuf,
    /// Absolute path of a banner image, if available.
    pub banner: Option<PathBuf>,
}

/// A file extension of a chart: `bms`, `bme`, `bml` or `pms` in any case.
pub open spec fn chart_extension(ext: Seq<u8>) -> bool {
    let l = lower_bytes(ext);
    ||| l == seq![0x62u8, 0x6d, 0x73]
    ||| l == seq![0x62u8, 0x6d, 0x65]
    ||| l == seq![0x62u8, 0x6d, 0x6c]
    ||| l == seq![0x70u8, 0x6d, 0x73]
}

/// Whether a file with extension `ext` is a chart (see `chart_extension`).
pub fn is_chart_extension(ext: &str) -> (r: bool)
    ensures
        r == chart_extension(ext.spec_bytes()),
{
    let b = str_bytes(ext);
    if b.len() != 3 {
        assert(lower_bytes(b@).len() == b@.len());
        return false;
    }
    let l: [u8; 3] = [lower_byte(b[0]), lower_byte(b[1]), lower_byte(b[2])];
    assert(l@ =~= lower_bytes(b@));
    (l[0] == 0x62 && l[1] == 0x6d && (l[2] == 0x73 || l[2] == 0x65 || l[2] == 0x6c)) || (l[0] == 0x70
        && l[1] == 0x6d && l[2] == 0x73)
}

/// The title a song list shows for a chart: its `#TITLE`, or where that is
/// empty the file's stem, or `unknown` where the stem is no text.
pub open spec fn entry_title(data_title: Seq<char>, stem: Option<Seq<char>>) -> Seq<char> {
    if data_title.len() == 0 {
        match stem {
            Some(s) => s,
            None => "unknown"@,
        }
    } else {
        data_title
    }
}

/// The song-list entry for the chart `data` read from `path` in `dir`,
/// whose file stem is `stem` where that is text.
pub fn song_entry(data: BmsData, stem: Option<&str>, path: PathBuf, dir: PathBuf) -> (r: SongEntry)
    ensures
        r.title@ == entry_title(data.title@, match stem {
            Some(s) => Some(s@),
            None => None,
        }),
        r.artist == data.artist,
        r.genre == data.genre,
        r.level == data.play_level,
        r.player == data.player,
        r.path == path,
        r.dir == dir,
        r.banner is None,
{
    let title = if data.title.as_str().is_empty() {
        match stem {
            Some(s) => s.to_owned(),
            None => "unknown".to_owned(),
        }
    } else {
        data.title
    };
    SongEntry {
        title,
        artist: data.artist,
        genre: data.genre,
        level: data.play_level,
        player: data.player,
        path,
        dir,
        banner: None,
    }
}


/// The Unicode lower case of a text, as `str::to_lowercase` computes it.
pub uninterp spec fn unicode_lowercase(s: Seq<char>) -> Seq<char>;

/// `str::to_lowercase` (std): the text with every character mapped to its
/// Unicode lower case. Its result is named `unicode_lowercase` of the text;
/// the Unicode case tables themselves are not written out here.
#[verifier::external_body]
fn to_lowercase(s: &str) -> (r: String)
    ensures
        r@ == unicode_lowercase(s@),
{
    s.to_lowercase()
}

/// `a` comes no later than `b` in byte-wise lexicographic order (the order of
/// `str`/`String`): a proper prefix comes first.
pub open spec fn lex_le(a: Seq<u8>, b: Seq<u8>) -> bool
    decreases a.len(),
{
    if a.len() == 0 {
        true
    } else if b.len() == 0 {
        false
    } else if a[0] != b[0] {
        a[0] < b[0]
    } else {
        lex_le(a.drop_first(), b.drop_first())
    }
}

/// The key a song sorts by: its title in lower case, as UTF-8 bytes.
pub open spec fn title_key(e: SongEntry) -> Seq<u8> {
    encode_utf8(unicode_lowercase(e.title@))
}

/// Song order: by lower-case title.
pub open spec fn song_order() -> spec_fn(SongEntry, SongEntry) -> bool {
    |a: SongEntry, b: SongEntry| lex_le(title_key(a), title_key(b))
}

/// `lex_le` is total.
pub proof fn lemma_lex_le_total(a: Seq<u8>, b: Seq<u8>)
    ensures
        lex_le(a, b) || lex_le(b, a),
    decreases a.len(),
{
    if a.len() > 0 && b.len() > 0 && a[0] == b[0] {
        lemma_lex_le_total(a.drop_first(), b.drop_first());
    }
}

/// `lex_le` is transitive.
pub proof fn lemma_lex_le_transitive(a: Seq<u8>, b: Seq<u8>, c: Seq<u8>)
    requires
        lex_le(a, b),
        lex_le(b, c),
    ensures
        lex_le(a, c),
    decreases a.len(),
{
    if a.len() > 0 && b.len() > 0 && c.len() > 0 && a[0] == b[0] && b[0] == c[0] {
        lemma_lex_le_transitive(a.drop_first(), b.drop_first(), c.drop_first());
    }
}

/// The title order compares whole texts: after a common prefix (of any
/// bytes, spaces too) the order is that of what follows.
pub proof fn lemma_lex_le_common_prefix(p: Seq<u8>, a: Seq<u8>, b: Seq<u8>)
    ensures
        lex_le(p + a, p + b) == lex_le(a, b),
    decreases p.len(),
{
    if p.len() > 0 {
        assert((p + a).drop_first() =~= p.drop_first() + a);
        assert((p + b).drop_first() =~= p.drop_first() + b);
        lemma_lex_le_common_prefix(p.drop_first(), a, b);
    } else {
        assert(p + a =~= a);
        assert(p + b =~= b);
    }
}

/// The title order is byte-wise: a text whose first byte is smaller comes
/// strictly first, the empty text comes first of all, and a non-empty text
/// never comes before the empty one.
pub proof fn lemma_lex_le_first_byte(a: Seq<u8>, b: Seq<u8>)
    ensures
        a.len() > 0 && b.len() > 0 && a[0] < b[0] ==> lex_le(a, b) && !lex_le(b, a),
        a.len() == 0 ==> lex_le(a, b),
        a.len() > 0 && b.len() == 0 ==> !lex_le(a, b),
{
}

/// `lex_le(a, b)` for an exec caller.
pub fn lex_le_exec(a: &[u8], b: &[u8]) -> (r: bool)
    ensures
        r == lex_le(a@, b@),
{
    let mut i: usize = 0;
    assert(a@.skip(0) =~= a@ && b@.skip(0) =~= b@);
    while i < a.len() && i < b.len() && a[i] == b[i]
        invariant
            i <= a@.len(),
            i <= b@.len(),
            lex_le(a@, b@) == lex_le(a@.skip(i as int), b@.skip(i as int)),
        decreases a@.len() - i,
    {
        assert(a@.skip(i as int).drop_first() =~= a@.skip(i + 1));
        assert(b@.skip(i as int).drop_first() =~= b@.skip(i + 1));
        i = i + 1;
    }
    if i == a.len() {
        true
    } else if i == b.len() {
        false
    } else {
        assert(a@.skip(i as int)[0] == a@[i as int]);
        assert(b@.skip(i as int)[0] == b@[i as int]);
        a[i] < b[i]
    }
}

/// Order of songs paired with their sort keys: by the key's bytes.
pub open spec fn keyed_order() -> spec_fn((String, SongEntry), (String, SongEntry)) -> bool {
    |a: (String, SongEntry), b: (String, SongEntry)| lex_le(encode_utf8(a.0@), encode_utf8(b.0@))
}

/// Inserts `e` into the ordered `out` after every pair whose key sorts no
/// later.
fn insert_keyed(out: &mut Vec<(String, SongEntry)>, e: (String, SongEntry)) -> (k: usize)
    requires
        sorted_by(old(out)@, keyed_order()),
    ensures
        k <= old(out)@.len(),
        final(out)@ == old(out)@.insert(k as int, e),
        forall|j: int| 0 <= j < k ==> #[trigger] keyed_order()(old(out)@[j], e),
        forall|j: int| k <= j < old(out)@.len() ==> !#[trigger] keyed_order()(old(out)@[j], e),
        forall|j: int| k <= j < old(out)@.len() ==> #[trigger] keyed_order()(e, old(out)@[j]),
{
    let kb = str_bytes(e.0.as_str());
    let mut j = out.len();
    while j > 0 && !lex_le_exec(str_bytes(out[j - 1].0.as_str()), kb)
        invariant
            out@ == old(out)@,
            kb@ == encode_utf8(e.0@),
            j <= out@.len(),
            forall|t: int| j <= t < out@.len() ==> !#[trigger] keyed_order()(out@[t], e),
        decreases j,
    {
        j = j - 1;
    }
    proof {
        let o = out@;
        assert forall|i: int| 0 <= i < j implies #[trigger] keyed_order()(o[i], e) by {
            if i < j - 1 {
                assert(keyed_order()(o[i], o[j - 1]));
                lemma_lex_le_transitive(encode_utf8(o[i].0@), encode_utf8(o[j - 1].0@), encode_utf8(e.0@));
            }
        }
        assert forall|t: int| j <= t < o.len() implies #[trigger] keyed_order()(e, o[t]) by {
            assert(!keyed_order()(o[t], e));
            lemma_lex_le_total(encode_utf8(o[t].0@), encode_utf8(e.0@));
        }
    }
    out.insert(j, e);
    j
}

/// Songs paired with their sort keys, ordered stably by key (byte-wise, as
/// `String`s compare).
pub fn sort_keyed_songs(entries: Vec<(String, SongEntry)>) -> (r: Vec<(String, SongEntry)>)
    ensures
        stable_sorted(r@, entries@, keyed_order()),
{
    let ghost s0 = entries@;
    let mut rest = entries;
    let mut out: Vec<(String, SongEntry)> = Vec::new();
    let ghost mut src: Seq<(String, SongEntry)> = Seq::empty();
    let ghost mut p: Seq<int> = Seq::empty();
    while rest.len() > 0
        invariant
            s0 == src + rest@,
            out@.len() == src.len(),
            sorted_by(out@, keyed_order()),
            stable_rearrangement(p, out@, src, keyed_order()),
        decreases rest@.len(),
    {
        let e = rest.remove(0);
        let ghost before = out@;
        let k = insert_keyed(&mut out, e);
        proof {
            lemma_stable_insert(p, before, src, keyed_order(), e, k as int);
            p = p.insert(k as int, src.len() as int);
            src = src.push(e);
            assert(s0 =~= src + rest@);
        }
    }
    assert(src =~= s0);
    out
}

/// The songs ordered by lower-case title (`sort_by` on `to_lowercase`),
/// stably: songs whose titles compare equal keep their order.
pub fn sort_songs(songs: Vec<SongEntry>) -> (r: Vec<SongEntry>)
    ensures
        stable_sorted(r@, songs@, song_order()),
{
    let ghost s0 = songs@;
    let mut rest = songs;
    let mut keyed: Vec<(String, SongEntry)> = Vec::new();
    while rest.len() > 0
        invariant
            s0.len() == keyed@.len() + rest@.len(),
            forall|i: int| 0 <= i < rest@.len() ==> rest@[i] == s0[keyed@.len() + i],
            forall|i: int|
                0 <= i < keyed@.len() ==> (#[trigger] keyed@[i]).1 == s0[i] && encode_utf8(keyed@[i].0@)
                    == title_key(s0[i]),
        decreases rest@.len(),
    {
        let e = rest.remove(0);
        let key = to_lowercase(e.title.as_str());
        proof {
            assert(encode_utf8(key@) == title_key(e));
        }
        keyed.push((key, e));
    }
    let ghost keyed0 = keyed@;
    let sorted = sort_keyed_songs(keyed);
    let ghost p = choose|p: Seq<int>| stable_rearrangement(p, sorted@, keyed0, keyed_order());
    let ghost sorted0 = sorted@;
    let mut rest = sorted;
    let mut out: Vec<SongEntry> = Vec::new();
    while rest.len() > 0
        invariant
            sorted0.len() == out@.len() + rest@.len(),
            forall|i: int| 0 <= i < rest@.len() ==> rest@[i] == sorted0[out@.len() + i],
            forall|i: int| 0 <= i < out@.len() ==> #[trigger] out@[i] == sorted0[i].1,
        decreases rest@.len(),
    {
        let e = rest.remove(0);
        out.push(e.1);
    }
    proof {
        let r = out@;
        assert forall|j: int| 0 <= j < r.len() implies title_key(#[trigger] r[j]) == encode_utf8(sorted0[j].0@) by {
            assert(sorted0[j] == keyed0[p[j]]);
        }
        assert forall|i: int, j: int| 0 <= i < j < r.len() implies #[trigger] song_order()(r[i], r[j]) by {
            assert(keyed_order()(sorted0[i], sorted0[j]));
            assert(title_key(r[i]) == encode_utf8(sorted0[i].0@));
            assert(title_key(r[j]) == encode_utf8(sorted0[j].0@));
        }
        assert forall|j: int| 0 <= j < p.len() implies 0 <= #[trigger] p[j] < s0.len() && r[j] == s0[p[j]] by {
            assert(sorted0[j] == keyed0[p[j]]);
        }
        assert forall|j1: int, j2: int| 0 <= j1 < j2 < p.len() && #[trigger] song_order()(r[j2], r[j1]) implies p[j1] < p[j2] by {
            assert(title_key(r[j1]) == encode_utf8(sorted0[j1].0@));
            assert(title_key(r[j2]) == encode_utf8(sorted0[j2].0@));
            assert(keyed_order()(sorted0[j2], sorted0[j1]));
        }
        assert(stable_rearrangement(p, r, s0, song_order()));
    }
    out
}

} // verus!
