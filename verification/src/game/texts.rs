//! The texts the scenes show: the song list and the result of a play. Each
//! is stated over the UTF-8 bytes it holds.

use vstd::prelude::*;
use vstd::string::StringSliceAdditionalSpecFns;
use vstd::utf8::*;

use super::resources::{grade_for_score, spec_grade, PlayResult};
use super::song_select::SongLibrary;
use crate::bms::library::SongEntry;
use crate::bms::text::{str_bytes, string_from_utf8};

verus! {

/// The ASCII decimal digits of `n`, most significant first.
pub open spec fn decimal_bytes(n: nat) -> Seq<u8>
    decreases n,
{
    if n < 10 {
        seq![(n + 0x30) as u8]
    } else {
        decimal_bytes(n / 10).push((n % 10 + 0x30) as u8)
    }
}

/// `b` right-aligned in a field of `width` bytes: spaces in front where it
/// is shorter (`{:>width}`).
pub open spec fn right_aligned(b: Seq<u8>, width: nat) -> Seq<u8> {
    if b.len() >= width {
        b
    } else {
        Seq::new((width - b.len()) as nat, |_i: int| 0x20u8) + b
    }
}

/// Decimal digits are ASCII digits, at least one of them.
proof fn lemma_decimal_digits(n: nat)
    ensures
        decimal_bytes(n).len() >= 1,
        forall|i: int|
            0 <= i < decimal_bytes(n).len() ==> 0x30 <= #[trigger] decimal_bytes(n)[i] <= 0x39,
    decreases n,
{
    if n >= 10 {
        lemma_decimal_digits(n / 10);
    }
}

/// ASCII bytes are valid UTF-8.
proof fn lemma_ascii_valid(b: Seq<u8>)
    requires
        forall|i: int| 0 <= i < b.len() ==> #[trigger] b[i] < 0x80,
    ensures
        valid_utf8(b),
{
    assert(b.subrange(0, 0) =~= Seq::<u8>::empty());
    assert(partial_valid_utf8(b, 0));
    partial_valid_utf8_extend_ascii_block(b, 0, b.len() as int);
    assert(b.subrange(0, b.len() as int) =~= b);
}

/// Appends the bytes of `s` to `out`.
pub fn push_str(out: &mut Vec<u8>, s: &str)
    ensures
        final(out)@ == old(out)@ + s.spec_bytes(),
        valid_utf8(old(out)@) ==> valid_utf8(final(out)@),
{
    let b = str_bytes(s);
    let mut i: usize = 0;
    while i < b.len()
        invariant
            i <= b@.len(),
            b@ == s.spec_bytes(),
            out@ == old(out)@ + b@.subrange(0, i as int),
        decreases b@.len() - i,
    {
        out.push(b[i]);
        assert(b@.subrange(0, i as int + 1) =~= b@.subrange(0, i as int).push(b@[i as int]));
        i = i + 1;
    }
    assert(b@.subrange(0, b@.len() as int) =~= b@);
    proof {
        encode_utf8_valid_utf8(s@);
        if valid_utf8(old(out)@) {
            valid_utf8_concat(old(out)@, b@);
        }
    }
}

/// Appends the decimal digits of `n` to `out`.
fn push_decimal(out: &mut Vec<u8>, n: u64)
    ensures
        final(out)@ == old(out)@ + decimal_bytes(n as nat),
    decreases n,
{
    if n >= 10 {
        push_decimal(out, n / 10);
    }
    out.push((n % 10) as u8 + 0x30);
    assert(old(out)@ + decimal_bytes(n as nat) =~= if n >= 10 {
        (old(out)@ + decimal_bytes((n / 10) as nat)).push((n % 10 + 0x30) as u8)
    } else {
        old(out)@.push((n % 10 + 0x30) as u8)
    });
}

/// Appends `n` in decimal, right-aligned in a field of `width` bytes.
pub fn push_number(out: &mut Vec<u8>, n: u64, width: usize)
    ensures
        final(out)@ == old(out)@ + right_aligned(decimal_bytes(n as nat), width as nat),
        valid_utf8(old(out)@) ==> valid_utf8(final(out)@),
{
    let mut digits: Vec<u8> = Vec::new();
    push_decimal(&mut digits, n);
    assert(digits@ =~= decimal_bytes(n as nat));
    proof {
        lemma_decimal_digits(n as nat);
    }
    let ghost start = out@;
    let mut k: usize = digits.len();
    while k < width
        invariant
            digits@ == decimal_bytes(n as nat),
            digits@.len() <= k <= width || (k == digits@.len() && k >= width),
            out@ == start + Seq::new((k - digits@.len()) as nat, |_i: int| 0x20u8),
        decreases width - k,
    {
        out.push(0x20);
        assert(Seq::new((k + 1 - digits@.len()) as nat, |_i: int| 0x20u8) =~= Seq::new(
            (k - digits@.len()) as nat,
            |_i: int| 0x20u8,
        ).push(0x20u8));
        k = k + 1;
    }
    let ghost pad = out@.subrange(start.len() as int, out@.len() as int);
    let mut i: usize = 0;
    while i < digits.len()
        invariant
            i <= digits@.len(),
            digits@ == decimal_bytes(n as nat),
            out@.len() >= start.len(),
            out@ == start + (pad + digits@.subrange(0, i as int)),
        decreases digits@.len() - i,
    {
        out.push(digits[i]);
        assert(pad + digits@.subrange(0, i as int + 1) =~= (pad + digits@.subrange(0, i as int)).push(
            digits@[i as int],
        ));
        i = i + 1;
    }
    assert(digits@.subrange(0, digits@.len() as int) =~= digits@);
    assert(pad + digits@ =~= right_aligned(decimal_bytes(n as nat), width as nat));
    proof {
        let tail = right_aligned(decimal_bytes(n as nat), width as nat);
        lemma_ascii_valid(tail);
        assert(out@ =~= start + tail);
        if valid_utf8(start) {
            valid_utf8_concat(start, tail);
        }
    }
}

/// The line of song number `number` in the song list, marked where the
/// cursor is on it: `>> [ n] title (LEVEL level) - artist`.
pub open spec fn song_line(cursor: bool, number: nat, song: SongEntry) -> Seq<u8> {
    (if cursor {
        encode_utf8(">> "@)
    } else {
        encode_utf8("   "@)
    }) + encode_utf8("["@) + right_aligned(decimal_bytes(number), 2) + encode_utf8("] "@)
        + encode_utf8(song.title@) + encode_utf8(" (LEVEL "@) + encode_utf8(song.level@)
        + encode_utf8(") - "@) + encode_utf8(song.artist@) + encode_utf8("\n"@)
}

/// Appends the line of song number `number` (see `song_line`).
fn push_song_line(out: &mut Vec<u8>, cursor: bool, number: usize, song: &SongEntry)
    ensures
        final(out)@ == old(out)@ + song_line(cursor, number as nat, *song),
        valid_utf8(old(out)@) ==> valid_utf8(final(out)@),
{
    let ghost start = out@;
    if cursor {
        push_str(out, ">> ");
    } else {
        push_str(out, "   ");
    }
    let ghost p1 = out@.subrange(start.len() as int, out@.len() as int);
    assert(out@ =~= start + p1);
    push_str(out, "[");
    push_number(out, number as u64, 2);
    push_str(out, "] ");
    let ghost p2 = out@.subrange(start.len() as int, out@.len() as int);
    assert(p2 =~= p1 + encode_utf8("["@) + right_aligned(decimal_bytes(number as nat), 2)
        + encode_utf8("] "@));
    assert(out@ =~= start + p2);
    push_str(out, song.title.as_str());
    push_str(out, " (LEVEL ");
    push_str(out, song.level.as_str());
    let ghost p3 = out@.subrange(start.len() as int, out@.len() as int);
    assert(p3 =~= p2 + encode_utf8(song.title@) + encode_utf8(" (LEVEL "@) + encode_utf8(
        song.level@,
    ));
    assert(out@ =~= start + p3);
    push_str(out, ") - ");
    push_str(out, song.artist.as_str());
    push_str(out, "\n");
    let ghost p4 = out@.subrange(start.len() as int, out@.len() as int);
    assert(p4 =~= p3 + encode_utf8(") - "@) + encode_utf8(song.artist@) + encode_utf8("\n"@));
    assert(p4 == song_line(cursor, number as nat, *song));
    assert(out@ =~= start + p4);
}

/// The lines of the first `k` songs, numbered from 1.
pub open spec fn song_lines(songs: Seq<SongEntry>, cursor: int, k: int) -> Seq<u8>
    decreases k,
{
    if k <= 0 {
        Seq::empty()
    } else {
        song_lines(songs, cursor, k - 1) + song_line(k - 1 == cursor, k as nat, songs[k - 1])
    }
}

/// The song list as the song-select scene shows it: a hint where no song
/// was found, else one line per song.
pub open spec fn song_list_bytes(songs: Seq<SongEntry>, cursor: int) -> Seq<u8> {
    if songs.len() == 0 {
        encode_utf8("No BMS files found. Put .bms files in a `songs/` folder."@)
    } else {
        song_lines(songs, cursor, songs.len() as int)
    }
}

/// The text of the song list of `library` (see `song_list_bytes`).
pub fn song_list_text(library: &SongLibrary) -> (r: String)
    ensures
        encode_utf8(r@) == song_list_bytes(library.songs@, library.selected_index as int),
{
    let mut out: Vec<u8> = Vec::new();
    assert(valid_utf8(out@));
    let n = library.songs.len();
    if n == 0 {
        push_str(&mut out, "No BMS files found. Put .bms files in a `songs/` folder.");
        assert(out@ =~= song_list_bytes(library.songs@, library.selected_index as int));
    } else {
        let mut i: usize = 0;
        while i < n
            invariant
                n == library.songs@.len(),
                i <= n,
                out@ == song_lines(library.songs@, library.selected_index as int, i as int),
                valid_utf8(out@),
            decreases n - i,
        {
            let ghost before = out@;
            push_song_line(&mut out, i == library.selected_index, i + 1, &library.songs[i]);
            assert(out@ == song_lines(library.songs@, library.selected_index as int, i + 1));
            i = i + 1;
        }
    }
    string_from_utf8(out)
}

/// The combo counter of the play scene: `Combo: n`.
pub open spec fn combo_bytes(combo: u32) -> Seq<u8> {
    encode_utf8("Combo: "@) + decimal_bytes(combo as nat)
}

/// The text of the combo counter (see `combo_bytes`).
pub fn combo_text(combo: u32) -> (r: String)
    ensures
        encode_utf8(r@) == combo_bytes(combo),
{
    let mut out: Vec<u8> = Vec::new();
    assert(valid_utf8(out@));
    push_str(&mut out, "Combo: ");
    push_number(&mut out, combo as u64, 0);
    assert(out@ =~= combo_bytes(combo));
    string_from_utf8(out)
}

/// The heading of the score scene: `RESULT — title`.
pub open spec fn heading_bytes(title: Seq<char>) -> Seq<u8> {
    encode_utf8("RESULT — "@) + encode_utf8(title)
}

/// The heading of the score scene for `result` (see `heading_bytes`).
pub fn result_heading(result: &PlayResult) -> (r: String)
    ensures
        encode_utf8(r@) == heading_bytes(result.title@),
{
    let mut out: Vec<u8> = Vec::new();
    assert(valid_utf8(out@));
    push_str(&mut out, "RESULT — ");
    push_str(&mut out, result.title.as_str());
    assert(out@ =~= heading_bytes(result.title@));
    string_from_utf8(out)
}

/// The grade line of the score scene: `GRADE: g   (score)`, with the grade
/// the score earns.
pub open spec fn grade_line_bytes(score: u32) -> Seq<u8> {
    encode_utf8("GRADE: "@) + encode_utf8(spec_grade(score)) + encode_utf8("   ("@) + decimal_bytes(
        score as nat,
    ) + encode_utf8(")"@)
}

/// The grade line for `score` (see `grade_line_bytes`).
pub fn grade_line(score: u32) -> (r: String)
    ensures
        encode_utf8(r@) == grade_line_bytes(score),
{
    let mut out: Vec<u8> = Vec::new();
    assert(valid_utf8(out@));
    push_str(&mut out, "GRADE: ");
    push_str(&mut out, grade_for_score(score));
    push_str(&mut out, "   (");
    push_number(&mut out, score as u64, 0);
    push_str(&mut out, ")");
    assert(out@ =~= grade_line_bytes(score));
    string_from_utf8(out)
}

/// The judgment counts of the score scene, each right-aligned in four
/// columns, then the longest combo.
pub open spec fn counts_bytes(r: PlayResult) -> Seq<u8> {
    encode_utf8("PERFECT "@) + right_aligned(decimal_bytes(r.perfect as nat), 4) + encode_utf8(
        "\nGREAT   "@,
    ) + right_aligned(decimal_bytes(r.great as nat), 4) + encode_utf8("\nGOOD    "@)
        + right_aligned(decimal_bytes(r.good as nat), 4) + encode_utf8("\nBAD     "@)
        + right_aligned(decimal_bytes(r.bad as nat), 4) + encode_utf8("\nPOOR    "@)
        + right_aligned(decimal_bytes(r.poor as nat), 4) + encode_utf8("\n\nMAX COMBO "@)
        + decimal_bytes(r.max_combo as nat)
}

/// The judgment counts of `result` (see `counts_bytes`).
pub fn counts_text(result: &PlayResult) -> (r: String)
    ensures
        encode_utf8(r@) == counts_bytes(*result),
{
    let mut out: Vec<u8> = Vec::new();
    assert(valid_utf8(out@));
    push_str(&mut out, "PERFECT ");
    push_number(&mut out, result.perfect as u64, 4);
    push_str(&mut out, "\nGREAT   ");
    push_number(&mut out, result.great as u64, 4);
    let ghost p1 = out@;
    assert(p1 =~= encode_utf8("PERFECT "@) + right_aligned(decimal_bytes(result.perfect as nat), 4)
        + encode_utf8("\nGREAT   "@) + right_aligned(decimal_bytes(result.great as nat), 4));
    push_str(&mut out, "\nGOOD    ");
    push_number(&mut out, result.good as u64, 4);
    push_str(&mut out, "\nBAD     ");
    push_number(&mut out, result.bad as u64, 4);
    let ghost p2 = out@;
    assert(p2 =~= p1 + encode_utf8("\nGOOD    "@) + right_aligned(decimal_bytes(result.good as nat), 4)
        + encode_utf8("\nBAD     "@) + right_aligned(decimal_bytes(result.bad as nat), 4));
    push_str(&mut out, "\nPOOR    ");
    push_number(&mut out, result.poor as u64, 4);
    push_str(&mut out, "\n\nMAX COMBO ");
    push_number(&mut out, result.max_combo as u64, 0);
    assert(out@ =~= p2 + encode_utf8("\nPOOR    "@) + right_aligned(decimal_bytes(result.poor as nat), 4)
        + encode_utf8("\n\nMAX COMBO "@) + right_aligned(decimal_bytes(result.max_combo as nat), 0));
    assert(right_aligned(decimal_bytes(result.max_combo as nat), 0) == decimal_bytes(result.max_combo as nat));
    assert(out@ =~= counts_bytes(*result));
    string_from_utf8(out)
}

} // verus!
