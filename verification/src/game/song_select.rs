//! The song-select cursor: which keys move it and what a frame's keys do.

use vstd::prelude::*;

use crate::bms::library::SongEntry;

verus! {

/// The discovered songs and the cursor into them.
pub struct SongLibrary {
    pub songs: Vec<SongEntry>,
    pub selected_index: usize,
}

impl SongLibrary {
    /// An empty library with the cursor at 0.
    pub fn new() -> (r: SongLibrary)
        ensures
            r.songs@.len() == 0,
            r.selected_index == 0,
    {
        SongLibrary { songs: Vec::new(), selected_index: 0 }
    }

    /// The song under the cursor, if the cursor is on one.
    pub fn selected(&self) -> (r: Option<&SongEntry>)
        ensures
            self.selected_index < self.songs@.len() ==> r == Some(&self.songs@[self.selected_index as int]),
            self.selected_index >= self.songs@.len() ==> r is None,
    {
        if self.selected_index < self.songs.len() {
            Some(&self.songs[self.selected_index])
        } else {
            None
        }
    }
}

/// The keys pressed in one frame of the song-select scene.
#[derive(Debug, Clone, Copy, PartialEq, Eq)]
pub struct SelectKeys {
    pub down: bool,
    pub up: bool,
    pub enter: bool,
    pub escape: bool,
}

/// What the song-select scene does after a frame.
#[derive(Debug, Clone, Copy, PartialEq, Eq)]
pub enum SelectAction {
    /// Stay on the song list.
    Stay,
    /// Play the song under the cursor.
    Play,
    /// Leave the game.
    Quit,
}

/// The cursor after moving down one song in a list of `len`, wrapping to the
/// top.
pub open spec fn cursor_down(i: int, len: int) -> int {
    (i + 1) % len
}

/// The cursor after moving up one song in a list of `len`, wrapping to the
/// bottom.
pub open spec fn cursor_up(i: int, len: int) -> int {
    if i == 0 {
        len - 1
    } else {
        i - 1
    }
}

/// The cursor after a frame's keys: down, then up, each only on a non-empty
/// list.
pub open spec fn cursor_after(i: int, len: int, keys: SelectKeys) -> int {
    let i1 = if keys.down && len > 0 {
        cursor_down(i, len)
    } else {
        i
    };
    if keys.up && len > 0 {
        cursor_up(i1, len)
    } else {
        i1
    }
}

/// Applies a frame's keys to the song list: moves the cursor, then plays the
/// song under it on Enter, or else quits on Escape.
pub fn select_step(library: &mut SongLibrary, keys: SelectKeys) -> (r: SelectAction)
    requires
        keys.down && old(library).songs@.len() > 0 ==> old(library).selected_index < usize::MAX,
    ensures
        final(library).songs == old(library).songs,
        final(library).selected_index == cursor_after(
            old(library).selected_index as int,
            old(library).songs@.len() as int,
            keys,
        ),
        r == (if keys.enter && final(library).selected_index < final(library).songs@.len() {
            SelectAction::Play
        } else if keys.escape {
            SelectAction::Quit
        } else {
            SelectAction::Stay
        }),
{
    let len = library.songs.len();
    if keys.down && len > 0 {
        library.selected_index = (library.selected_index + 1) % len;
    }
    if keys.up && len > 0 {
        library.selected_index = if library.selected_index == 0 {
            len - 1
        } else {
            library.selected_index - 1
        };
    }
    if keys.enter && library.selected_index < len {
        return SelectAction::Play;
    }
    if keys.escape {
        SelectAction::Quit
    } else {
        SelectAction::Stay
    }
}

/// Moving down wraps from the last song to the first.
proof fn lemma_cursor_down(i: int, len: int)
    requires
        0 <= i < len,
    ensures
        cursor_down(i, len) == if i + 1 < len { i + 1 } else { 0 },
{
    if i + 1 < len {
        vstd::arithmetic::div_mod::lemma_small_mod((i + 1) as nat, len as nat);
    } else {
        vstd::arithmetic::div_mod::lemma_mod_self_0(len);
    }
}

/// Moving down and then up returns the cursor to where it was, on a list
/// the cursor is in.
pub proof fn lemma_down_then_up(i: int, len: int)
    requires
        0 <= i < len,
    ensures
        cursor_up(cursor_down(i, len), len) == i,
{
    lemma_cursor_down(i, len);
}

/// Moving up and then down returns the cursor to where it was.
pub proof fn lemma_up_then_down(i: int, len: int)
    requires
        0 <= i < len,
    ensures
        cursor_down(cursor_up(i, len), len) == i,
{
    lemma_cursor_down(cursor_up(i, len), len);
}

/// The cursor stays in a non-empty list once it is in it.
pub proof fn lemma_cursor_in_list(i: int, len: int, keys: SelectKeys)
    requires
        0 <= i < len,
    ensures
        0 <= cursor_after(i, len, keys) < len,
{
    lemma_cursor_down(i, len);
}

} // verus!
