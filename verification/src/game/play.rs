//! Bookkeeping during play: judgment counts, combo, and the background
//! objects that have been cued.

use std::collections::HashSet;
use vstd::prelude::*;

use super::resources::PlayResult;
use crate::bms::model::BmsNote;
use crate::channels::{
    lane_for_channel, spec_lane_for_channel, CHANNEL_BGA_BASE, CHANNEL_BGA_LAYER, CHANNEL_BGM,
    CHANNEL_BPM_CHANGE, CHANNEL_BPM_CHANGE_EXT, CHANNEL_STOP,
};

verus! {

/// The running combo and the longest combo of a play.
pub struct ComboState {
    pub combo: u32,
    pub max_combo: u32,
}

impl ComboState {
    /// No combo yet.
    pub fn new() -> (r: ComboState)
        ensures
            r.combo == 0 && r.max_combo == 0,
    {
        ComboState { combo: 0, max_combo: 0 }
    }
}

/// Records the judgment `hit` of one note: 0 perfect, 1 great, 2 good,
/// 3 bad, anything else poor. Perfect to bad extend the combo (and the
/// longest combo where it is passed); poor breaks it.
pub fn apply_judgment(combo: &mut ComboState, result: &mut PlayResult, hit: u32)
    requires
        old(result).perfect < u32::MAX,
        old(result).great < u32::MAX,
        old(result).good < u32::MAX,
        old(result).bad < u32::MAX,
        old(result).poor < u32::MAX,
        hit <= 3 ==> old(combo).combo < u32::MAX,
    ensures
        final(result).perfect == old(result).perfect + if hit == 0 { 1int } else { 0int },
        final(result).great == old(result).great + if hit == 1 { 1int } else { 0int },
        final(result).good == old(result).good + if hit == 2 { 1int } else { 0int },
        final(result).bad == old(result).bad + if hit == 3 { 1int } else { 0int },
        final(result).poor == old(result).poor + if hit > 3 { 1int } else { 0int },
        final(result).title == old(result).title,
        final(result).max_combo == old(result).max_combo,
        final(result).notes_total == old(result).notes_total,
        final(combo).combo == if hit <= 3 { old(combo).combo + 1 } else { 0 },
        final(combo).max_combo == if hit <= 3 && old(combo).combo + 1 > old(combo).max_combo {
            old(combo).combo + 1
        } else {
            old(combo).max_combo as int
        },
{
    if hit == 0 {
        result.perfect += 1;
    } else if hit == 1 {
        result.great += 1;
    } else if hit == 2 {
        result.good += 1;
    } else if hit == 3 {
        result.bad += 1;
    } else {
        result.poor += 1;
    }
    if hit <= 3 {
        combo.combo += 1;
        if combo.combo > combo.max_combo {
            combo.max_combo = combo.combo;
        }
    } else {
        combo.combo = 0;
    }
}

/// Hands the longest combo of a play to its result, which the score scene
/// shows; every other field of the result stays as it is.
pub fn record_max_combo(result: &mut PlayResult, combo: &ComboState)
    ensures
        *final(result) == (PlayResult { max_combo: combo.max_combo, ..*old(result) }),
{
    result.max_combo = combo.max_combo;
}

/// A judgment keeps the combo within the longest combo, never lowers the
/// longest combo, and adds exactly one to the judged notes.
pub proof fn lemma_judgment_keeps_combo_bounds(
    c0: u32,
    m0: u32,
    c1: u32,
    m1: u32,
    hit: u32,
)
    requires
        c0 <= m0,
        c1 == if hit <= 3 { c0 + 1 } else { 0 },
        m1 == if hit <= 3 && c0 + 1 > m0 { c0 + 1 } else { m0 as int },
    ensures
        c1 <= m1,
        m0 <= m1,
{
}

/// Notes that a player hits: those on a lane channel.
pub open spec fn player_notes(notes: Seq<BmsNote>, k: int) -> int
    decreases k,
{
    if k <= 0 {
        0
    } else {
        player_notes(notes, k - 1) + if spec_lane_for_channel(notes[k - 1].channel) is Some {
            1int
        } else {
            0int
        }
    }
}

/// How many of `notes` a player hits (see `player_notes`).
pub fn player_note_count(notes: &Vec<BmsNote>) -> (r: usize)
    ensures
        r == player_notes(notes@, notes@.len() as int),
{
    let mut count: usize = 0;
    let mut i: usize = 0;
    while i < notes.len()
        invariant
            i <= notes@.len(),
            count == player_notes(notes@, i as int),
            count <= i,
        decreases notes@.len() - i,
    {
        if lane_for_channel(notes[i].channel).is_some() {
            count = count + 1;
        }
        i = i + 1;
    }
    count
}

/// What the play scene does when a background object comes due.
#[derive(Debug, Clone, Copy, PartialEq, Eq, Structural)]
pub enum Cue {
    /// Start the sound loaded for this object id, where one is loaded.
    Sound(u32),
    /// Show the image loaded for this object id, where one is loaded.
    Image(u32),
    /// Nothing to do.
    Silent,
}

/// Channels whose due objects are handled once and then remembered:
/// background music, the BGA base and layer, and the tempo channels (whose
/// effect the timing already holds).
pub open spec fn logged_channel(ch: u32) -> bool {
    ||| ch == CHANNEL_BGM
    ||| ch == CHANNEL_BGA_BASE
    ||| ch == CHANNEL_BGA_LAYER
    ||| ch == CHANNEL_BPM_CHANGE
    ||| ch == CHANNEL_BPM_CHANGE_EXT
    ||| ch == CHANNEL_STOP
}

/// The cue of object `obj` on channel `ch` the first time it comes due.
pub open spec fn fresh_cue(ch: u32, obj: u32) -> Cue {
    if ch == CHANNEL_BGM {
        Cue::Sound(obj)
    } else if ch == CHANNEL_BGA_BASE || ch == CHANNEL_BGA_LAYER {
        Cue::Image(obj)
    } else {
        Cue::Silent
    }
}

/// The handled pairs and the cue after object `obj` of channel `ch` comes
/// due, where `log` holds the (channel, object) pairs handled before.
pub open spec fn cue_step(log: Set<(u32, u32)>, ch: u32, obj: u32) -> (Set<(u32, u32)>, Cue) {
    if log.contains((ch, obj)) {
        (log, Cue::Silent)
    } else if logged_channel(ch) {
        (log.insert((ch, obj)), fresh_cue(ch, obj))
    } else {
        (log, Cue::Silent)
    }
}

/// The `u64` that holds the pair (`ch`, `obj`): the channel in the high 32
/// bits, the object in the low 32 bits.
pub open spec fn pair_key(ch: u32, obj: u32) -> u64 {
    (ch as int * 0x1_0000_0000 + obj as int) as u64
}

/// Two pairs with one key are the same pair.
proof fn lemma_pair_key_injective(a: u32, b: u32, c: u32, d: u32)
    requires
        pair_key(a, b) == pair_key(c, d),
    ensures
        a == c && b == d,
{
    let (x, y, z, w) = (a as int, b as int, c as int, d as int);
    assert(0 <= x * 0x1_0000_0000 + y <= 0xffff_ffff_ffff_ffff) by (nonlinear_arith)
        requires
            0 <= x <= 0xffff_ffff,
            0 <= y <= 0xffff_ffff,
    ;
    assert(0 <= z * 0x1_0000_0000 + w <= 0xffff_ffff_ffff_ffff) by (nonlinear_arith)
        requires
            0 <= z <= 0xffff_ffff,
            0 <= w <= 0xffff_ffff,
    ;
    assert(x == z && y == w) by (nonlinear_arith)
        requires
            x * 0x1_0000_0000 + y == z * 0x1_0000_0000 + w,
            0 <= y <= 0xffff_ffff,
            0 <= w <= 0xffff_ffff,
    ;
}

/// The key of the pair (`ch`, `obj`) (see `pair_key`).
fn pack_pair(ch: u32, obj: u32) -> (r: u64)
    ensures
        r == pair_key(ch, obj),
{
    let (x, y) = (ch as u64, obj as u64);
    assert(x * 0x1_0000_0000 + y <= 0xffff_ffff_ffff_ffff) by (nonlinear_arith)
        requires
            x <= 0xffff_ffff,
            y <= 0xffff_ffff,
    ;
    x * 0x1_0000_0000 + y
}

/// The (channel, object) pairs whose background objects a play has handled.
/// They are held in a `HashSet`, each pair packed into one `u64` key (see
/// `pair_key`): vstd specifies hash sets of integer keys, not of tuples.
pub struct CueLog {
    keys: HashSet<u64>,
}

impl CueLog {
    /// The handled pairs.
    pub closed spec fn handled(&self) -> Set<(u32, u32)> {
        Set::new(|p: (u32, u32)| self.keys@.contains(pair_key(p.0, p.1)))
    }

    /// A log with nothing handled.
    pub fn new() -> (r: CueLog)
        ensures
            r@ == Set::<(u32, u32)>::empty(),
    {
        let r = CueLog { keys: HashSet::new() };
        assert(r@ =~= Set::<(u32, u32)>::empty());
        r
    }

    /// Forgets every handled pair.
    pub fn clear(&mut self)
        ensures
            final(self)@ == Set::<(u32, u32)>::empty(),
    {
        self.keys.clear();
        assert(self@ =~= Set::<(u32, u32)>::empty());
    }

    /// Whether object `obj` of channel `ch` has been handled.
    pub fn contains(&self, ch: u32, obj: u32) -> (r: bool)
        ensures
            r == self@.contains((ch, obj)),
    {
        broadcast use vstd::std_specs::hash::group_hash_axioms;

        let k = pack_pair(ch, obj);
        self.keys.contains(&k)
    }

    /// Handles object `obj` of channel `ch` as it comes due (see `cue_step`):
    /// a pair handled before is silent; otherwise the pair is remembered if
    /// its channel is logged, and the cue is that of its channel.
    pub fn cue(&mut self, ch: u32, obj: u32) -> (r: Cue)
        ensures
            (final(self)@, r) == cue_step(old(self)@, ch, obj),
    {
        broadcast use vstd::std_specs::hash::group_hash_axioms;

        if self.contains(ch, obj) {
            return Cue::Silent;
        }
        if ch == CHANNEL_BGM || ch == CHANNEL_BGA_BASE || ch == CHANNEL_BGA_LAYER || ch
            == CHANNEL_BPM_CHANGE || ch == CHANNEL_BPM_CHANGE_EXT || ch == CHANNEL_STOP {
            let ghost before = self@;
            let k = pack_pair(ch, obj);
            self.keys.insert(k);
            assert forall|p: (u32, u32)| #[trigger] self@.contains(p) == before.insert(
                (ch, obj),
            ).contains(p) by {
                if self.keys@.contains(pair_key(p.0, p.1)) && pair_key(p.0, p.1) == k {
                    lemma_pair_key_injective(p.0, p.1, ch, obj);
                }
            }
            assert(self@ =~= before.insert((ch, obj)));
            if ch == CHANNEL_BGM {
                Cue::Sound(obj)
            } else if ch == CHANNEL_BGA_BASE || ch == CHANNEL_BGA_LAYER {
                Cue::Image(obj)
            } else {
                Cue::Silent
            }
        } else {
            Cue::Silent
        }
    }
}

impl View for CueLog {
    type V = Set<(u32, u32)>;

    open spec fn view(&self) -> Set<(u32, u32)> {
        self.handled()
    }
}

/// What each channel cues: only background music (channel 01) starts a
/// sound, only the BGA base and layer (channels 04 and 07) show an image,
/// each of the object that came due; the tempo channels (03, 08, 09) are
/// remembered but silent; every other channel is silent and not
/// remembered.
pub proof fn lemma_cue_by_channel(log: Set<(u32, u32)>, ch: u32, obj: u32)
    ensures
        cue_step(log, ch, obj).1 matches Cue::Sound(o) ==> ch == 0x01 && o == obj,
        cue_step(log, ch, obj).1 matches Cue::Image(o) ==> (ch == 0x04 || ch == 0x07) && o == obj,
        !log.contains((ch, obj)) && ch == 0x01 ==> cue_step(log, ch, obj).1 == Cue::Sound(obj),
        !log.contains((ch, obj)) && (ch == 0x04 || ch == 0x07) ==> cue_step(log, ch, obj).1
            == Cue::Image(obj),
        (ch == 0x03 || ch == 0x08 || ch == 0x09) ==> cue_step(log, ch, obj).1 == Cue::Silent
            && cue_step(log, ch, obj).0 == log.insert((ch, obj)),
        !(ch == 0x01 || ch == 0x03 || ch == 0x04 || ch == 0x07 || ch == 0x08 || ch == 0x09)
            ==> cue_step(log, ch, obj) == (log, Cue::Silent),
{
    if log.contains((ch, obj)) {
        assert(log.insert((ch, obj)) =~= log);
    }
}

/// A background object is handled at most once in a play: once it has come
/// due, its coming due again is silent and changes nothing; and the handled
/// pairs only grow.
pub proof fn lemma_cue_at_most_once(log: Set<(u32, u32)>, ch: u32, obj: u32)
    ensures
        log.subset_of(cue_step(log, ch, obj).0),
        cue_step(cue_step(log, ch, obj).0, ch, obj) == (cue_step(log, ch, obj).0, Cue::Silent),
{
}

} // verus!
