//! The parsed chart: header values and the objects placed on channels.

use std::collections::HashMap;
use vstd::prelude::*;
use vstd::string::StringSliceAdditionalSpecFns;
use vstd::utf8::encode_utf8;

use super::numbers::{base36_in, base36_value};
use super::text::str_bytes;

verus! {

/// Base-36 (00-ZZ) object id used in channel data.
#[derive(Debug, Clone, Copy, PartialEq, Eq, Hash, Structural)]
pub struct ObjId(pub u32);

impl ObjId {
    /// The id that `s` spells in base 36, digits `0-9` then `a-z`/`A-Z`
    /// case-insensitively; a byte that is no such digit counts as 0.
    pub fn from_hex36(s: &str) -> (r: ObjId)
        requires
            base36_value(s.spec_bytes()) <= u32::MAX,
        ensures
            r.0 == base36_value(s.spec_bytes()),
    {
        let b = str_bytes(s);
        assert(b@.subrange(0, b@.len() as int) =~= b@);
        ObjId(base36_in(b, 0, b.len()))
    }
}

/// A single object placed on a channel, at slot `slot` of the `slots` equal
/// slots that its data line divides measure `measure` into: the object sits
/// at the fraction `slot / slots` of the measure.
#[derive(Debug, Clone, Copy, PartialEq, Eq, Structural)]
pub struct BmsNote {
    pub channel: u32,
    /// Measure number (integer >= 0).
    pub measure: u32,
    /// Index of the slot in the measure, below `slots`.
    pub slot: usize,
    /// Number of slots the measure's data line has.
    pub slots: usize,
    pub obj: ObjId,
}

/// Parsed header and note chart. Text fields hold the header's value as
/// written (after trimming). `total` and `base_bpm` hold the text of the last
/// `#TOTAL` / `#BPM` header: the gauge total is its decimal value, or 100 where
/// it has none; the initial tempo likewise, or 130. `bpm_changes` and
/// `stop_changes` hold, by object id, the decimal text of `#BPMxx` / `#STOPxx`
/// headers whose value is a decimal number.
#[derive(Debug, Clone)]
pub struct BmsData {
    pub title: String,
    pub subtitle: String,
    pub artist: String,
    pub genre: String,
    pub player: u32,
    pub play_level: String,
    pub rank: i32,
    pub total: String,
    pub base_bpm: String,
    pub stagefile: String,
    pub banner: String,
    pub backbmp: String,
    pub wav_files: HashMap<u32, String>,
    pub bmp_files: HashMap<u32, String>,
    pub bpm_changes: HashMap<u32, String>,
    pub stop_changes: HashMap<u32, String>,
    pub notes: Vec<BmsNote>,
}

/// What a `BmsData` holds, each text as its UTF-8 bytes.
#[verifier::ext_equal]
pub struct ChartModel {
    pub title: Seq<u8>,
    pub subtitle: Seq<u8>,
    pub artist: Seq<u8>,
    pub genre: Seq<u8>,
    pub player: u32,
    pub play_level: Seq<u8>,
    pub rank: i32,
    pub total: Seq<u8>,
    pub base_bpm: Seq<u8>,
    pub stagefile: Seq<u8>,
    pub banner: Seq<u8>,
    pub backbmp: Seq<u8>,
    pub wav_files: Map<u32, Seq<u8>>,
    pub bmp_files: Map<u32, Seq<u8>>,
    pub bpm_changes: Map<u32, Seq<u8>>,
    pub stop_changes: Map<u32, Seq<u8>>,
    pub notes: Seq<BmsNote>,
}

/// The texts of a map, as UTF-8 bytes.
pub open spec fn text_map(m: Map<u32, String>) -> Map<u32, Seq<u8>> {
    m.map_values(|s: String| encode_utf8(s@))
}

impl View for BmsData {
    type V = ChartModel;

    open spec fn view(&self) -> ChartModel {
        ChartModel {
            title: encode_utf8(self.title@),
            subtitle: encode_utf8(self.subtitle@),
            artist: encode_utf8(self.artist@),
            genre: encode_utf8(self.genre@),
            player: self.player,
            play_level: encode_utf8(self.play_level@),
            rank: self.rank,
            total: encode_utf8(self.total@),
            base_bpm: encode_utf8(self.base_bpm@),
            stagefile: encode_utf8(self.stagefile@),
            banner: encode_utf8(self.banner@),
            backbmp: encode_utf8(self.backbmp@),
            wav_files: text_map(self.wav_files@),
            bmp_files: text_map(self.bmp_files@),
            bpm_changes: text_map(self.bpm_changes@),
            stop_changes: text_map(self.stop_changes@),
            notes: self.notes@,
        }
    }
}

impl ChartModel {
    /// The chart before any line is read: everything empty or zero.
    pub open spec fn initial() -> ChartModel {
        ChartModel {
            title: Seq::empty(),
            subtitle: Seq::empty(),
            artist: Seq::empty(),
            genre: Seq::empty(),
            player: 0,
            play_level: Seq::empty(),
            rank: 0,
            total: Seq::empty(),
            base_bpm: Seq::empty(),
            stagefile: Seq::empty(),
            banner: Seq::empty(),
            backbmp: Seq::empty(),
            wav_files: Map::empty(),
            bmp_files: Map::empty(),
            bpm_changes: Map::empty(),
            stop_changes: Map::empty(),
            notes: Seq::empty(),
        }
    }
}

impl BmsData {
    /// An empty chart (initial tempo 130 and gauge total 100, as no
    /// `#BPM` / `#TOTAL` text is held).
    pub fn new() -> (r: BmsData)
        ensures
            r@ == ChartModel::initial(),
    {
        let r = BmsData {
            title: String::new(),
            subtitle: String::new(),
            artist: String::new(),
            genre: String::new(),
            player: 0,
            play_level: String::new(),
            rank: 0,
            total: String::new(),
            base_bpm: String::new(),
            stagefile: String::new(),
            banner: String::new(),
            backbmp: String::new(),
            wav_files: HashMap::new(),
            bmp_files: HashMap::new(),
            bpm_changes: HashMap::new(),
            stop_changes: HashMap::new(),
            notes: Vec::new(),
        };
        proof {
            assert(encode_utf8(Seq::<char>::empty()) =~= Seq::<u8>::empty());
            assert(text_map(Map::<u32, String>::empty()) =~= Map::<u32, Seq<u8>>::empty());
        }
        r
    }
}

} // verus!
