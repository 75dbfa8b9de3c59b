//! BMS channel numbers and the mapping from player channels to lanes.

use vstd::prelude::*;

verus! {

/// Number of player lanes: scratch and seven keys.
pub const NUM_LANES: usize = 8;

pub const CHANNEL_BGM: u32 = 0x01;
pub const CHANNEL_BPM_CHANGE: u32 = 0x03;
pub const CHANNEL_BGA_BASE: u32 = 0x04;
pub const CHANNEL_BGA_MISS: u32 = 0x06;
pub const CHANNEL_BGA_LAYER: u32 = 0x07;
pub const CHANNEL_BPM_CHANGE_EXT: u32 = 0x08;
pub const CHANNEL_STOP: u32 = 0x09;

/// The lane that a channel's objects fall in, left to right:
/// scratch (0x19) is lane 0, keys 1-5 (0x11-0x15) are lanes 1-5,
/// key 6 (0x16) is lane 6 and key 7 (0x18) is lane 7.
pub open spec fn spec_lane_for_channel(ch: u32) -> Option<usize> {
    if ch == 0x19 {
        Some(0)
    } else if 0x11 <= ch <= 0x16 {
        Some((ch - 0x10) as usize)
    } else if ch == 0x18 {
        Some(7)
    } else {
        None
    }
}

/// Lane index of a player channel; `None` for channels that place no
/// player note (background music, BGA, tempo, the free zone 0x1C-0x1F ...).
pub fn lane_for_channel(ch: u32) -> (r: Option<usize>)
    ensures
        r == spec_lane_for_channel(ch),
{
    match ch {
        0x11 => Some(1),
        0x12 => Some(2),
        0x13 => Some(3),
        0x14 => Some(4),
        0x15 => Some(5),
        0x16 => Some(6),
        0x18 => Some(7),
        0x19 => Some(0),
        _ => None,
    }
}


/// The lanes run left to right: scratch (0x19) is lane 0, keys 1 to 6
/// (0x11 to 0x16) are lanes 1 to 6 in key order, key 7 (0x18) is lane 7,
/// and no other channel has a lane.
pub proof fn lemma_lane_order(ch: u32)
    ensures
        spec_lane_for_channel(0x19) == Some(0usize),
        spec_lane_for_channel(0x11) == Some(1usize),
        spec_lane_for_channel(0x12) == Some(2usize),
        spec_lane_for_channel(0x13) == Some(3usize),
        spec_lane_for_channel(0x14) == Some(4usize),
        spec_lane_for_channel(0x15) == Some(5usize),
        spec_lane_for_channel(0x16) == Some(6usize),
        spec_lane_for_channel(0x18) == Some(7usize),
        !(0x11 <= ch <= 0x16 || ch == 0x18 || ch == 0x19) ==> spec_lane_for_channel(ch) is None,
{
}

/// Higher key numbers lie further right: among keys 1 to 6 (0x11 to 0x16)
/// a higher channel has a higher lane.
pub proof fn lemma_lanes_increase(a: u32, b: u32)
    requires
        0x11 <= a < b <= 0x16,
    ensures
        spec_lane_for_channel(a) matches Some(la) && spec_lane_for_channel(b) matches Some(lb)
            && la < lb,
{
}

/// Each lane belongs to one channel, and every lane is one of the
/// `NUM_LANES` lanes.
pub proof fn lemma_lanes_distinct(a: u32, b: u32)
    ensures
        spec_lane_for_channel(a) matches Some(l) ==> l < NUM_LANES,
        spec_lane_for_channel(a) is Some && spec_lane_for_channel(a) == spec_lane_for_channel(b) ==> a
            == b,
{
}

} // verus!
