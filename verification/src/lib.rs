//! Chart parsing and game rules for a BMS rhythm game.

use vstd::prelude::*;

pub mod bms;
pub mod channels;
pub mod game;
pub mod sorting;

verus! {

} // verus!
