//! Game rules: the song list cursor, judgments and combo, and grades.

pub mod play;
pub mod resources;
pub mod song_select;
pub mod loading;
pub mod texts;

pub use song_select::SongLibrary;
