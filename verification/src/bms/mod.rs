//! BMS (Be-Music Script) text: UTF-8 helpers, the data model, the parser,
//! timing order and the song list.

pub mod text;
pub mod numbers;
pub mod model;
pub mod parser;
pub mod timing;
pub mod library;

pub use library::SongEntry;
pub use model::{BmsData, ObjId};
