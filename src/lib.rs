//! Reading, shuffling and writing M3U playlists.
pub mod playlist;
pub mod laws;
pub mod text;

pub use playlist::{M3U, ParseError, Track};
