//! Chained-hash time-lock puzzles: the hash chains that make up the work,
//! the puzzles derived from them, their text formats, and the tar archive
//! layout that stores a puzzle next to encrypted payloads.

pub mod types;
pub mod hash;
pub mod puzzle;
pub mod utils;
pub mod formats;
pub mod time;
pub mod select;
pub mod archive;
pub mod work;
pub mod keys;
