pub mod digits;
pub mod hex_utils;
pub mod text;
