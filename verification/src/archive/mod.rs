pub mod tar;
pub mod puzzle;
pub mod listing;
pub mod layout;
pub mod image;
