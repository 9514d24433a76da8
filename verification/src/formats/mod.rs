pub mod lines;
pub mod puzzlefile;
pub mod workfile;
