//! Verified core of a browser for LilyPond (`.ly`) and ABC (`.abc`) sheet music.

pub mod app;
pub mod digest;
pub mod engraver;
pub mod index;
pub mod lilypond;
pub mod model;
pub mod order;
pub mod path;
pub mod screen;
pub mod text;
pub mod tree;
pub mod worker;
