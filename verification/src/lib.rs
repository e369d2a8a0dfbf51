//! Text lists, pen state, ruler, shape and window frame logic of a note taking application.

pub mod attrs;
pub mod body;
pub mod brush;
pub mod bytes;
pub mod edit;
pub mod frame;
pub mod grapheme;
pub mod hanging;
pub mod keys;
pub mod levels;
pub mod lists;
pub mod look;
pub mod marker;
pub mod numbering;
pub mod outline;
pub mod plain;
pub mod reading;
pub mod reflow;
pub mod renumber;
pub mod ruler;
pub mod shapes;
pub mod softbreak;
pub mod syntax;
pub mod typing;
pub mod whitespace;
