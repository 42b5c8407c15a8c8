//! A Leitner-box flashcard trainer: entries live in five ranked boxes, move
//! forward when recalled and backward when not, and are picked for a question by a
//! weighted draw that favours the lower boxes.

pub mod boxes;
pub mod entry;
pub mod files;
pub mod model;
pub mod text;
