pub mod chars;
pub mod order;
pub mod lines;
pub mod token;
pub mod entry;
pub mod distance;
pub mod checker;
