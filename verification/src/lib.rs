//! A to-do list store: an ordered list of numbered items, the commands that
//! change it, and the line-oriented text form in which it is kept on disk.

pub mod codec;
pub mod item;
pub mod laws;
pub mod number;
pub mod show;
pub mod store;
pub mod text;
