pub mod action;
pub mod list;
pub mod masks;
pub mod movelist;
pub mod makemove;
pub mod movegen;
pub mod magic;
pub mod legality;
