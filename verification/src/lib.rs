//! Engine for a four-column stacking game: packed boards, piece movement with
//! wall kicks, placement search and perfect-clear enumeration.

pub mod bits;
pub mod board;
pub mod common;
pub mod environment;
pub mod file;
pub mod finesse;
pub mod fum;
pub mod history;
pub mod input;
pub mod pc;
pub mod pcfile;
pub mod piece;
pub mod placement;
pub mod planner;
pub mod queue;
pub mod randomizer;
pub mod ren;
pub mod repl;
pub mod shortlex;
pub mod text;
