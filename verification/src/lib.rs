//! A small framework for hierarchical command-line tools: a tree of named
//! sub-commands, each level owning its own option set, plus a table engine
//! that accumulates typed rows and renders them with column filtering,
//! multi-key sorting, and unit-aware value humanization.

pub mod humanize;
pub mod level;
pub mod opts;
pub mod table;
pub mod text;

pub use crate::level::{
    Arguments, CmdError, CommandInfo, Level, LevelContext, OptionPair, Outcome, Selection,
};

use vstd::prelude::*;

verus! {

} // verus!
