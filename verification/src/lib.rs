use vstd::prelude::*;

pub mod brackets;
pub mod buffer_registry;
pub mod completion;
pub mod cursor;
pub mod diff;
pub mod ex_mode;
pub mod git_status;
pub mod github;
pub mod hunk;
pub mod input;
pub mod key_map;
pub mod modes;
pub mod order;
pub mod popup;
pub mod positions;
pub mod pickers;
pub mod records;
pub mod repeat;
pub mod rg;
pub mod search_select;
pub mod select_block;
pub mod sed;
pub mod status_line;
pub mod tags;
pub mod text;
pub mod truncate;
pub mod view;
pub mod words;

verus! {

} // verus!
