//! Stack-trace aggregation and flame-graph layout for heap-allocation profiles.
//!
//! A profile is a set of record tables (`trace`). From them the crate
//! reconstructs call chains (`callpath`), merges the chains by call site into
//! the top-down tree (`topdown`), writes and reads collapsed-stack lines
//! (`collapsed`), folds weighted chains into a flame graph (`flame`), lays the
//! graph out as rectangles (`layout`) in fixed colours (`color`), and keeps
//! the state of the flame graph on the screen (`flamegraph`, `page`). Beside
//! that it ranks the places of allocation (`overview`, `ranking`) and picks
//! the source lines to show for a node (`codeview`).
//!
//! Both trees are kept in one table each (`arena`); what they hold is stated
//! over the paths of their nodes (`trie`). Weights and coordinates are whole
//! numbers throughout.

pub mod trace;
pub mod callpath;
pub mod trie;
pub mod arena;
pub mod topdown;
pub mod collapsed;
pub mod flame;
pub mod layout;
pub mod color;
pub mod flamegraph;
pub mod page;
pub mod codeview;
pub mod overview;
pub mod ranking;
