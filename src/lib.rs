//! A folded view of a text buffer.
//!
//! - `point`: rows and columns, and their arithmetic.
//! - `text_summary`: the summary of a run of text, a monoid under concatenation.
//! - `buffer`: a text with an edit history, anchors that follow edits, and
//!   summaries of ranges.
//! - `sum_tree`: a sequence of transforms with a cached summary, and a cursor
//!   that seeks by a dimension of them.
//! - `fold_map`: the folded view itself: transforms that tile the buffer,
//!   the folds, coordinate translation, and its update after folding,
//!   unfolding or editing.
//! - `pane`: the tab logic of an editor pane.
//! - `support`: sample texts.
use vstd::prelude::*;

pub mod point;
pub mod text_summary;
pub mod buffer;
pub mod sum_tree;
pub mod fold_map;
pub mod pane;
pub mod support;

verus! {

} // verus!
