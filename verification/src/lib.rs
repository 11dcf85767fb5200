//! Core of a local prompt-assembly tool: a configuration store that
//! normalizes a hierarchical key/value document of category sections,
//! choice lists and selection state, and a history store that keeps an
//! append-only log of produced prompts with rotation into dated archives.
//!
//! All persistence and networking lives outside this crate; the functions
//! here are pure state transitions over the in-memory models.
use vstd::prelude::*;

pub mod clock;
pub mod config;
pub mod doc;
pub mod history;
pub mod html;
pub mod main_ui_html;
pub mod renderer;
pub mod text;
pub mod ui;

verus! {

/// The reserved "no selection" sentinel that heads every choice list.
pub open spec fn no_selection_view() -> Seq<char> {
    "指定なし"@
}

/// Returns the reserved "no selection" sentinel string.
pub fn no_selection() -> (r: &'static str)
    ensures
        r@ == no_selection_view(),
{
    "指定なし"
}

} // verus!
