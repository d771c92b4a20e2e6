//! The selection handler: the single-shot decision taken when the user
//! picks an entry.

use vstd::prelude::*;

use crate::project::MatchEntry;

verus! {

/// What the host should do with a selection: copy text to its output
/// sink and close, or just close.
pub enum Action {
    Copy(String),
    Close,
}

/// An entry that carries display text is copied; one without (its price
/// was unavailable) closes with no side effect.
pub fn handle(selected: MatchEntry) -> (a: Action)
    ensures
        a == match selected.display_text {
            Some(d) => Action::Copy(d),
            None => Action::Close,
        },
{
    match selected.display_text {
        Some(d) => Action::Copy(d),
        None => Action::Close,
    }
}

} // verus!
