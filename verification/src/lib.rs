//! The reference-aware commit graph of a rebase editor.
use vstd::prelude::*;

pub mod commits;
pub mod store;
pub mod positions;
pub mod reach;
pub mod traverse;
pub mod editor;

verus! {
} // verus!
