//! Translation: converts an outline into output strings or commands.
use vstd::prelude::*;

use crate::model::stroke::Stroke;

verus! {

/// The result of translating an outline.
#[derive(Debug, Clone, PartialEq, Eq, Hash)]
pub struct Translation {
    pub translated: String,
}

/// Translates outlines. Dictionaries are not consulted yet: every outline translates to the
/// placeholder text `dummy`.
#[derive(Debug, Clone)]
pub struct Translator {}

impl Translator {
    pub fn new() -> (res: Self) {
        Self {}
    }

    /// Translates an outline: always the placeholder text `dummy`.
    pub fn translate(&mut self, _outline: &[Stroke]) -> (res: Translation)
        ensures
            res.translated@ == seq!['d', 'u', 'm', 'm', 'y'],
    {
        proof {
            reveal_strlit("dummy");
        }
        Translation { translated: String::from_str("dummy") }
    }
}

} // verus!
