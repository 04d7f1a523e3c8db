//! The filler capability: anything that fills placeholders of a partial
//! prompt.
//!
//! A filler declares up front which placeholder names it intends to fill,
//! so a pipeline can validate them against a template before running.
//! Its fill operation mutates a partial prompt and either succeeds or
//! reports a [`FillError`]. The `With` variants additionally thread a
//! caller-supplied context value through a pipeline of fillers; the
//! plain variants are the special case of an empty context.

use vstd::prelude::*;

use crate::errors::FillError;
use crate::prompt::PartialPrompt;

verus! {

/// Declares the placeholders a filler intends to fill.
pub trait FillPlaceholders {
    /// The placeholder names this filler writes.
    fn placeholders_to_fill(&self) -> &Vec<String>;
}

/// Fills placeholders of a partial prompt.
pub trait Fill: FillPlaceholders {
    /// Writes zero or more of the declared placeholders.
    fn fill(&self, partial_prompt: &mut PartialPrompt) -> Result<(), FillError>;
}

/// Fills placeholders of a partial prompt, mutating the filler.
pub trait FillMut: FillPlaceholders {
    /// Writes zero or more of the declared placeholders.
    fn fill_mut(&mut self, partial_prompt: &mut PartialPrompt) -> Result<(), FillError>;
}

/// Fills placeholders of a partial prompt, threading a context value to
/// the next filler in a pipeline.
pub trait FillWith<CTX>: FillPlaceholders {
    /// Writes zero or more of the declared placeholders and hands a
    /// possibly transformed context on.
    fn fill_with(&self, partial_prompt: &mut PartialPrompt, context: CTX) -> Result<
        CTX,
        FillError,
    >;
}

/// Fills placeholders of a partial prompt, mutating the filler and
/// threading a context value.
pub trait FillWithMut<CTX>: FillPlaceholders {
    /// Writes zero or more of the declared placeholders and hands a
    /// possibly transformed context on.
    fn fill_with_mut(&mut self, partial_prompt: &mut PartialPrompt, context: CTX) -> Result<
        CTX,
        FillError,
    >;
}

impl<T: FillWith<()>> Fill for T {
    /// A context-free fill is a fill with the empty context.
    fn fill(&self, partial_prompt: &mut PartialPrompt) -> Result<(), FillError> {
        match self.fill_with(partial_prompt, ()) {
            Ok(u) => Ok(u),
            Err(e) => Err(e),
        }
    }
}

impl<T: FillWithMut<()>> FillMut for T {
    /// A context-free fill is a fill with the empty context.
    fn fill_mut(&mut self, partial_prompt: &mut PartialPrompt) -> Result<(), FillError> {
        match self.fill_with_mut(partial_prompt, ()) {
            Ok(u) => Ok(u),
            Err(e) => Err(e),
        }
    }
}

} // verus!
