//! The structured error values of the library.
//!
//! Every failure is reported as a typed value carrying the data a caller
//! needs to recover: the offending name, the attempted value, the sets of
//! placeholders involved.

use vstd::prelude::*;

use crate::prompt::PartialPrompt;
use crate::scan::clone_string_vec;
use crate::scan::string_views;

verus! {

/// A partial prompt still has unfilled placeholders, so it cannot be
/// completed yet.
#[derive(Debug)]
pub struct UnfilledPlaceholders {
    /// The placeholders still without a value.
    pub unfilled_placeholders: Vec<String>,
    /// Every placeholder of the underlying template.
    pub all_placeholders: Vec<String>,
}

/// An attempt was made to fill a placeholder that the template does not
/// have.
#[derive(Debug)]
pub struct PlaceholderNotExist {
    /// The name that was not found among the template's placeholders.
    pub try_fill_placeholder: String,
    /// The value the caller tried to record.
    pub value: String,
    /// Every placeholder the template does have.
    pub available_placeholders: Vec<String>,
}

impl PlaceholderNotExist {
    /// Packs up a failed fill attempt, copying the set of valid names for
    /// diagnostics.
    pub fn new(
        try_fill_placeholder: String,
        value: String,
        available_placeholders: &Vec<String>,
    ) -> (r: Self)
        ensures
            r.try_fill_placeholder == try_fill_placeholder,
            r.value == value,
            string_views(r.available_placeholders@) == string_views(available_placeholders@),
    {
        PlaceholderNotExist {
            try_fill_placeholder,
            value,
            available_placeholders: clone_string_vec(available_placeholders),
        }
    }
}

/// Partial prompts handed to a merge do not all come from the same
/// template instance.
#[derive(Debug)]
pub struct DifferentTemplateOrigins {
    /// The partial prompts that were to be merged, returned unchanged.
    pub partial_prompts: Vec<PartialPrompt>,
}

/// During a merge one placeholder held two different values and no
/// conflict resolver was supplied.
#[derive(Debug)]
pub struct MergeConflict {
    /// The placeholder with conflicting values.
    pub placeholder: String,
    /// The value seen first for that placeholder.
    pub value_a: String,
    /// The differing value seen later.
    pub value_b: String,
}

/// The ways a merge of partial prompts can fail.
#[derive(Debug)]
pub enum MergeError {
    /// The input list was empty: nothing to merge.
    NoPartialPrompts,
    /// The inputs come from different template instances.
    DifferentOrigins(DifferentTemplateOrigins),
    /// A placeholder holds two different values and no resolver was given.
    Conflict(MergeConflict),
}

/// A failure reported by a filler: either a rejected write or a failure of
/// the filler's own logic.
#[derive(Debug)]
pub struct FillError {
    /// What went wrong, in words.
    pub message: String,
}

} // verus!
