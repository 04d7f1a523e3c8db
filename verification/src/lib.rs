//! A prompt-templating library.
//!
//! A prompt template is a piece of text with named placeholders written as
//! `{[name]}`. A template is compiled into a [`prompt::PromptTemplate`],
//! which hands out [`prompt::PartialPrompt`] values that track which
//! placeholders have been filled. Once every placeholder is filled, a
//! partial prompt can be completed into the final text. A
//! [`token::PromptTokenCountCache`] answers speculative token-count
//! questions about a partial prompt without re-counting the whole text.

pub mod errors;
pub mod filler;
pub mod merge;
pub mod metadata;
pub mod prompt;
pub mod scan;
pub mod token;
