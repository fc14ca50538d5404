//! Editor completion core: an LSP-style snippet template parser and the
//! state machine of an incrementally filtered code-completion list.

pub mod completion;
pub mod snippet;
