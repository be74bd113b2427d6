//! Language-server features as functions over a parsed document.

pub mod actions;
pub mod completion;
pub mod diagnostics;
pub mod format;
pub mod hover;
pub mod inlay;
pub mod navigation;
pub mod outline;
pub mod signature;
pub mod tokens;
pub mod words;

pub use self::actions::code_actions;
pub use self::completion::{completions_at, completions_at_cached};
pub use self::diagnostics::{all_diagnostics, semantic_diagnostics, syntax_diagnostics};
pub use self::format::format_document;
pub use self::hover::hover_at;
pub use self::inlay::inlay_hints;
pub use self::navigation::{
    goto_definition, goto_definition_cached, prepare_rename, references, rename,
};
pub use self::outline::{document_symbols, folding_ranges};
pub use self::signature::signature_help;
pub use self::tokens::{semantic_token_legend, semantic_tokens};
