//! Analysis of Pine Script v6 sources.

pub mod backend;
pub mod builtins;
pub mod check;
pub mod cli;
pub mod document;
pub mod features;
pub mod grammar;
pub mod imports;
pub mod logiclint;
pub mod lsp;
pub mod mcp;
pub mod sorting;
pub mod strings;
pub mod symbols;
pub mod syntax;
pub mod text;
