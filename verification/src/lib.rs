//! SPICE netlist analysis, formatting and navigation logic.
use vstd::prelude::*;

pub mod diagnostic;
pub mod text;
pub mod classify;
pub mod profile;
pub mod dialect;
pub mod symbols;
pub mod indexer;
pub mod tree;
pub mod subckt;
pub mod analyze;
pub mod hover_token;
pub mod fmt_tokens;
pub mod fmt_emit;
pub mod format;
pub mod includes;
pub mod reference;
pub mod lsp_text;
pub mod navigation;
pub mod hover_text;
pub mod format_idem;
pub mod format_read;
