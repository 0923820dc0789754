use vstd::prelude::*;

pub mod charseq;
pub mod diagnostics;
pub mod diff;
pub mod document;
pub mod edit;
pub mod edit_path;
pub mod edit_doc;
pub mod event;
pub mod ffi;
pub mod ffi_query;
pub mod format;
pub mod format_spec;
pub mod hover;
pub mod lexer;
pub mod lexer_scan;
pub mod lexer_spec;
pub mod lexer_spans;
pub mod node;
pub mod parser;
pub mod parser_tokens;
pub mod pattern;
pub mod pretty;
pub mod resolve;
pub mod resolve_spec;
pub mod schema;
pub mod schema_compile;
pub mod schema_json;
pub mod schema_validate;
pub mod pattern_spec;
pub mod serde_error;
pub mod span;
pub mod stream;
pub mod text;
pub mod tree_diff;
pub mod version;

verus! {

} // verus!
