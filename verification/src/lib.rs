//! A PDF object model, content-stream codec, document writer and the
//! byte-level helpers of a PDF editor, with their behaviour stated and
//! proved.

pub mod lexer;
pub mod numfmt;
pub mod object;
pub mod version;
pub mod stdtext;
pub mod syntax;
pub mod serialize;
pub mod content_stream;
pub mod audit;
pub mod icc;
pub mod info;
pub mod writer;
pub mod types;
pub mod page;
pub mod document;
pub mod util;
pub mod operator;
pub mod annotations;
pub mod pdfa;
pub mod pdfua;
pub mod pdfx;
pub mod structure;
pub mod refs;
pub mod redact;
pub mod forms;
pub mod roundtrip;
pub mod graph;
pub mod pages;
pub mod save;
pub mod outline;
pub mod content_ops;
pub mod pdfa_fix;
pub mod form_create;
pub mod output_intent;
pub mod font_use;
pub mod text_extract;
pub mod text_redact;
pub mod ink;
pub mod flatten;
pub mod markup;
