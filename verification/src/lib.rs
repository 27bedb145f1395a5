//! A Vue single-file-component scanner: block splitting, start-tag
//! scanning, attribute and directive parsing, and template tokenisation.

pub mod span;
pub mod text;
pub mod sfc;
pub mod scanner;
pub mod ast;
pub mod template;
pub mod attr;
pub mod oxc;
pub mod json;
pub mod tokens;
pub mod scan;
pub mod emit;
pub mod driver;
pub mod tags;
pub mod layout;
pub mod toolkit;
pub mod bounds;
pub mod vfor;
pub mod codegen;
pub mod source_text;
pub mod transform;
pub mod expression;
