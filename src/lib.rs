//! Extraction of `#define` macro definitions from C header text, and
//! translation of simple macros into typed Rust constant declarations.

pub mod cursor;
mod text;
pub mod lines;
pub mod macros;
pub mod translate;

pub use macros::{CMacro, MacroView, ParseError, ParseErrorView, extract_macros};
pub use translate::{
    ConstDecl,
    TranslateAction,
    guess_type,
    translate_macro,
    render_actions,
    generate_rust_src,
};
