//! Cyclomatic complexity of the functions and methods in Python source code.
//!
//! A source text is parsed into a syntax tree; every function at module level
//! and every method directly inside a class gets a qualified name and a
//! complexity: one, plus one for each decision construct below its definition.
//! The results of many files are gathered by file path and can be rendered as
//! text.

pub mod analyzer;
pub mod complexity;
pub mod parser;
pub mod pipeline;
pub mod render;
pub mod syntax;
pub mod text;

pub use analyzer::{analyze_source, AnalysisError, AST};
pub use complexity::FunctionCC;
pub use pipeline::{CcResult, FileCcCalculator};
pub use syntax::SyntaxNode;
