//! Rewriting of fully qualified Rust paths: the path model, the rename
//! request, the flattening and rebuilding of `use` trees, the decisions taken
//! for every path of a source file, and the line summary of a rewrite.

pub mod file;
pub mod path;
pub mod rebuild;
pub mod rename;
pub mod report;
pub mod rewriter;
pub mod text;
pub mod use_tree;

pub use file::{FileOutcome, FileResult};
pub use path::RustPath;
pub use rename::{Rename, RenameKind};
pub use report::Summary;
pub use rewriter::{Rewriter, Warning};
