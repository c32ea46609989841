//! Cross-file dependency graphs for source trees.
//!
//! The crate turns a directory tree and the text of its source files into a
//! graph of "file imports file" edges for JavaScript/TypeScript, Python, Rust
//! and C/C++, and expands the graph through Python package initialisers.
//! Everything here computes on plain values; reading directories and files is
//! left to the caller.

pub mod analyze;
pub mod assets;
pub mod expand;
pub mod extract;
pub mod graph;
pub mod lang;
pub mod listing;
pub mod models;
pub mod natural;
pub mod order;
pub mod path;
pub mod resolve;
pub mod syntax;
pub mod text;
pub mod tree;

pub use analyze::{analyze_dependencies, dependency_report};
pub use expand::{collect_transitive_init_deps, expand_init_dependencies};
pub use graph::DependencyGraph;
pub use models::{validate_path, DirectoryQuery, FileResult, FilesRequest};
pub use resolve::{process_python_module, resolve, resolve_relative_path, Disk, SourceFile};
pub use tree::{TreeEntry, TreeNode};
