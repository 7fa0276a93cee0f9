//! Route-pattern compilation and request-path matching.
//!
//! A route pattern such as `/users/:id/files/*rest` is compiled into its
//! segments: literals, named parameters and, at the end, an optional
//! wildcard. Compiled routes are inserted into a tree, and a request path is
//! then matched against the tree: the path is cut into percent-decoded
//! segments, and among the routes that match, the one is chosen that prefers
//! a literal to a parameter and a parameter to a wildcard at the first place
//! where the routes differ.
//!
//! Patterns, paths and captured values are byte strings; where text is
//! accepted, it is read as its UTF-8 bytes.

pub mod bytes;
pub mod compiler;
pub mod error;
pub mod laws;
pub mod matcher;
mod node;
pub mod path;
pub mod pattern;
mod search;
pub mod segment;
pub mod tree;

pub use compiler::{compile_bytes, compile_path, CompiledRoute};
pub use error::CompileError;
pub use matcher::{match_bytes, match_path, MatchResult};
pub use path::TrailingSlash;
pub use segment::{Constraint, SegmentDescriptor};
pub use tree::RouterTree;
