//! Lexical path resolution for a template-style expression compiler.
//!
//! A reference such as `a.b.c`, `../x` or `./y` is parsed upstream into a
//! sequence of [`PathPart`] segments; [`resolve`] turns such a relative
//! sequence, together with the path of the currently open nesting context,
//! into an absolute path that an evaluator can look up directly.

pub mod segment;
pub mod resolve;
pub mod text;

pub use segment::Path;
pub use segment::PathBuf;
pub use segment::PathPart;
pub use resolve::resolve;
