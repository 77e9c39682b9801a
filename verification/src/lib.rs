//! Lexical path normalization: rewrite a textual file-system path into a
//! canonical equivalent form using string manipulation alone, never touching
//! the file system. A helper resolves a possibly-relative path against a
//! base directory, again without disk access.

pub mod absolute_path;
pub mod cleaning_laws;
pub mod dialect;
pub mod path_clean;

pub use absolute_path::absolute_path;
pub use absolute_path::PathError;
pub use path_clean::clean;
pub use path_clean::clean_unix;
pub use path_clean::clean_windows;
pub use path_clean::PathClean;
