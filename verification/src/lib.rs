//! pathtrim - keep only the last few components of a filesystem path.
//!
//! A path is modeled as an ordered sequence of components: a root marker
//! (`/` on Unix-style paths, a drive prefix such as `C:` on Windows-style
//! paths), the current-directory reference `.`, the parent-directory
//! reference `..`, or a named segment. The one operation, trimming a path
//! to its last `n` components, is specified and proved over that model.

pub mod laws;
pub mod model;
pub mod parse;
pub mod path;
pub mod render;

pub use model::AbsComponent;
pub use model::PathStyle;
pub use path::Component;
pub use path::ParsedPath;
pub use path::TrimmablePath;
