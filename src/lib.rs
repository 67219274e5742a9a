//! A registry of tool plugins loaded from shared libraries: which file each
//! tool came from, when that file was last modified, and which of them are
//! current.

pub mod platform;
pub mod registry;
mod text;

pub use platform::{is_shared_library, Platform};
pub use registry::{LoadStep, LoadedLibrary, ToolRegistry, ToolSpec};
