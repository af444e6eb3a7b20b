//! Bumps the patch field of the version declared in a project manifest and
//! rewrites the quoted version wherever it appears in the manifest and its
//! lock file.

pub mod text;
pub mod manifest;
pub mod pattern;
pub mod version;
