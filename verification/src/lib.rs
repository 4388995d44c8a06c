pub mod format;
pub mod ident;
pub mod laws;
pub mod minifier;
pub mod names;
pub mod paths;
pub mod renaming;
pub mod syntax;
pub mod text;
pub mod walk;
pub mod wgsl;
pub mod scoping;
pub mod blocks;
