//! What holds of the library as a whole.
pub mod collect;
pub mod doubles;
pub mod paths;
pub mod screen;
pub mod tables;
pub mod tabs;
pub mod text;
