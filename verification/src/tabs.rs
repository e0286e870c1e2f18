//! The tabs, each as what it puts on the screen.
pub mod hot;
pub mod insights;
