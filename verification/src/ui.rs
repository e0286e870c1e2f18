//! What the tabs share: formatting, and what they put on the screen.
pub mod format;
pub mod paint;
