//! What is read from the machine, and what is made of it.
pub mod darwin;
pub mod linux;
pub mod owners;
pub mod processes;
pub mod ranking;
pub mod windows;
