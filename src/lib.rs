//! One-way recursive directory diff: the paths present under a source tree
//! and absent under a target tree.

pub mod index;
pub mod engine;
pub mod walk;
