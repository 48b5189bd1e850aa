//! Finds files with identical content and accounts for the space that
//! their redundant copies occupy.

pub mod duplicates;
pub mod filtering;
pub mod hasher;
pub mod interactive;
pub mod rescan;
pub mod scanner;
pub mod text;
