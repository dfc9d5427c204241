//! Printing a directory as a tree.
//!
//! The crate holds the rules of the printer and leaves the file system
//! to its caller: `ignore` reads and applies ignore patterns, `entry`
//! decides which entries of a listing are shown, `render` draws the
//! lines, and `walker` is the traversal itself, as a state machine that
//! is fed one listing at a time. `tree` describes a directory tree as a
//! mathematical value; `walk` proves that a walker that is answered from
//! such a tree prints exactly the lines that `render` gives for it, and
//! `asks` that it lists exactly the directories that are shown. `cli`
//! reads the two switches of the command line, and `text` holds the
//! helpers on strings that the others share.

pub mod asks;
pub mod cli;
pub mod entry;
pub mod ignore;
pub mod render;
pub mod text;
pub mod tree;
pub mod walk;
pub mod walker;
