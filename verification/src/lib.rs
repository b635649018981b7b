//! Planning and checking logic of a small PDF toolbox: command-line
//! parsing, page selection, output naming, save-path resolution and the
//! plan of a document merge. The outside work (reading and writing files,
//! rendering pages, the window toolkit) is done by the program around
//! this library.

pub mod args;
pub mod assembly;
pub mod command;
pub mod ids;
pub mod merge;
pub mod naming;
pub mod pages;
pub mod number;
pub mod pdf;
pub mod saving;
pub mod text;
pub mod tree;
pub mod ui;
