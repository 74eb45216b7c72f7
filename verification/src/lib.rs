//! Disk Prune: the rules of a disk analyzer and cleanup assistant for Ubuntu.

pub mod about;
pub mod blocks;
pub mod classify;
pub mod cleanup;
pub mod colors;
pub mod decimal;
pub mod engine;
pub mod job;
pub mod json;
pub mod large;
pub mod links;
pub mod listing;
pub mod marks;
pub mod measured;
pub mod names;
pub mod nav;
pub mod order;
pub mod panels;
pub mod path;
pub mod plant;
pub mod report;
pub mod rows;
pub mod rules;
pub mod scan;
pub mod scanner;
pub mod screen;
pub mod summary;
pub mod sysdirs;
pub mod text;
pub mod usage;
pub mod util;
pub mod window;
