//! Locating reclaimable build-artifact directories, and the state engine that
//! drives their listing, sorting and removal.

pub mod models;
pub mod scanner;
pub mod actions;
pub mod counter;
pub mod artifacts;
pub mod dispatch;
pub mod config;
pub mod errors;
pub mod humanize;
pub mod measure;
