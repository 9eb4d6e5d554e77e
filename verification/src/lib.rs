//! A filesystem-agnostic kexec boot menu.

pub mod boot;
pub mod devices;
pub mod discover;
pub mod display;
pub mod json;
pub mod kexec;
pub mod keys;
pub mod menu;
pub mod mount;
pub mod outcome;
pub mod path;
pub mod reach;
pub mod render;
pub mod response;
pub mod screen;
pub mod select;
pub mod session;
pub mod sort;
pub mod sources;
pub mod steps;
pub mod text;
pub mod tree;
pub mod treeview;
pub mod types;
