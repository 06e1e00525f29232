//! Verified core of a console launcher for Source dedicated servers.
//!
//! The launcher loads `dedicated.dll`, redirects the console functions that the module imports from
//! `KERNEL32.dll`, and calls its `DedicatedMain` export. Everything the launcher decides stands in
//! this crate; the system calls themselves are made by the program around it.
pub mod api;
pub mod cases;
pub mod console;
pub mod entries;
pub mod imports;
pub mod install;
pub mod launch;
pub mod laws;
pub mod layout;
pub mod memory;
pub mod names;
pub mod paths;
pub mod reads;
pub mod sites;
pub mod status;
pub mod terminal;
pub mod text;
