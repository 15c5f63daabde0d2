//! Neptune, a package manager for Nelua: manifests and lockfiles, the
//! resolution of dependencies, and what an installation does.
//!
//! The library decides; reading and writing files, running Git and printing
//! are left to the program around it. Where the two take turns, a value of the
//! library says what is to be done next and takes back how it went.
pub mod text;
pub mod sort;
pub mod graph;
pub mod order;
pub mod paths;
pub mod util;
pub mod version;
pub mod manifest;
pub mod lockfile;
pub mod resolver;
pub mod resolution;
pub mod demands;
pub mod install;
pub mod packages;
pub mod emit;
pub mod tree;
pub mod walk;
pub mod fs;
pub mod git;
pub mod doctor;
