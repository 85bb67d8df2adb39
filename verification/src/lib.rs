//! A workstation utility library for cleaning build-artifact directories
//! (`bin`, `obj`) and NuGet package caches beneath a project root, with a
//! source-control guard that shelves uncommitted changes around the run.
//!
//! The cleaning algorithm and the guard's decisions are verified over an
//! in-memory model of the directory tree; the thin I/O shell that walks the
//! real filesystem and spawns the source-control tool lives outside this
//! library.

pub mod bytes;
pub mod cleaner;
pub mod fs_model;
pub mod git;
