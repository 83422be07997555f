//! A verified core for mirroring a directory tree behind a sentinel file.
//!
//! A producer fills a source directory and writes a sentinel file last. This
//! library decides when the target directory has to be rebuilt, in which
//! order the filesystem steps run, and how change notifications are answered.
//! It performs no input or output itself: the caller observes the two
//! directories, hands the observations in as plain values, and carries out
//! the steps that come back.
//!
//! - [`sentinel`] draws the verdict from the two sentinel files.
//! - [`plan`] turns directory listings into the steps of a cleanup or a rebuild.
//! - [`event`] answers change notifications and keeps the dispatcher's state.
//! - [`startup`] holds the checks made before anything is watched.
//! - [`model`] says what a directory tree is and what each step does to it.
//! - [`theorems`] proves what the plans achieve on that model.
//! - [`tree`] is a directory tree in memory on which plans can be run.
//! - [`reconcile`] populates and cleans such trees.
//! - [`path`] and [`bytes`] hold relative paths and byte strings.
pub mod bytes;
pub mod event;
pub mod model;
pub mod path;
pub mod plan;
pub mod reconcile;
pub mod sentinel;
pub mod startup;
pub mod theorems;
pub mod tree;
