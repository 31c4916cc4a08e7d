//! Sharing files and folders between the instances of a multi-instance
//! application: validation of target names, the options merge, the status
//! snapshot and the plans that bring an instance's tree in line with the
//! configured targets.
//!
//! The library never touches the disk. Every operation takes what was
//! observed of the filesystem as plain values and returns the steps to carry
//! out; its caller performs them.

pub mod bulk;
pub mod config;
pub mod latest;
pub mod laws;
pub mod linking;
pub mod merge_laws;
pub mod model;
pub mod names;
pub mod observe;
pub mod options;
pub mod page;
pub mod plan;
pub mod probes;
pub mod reads;
pub mod reconcile;
pub mod safe_path;
pub mod settle;
pub mod state;
pub mod text;
