//! The commands the tool takes.

use vstd::prelude::*;

verus! {

/// A command of the tool.
#[derive(Debug)]
pub enum Commands {
    /// Create a device from the JSON description at `path`.
    Create { path: String },
    /// List every device, as the filesystem holds it.
    List {},
    /// Remove the device called `name`.
    Remove { name: String },
}

/// The tool's arguments.
#[derive(Debug)]
pub struct Args {
    /// More verbose logging.
    pub verbose: bool,
    /// Directory where configfs is mounted.
    pub configfs_path: String,
    pub command: Option<Commands>,
}

} // verus!
