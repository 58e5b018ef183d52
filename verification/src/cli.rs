//! The command-line surface, as plain data: global options and the
//! three subcommands.

use vstd::prelude::*;

verus! {

/// Global options and the selected subcommand.
pub struct Cli {
    /// Path of the configuration file.
    pub config: Option<String>,
    /// Directory holding the per-year data files.
    pub data_dir: Option<String>,
    pub command: Commands,
}

/// The operations the tracker offers.
pub enum Commands {
    /// Write a fresh configuration.
    Init(Init),
    /// Fetch the current status and merge it into this year's table.
    Update,
    /// Print the attendance summary of one year.
    Print(Print),
}

/// Arguments of the initialization command.
pub struct Init {
    /// Access key for the status source.
    pub access_key: String,
}

/// Arguments of the report command.
pub struct Print {
    /// The year to report on; the current year when absent.
    pub year: Option<i32>,
}

} // verus!
