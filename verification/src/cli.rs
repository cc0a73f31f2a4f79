//! The command line: which routine to run, and whether only to report.
use vstd::prelude::*;

verus! {

/// The subcommands.
pub enum Commands {
    /// Download and prune podcast episodes from configured feeds.
    Prepare { dry_run: bool },
    /// Mirror the local content onto the iPod.
    Sync { dry_run: bool },
}

/// A parsed command line.
pub struct Cli {
    pub command: Commands,
}

/// The routines a command line can start.
#[derive(PartialEq, Eq, Structural, Debug, Clone, Copy)]
pub enum Routine {
    Prepare,
    Sync,
}

/// The routine that the command line asks for, and whether it is a dry run.
pub fn run(cli: &Cli) -> (r: (Routine, bool))
    ensures
        match cli.command {
            Commands::Prepare { dry_run } => r == (Routine::Prepare, dry_run),
            Commands::Sync { dry_run } => r == (Routine::Sync, dry_run),
        },
{
    match &cli.command {
        Commands::Prepare { dry_run } => (Routine::Prepare, *dry_run),
        Commands::Sync { dry_run } => (Routine::Sync, *dry_run),
    }
}

} // verus!
