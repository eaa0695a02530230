//! What the user asks of the tool.

use vstd::prelude::*;

verus! {

/// What to do with the layout.
#[derive(Debug, Clone, Copy, PartialEq, Eq, Structural)]
pub enum Command {
    /// Bring the desktop to the saved layout. This is done where nothing else is asked.
    Restore,
    /// Write out the layout that is on the desktop now.
    Save,
}

/// How much of its doings the tool reports.
#[derive(Debug, Clone, Copy, PartialEq, Eq, Structural)]
pub enum LogLevel {
    Off,
    Error,
    Warn,
    Info,
    Debug,
    Trace,
}

/// The arguments of one run.
#[derive(Debug)]
pub struct Args {
    pub log_level: LogLevel,
    /// The path of the layout file.
    pub path: String,
    /// The command as the user gave it, if any.
    pub command: Option<Command>,
}

impl Args {
    /// The arguments of a run.
    pub fn new(log_level: LogLevel, path: String, command: Option<Command>) -> (args: Args)
        ensures
            args.log_level == log_level,
            args.path == path,
            args.command == command,
    {
        Args { log_level, path, command }
    }

    /// The command to carry out: the one given, or `Restore` where none is.
    pub fn command(&self) -> (command: Command)
        ensures
            command == match self.command {
                Some(given) => given,
                None => Command::Restore,
            },
    {
        match self.command {
            Some(given) => given,
            None => Command::Restore,
        }
    }
}

} // verus!
