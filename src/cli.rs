//! The commands a user can give, as plain values.
use vstd::prelude::*;

verus! {

/// The parsed command line: a verbosity level and one command.
#[derive(Debug)]
pub struct CliArguments {
    /// Verbose mode: 0 errors only, then warnings, information, debugging.
    pub verbose: u8,
    pub cmd: SubCommand,
}

/// The commands.
#[derive(Debug)]
#[allow(inconsistent_fields)]
pub enum SubCommand {
    /// Add repositories to the inventory.
    Add { repos: Vec<String> },
    /// Remove repositories from the inventory; they are found again inside a watched directory.
    Remove { repos: Vec<String> },
    /// Watch directories for repositories, down to `MAX_DEPTH` levels.
    Watch { directories: Vec<String> },
    /// Stop watching directories and forget the repositories found in them.
    Unwatch { directories: Vec<String> },
    /// Ignore directories, also inside watched ones.
    Ignore { directories: Vec<String> },
    /// Show the inventory.
    Info,
    /// Fetch, check stashes and local changes, and fast-forward where possible.
    Update { all: bool, not_parallel: bool, threads: Option<usize> },
    /// Check stashes, local changes and unpushed commits, without fetching.
    Check { all: bool, not_parallel: bool, threads: Option<usize> },
    /// Manage keys.
    Keys { cmd: KeysCmd },
    /// Manage hooks.
    Hooks { cmd: HooksCmd },
}

/// The key commands.
#[derive(Debug)]
pub enum KeysCmd {
    /// Add a key under a name, by the path of its private key.
    Add { name: String, path: String },
    /// List the known keys.
    List,
    /// Remove a key by name.
    Remove { name: String },
}

/// The hook commands.
#[derive(Debug)]
pub enum HooksCmd {
    /// Set the command run after a repository was updated.
    Add { repo_path: String, command: String },
    /// List the hooks.
    List,
    /// Remove the hook of a repository.
    Remove { repo_path: String },
}

/// What the caller does after a key or hook command succeeded.
#[derive(Clone, Copy, Debug, PartialEq, Eq, Structural)]
pub enum Follow {
    /// The inventory changed and is to be written back.
    Save,
    /// Nothing changed; the caller shows the list.
    List,
}

} // verus!
