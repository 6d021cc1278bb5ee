//! A command for the external tool: what to run, where, and with which environment.
//! Running it is left to the caller; only the description lives here.
use std::collections::HashMap;
use vstd::prelude::*;

verus! {

/// A shell command, the directory it runs in, and the environment it sees.
pub struct Cmd {
    pub cwd: Option<String>,
    pub env: HashMap<String, String>,
    pub command: String,
}

impl Cmd {
    /// A command with no working directory and an empty environment.
    pub fn new(command: String) -> (r: Cmd)
        ensures
            r.command == command,
            r.cwd.is_none(),
            r.env@ == Map::<String, String>::empty(),
    {
        Cmd { command, env: HashMap::new(), cwd: None }
    }

    /// The same command, run in `dir`.
    pub fn cwd(self, dir: String) -> (r: Cmd)
        ensures
            r.cwd == Some(dir),
            r.command == self.command,
            r.env == self.env,
    {
        Cmd { cwd: Some(dir), ..self }
    }

    /// The same command, run with the environment `env`.
    pub fn env(self, env: HashMap<String, String>) -> (r: Cmd)
        ensures
            r.env == env,
            r.command == self.command,
            r.cwd == self.cwd,
    {
        Cmd { env, ..self }
    }
}

} // verus!
