//! The user's configuration: watched and ignored paths, single repositories, keys
//! and hooks. Paths may start with `~`, which stands for the home directory.
use vstd::prelude::*;
use crate::discovery::path_views;

verus! {

/// `s` with a leading `~` that stands alone or before a `/` replaced by `home`.
pub open spec fn tilde_expanded(s: Seq<char>, home: Seq<char>) -> Seq<char> {
    if s.len() > 0 && s[0] == '~' && (s.len() == 1 || s[1] == '/') {
        home + s.subrange(1, s.len() as int)
    } else {
        s
    }
}

/// `s` expanded against the home directory, when it is known.
pub open spec fn expanded(s: Seq<char>, home: Option<String>) -> Seq<char> {
    match home {
        Some(h) => tilde_expanded(s, h@),
        None => s,
    }
}

/// Relies on shellexpand::tilde_with_context (Unix): a leading `~` followed by `/`
/// or by nothing is replaced by the home directory that the context gives; with no
/// home directory, or any other text, the input comes back unchanged.
#[verifier::external_body]
fn expand_home(path: &str, home: &Option<String>) -> (r: String)
    ensures
        r@ == expanded(path@, *home),
{
    shellexpand::tilde_with_context(path, || home.as_ref()).into_owned()
}

/// Every path of `paths`, expanded.
fn expand_all(paths: &Vec<String>, home: &Option<String>) -> (r: Vec<String>)
    ensures
        path_views(r@) == path_views(paths@).map_values(|p: Seq<char>| expanded(p, *home)),
{
    let mut r: Vec<String> = Vec::new();
    let mut k: usize = 0;
    while k < paths.len()
        invariant
            k <= paths@.len(),
            path_views(r@) == path_views(paths@.subrange(0, k as int)).map_values(
                |p: Seq<char>| expanded(p, *home),
            ),
        decreases paths@.len() - k,
    {
        let ghost before = r@;
        let e = expand_home(paths[k].as_str(), home);
        r.push(e);
        assert(path_views(r@) =~= path_views(paths@.subrange(0, k + 1)).map_values(
            |p: Seq<char>| expanded(p, *home),
        )) by {
            assert(path_views(r@) =~= path_views(before).push(e@));
        }
        k = k + 1;
    }
    assert(paths@.subrange(0, k as int) =~= paths@);
    r
}

/// The default for whether a configured key may be missing.
pub fn true_value() -> (r: bool)
    ensures
        r,
{
    true
}

/// A configured private key.
#[derive(Debug)]
pub struct SshKey {
    /// The name of the key.
    pub name: String,
    /// The path to the private key, possibly starting with `~`.
    pub path: String,
    /// Whether the key may be missing.
    pub optional: bool,
}

impl SshKey {
    /// The path to the private key, expanded.
    pub fn path(&self, home: &Option<String>) -> (r: String)
        ensures
            r@ == expanded(self.path@, *home),
    {
        expand_home(self.path.as_str(), home)
    }
}

/// A configured command to run after a repository was updated.
#[derive(Debug)]
pub struct Hook {
    /// The path of the repository, possibly starting with `~`.
    pub path: String,
    pub command: String,
}

impl Hook {
    /// The path of the repository, expanded.
    pub fn path(&self, home: &Option<String>) -> (r: String)
        ensures
            r@ == expanded(self.path@, *home),
    {
        expand_home(self.path.as_str(), home)
    }
}

/// The configuration.
#[derive(Debug)]
pub struct GeilConfig {
    /// All paths that are watched for new repositories.
    pub watched: Vec<String>,
    /// All paths that are explicitly ignored.
    pub ignored: Vec<String>,
    /// Single repositories.
    pub repositories: Vec<String>,
    pub keys: Vec<SshKey>,
    pub hooks: Vec<Hook>,
}

impl GeilConfig {
    /// An empty configuration.
    pub fn new() -> (r: GeilConfig)
        ensures
            r.watched@.len() == 0,
            r.ignored@.len() == 0,
            r.repositories@.len() == 0,
            r.keys@.len() == 0,
            r.hooks@.len() == 0,
    {
        GeilConfig {
            ignored: Vec::new(),
            watched: Vec::new(),
            repositories: Vec::new(),
            keys: Vec::new(),
            hooks: Vec::new(),
        }
    }

    /// The ignored paths, expanded.
    pub fn ignored(&self, home: &Option<String>) -> (r: Vec<String>)
        ensures
            path_views(r@) == path_views(self.ignored@).map_values(|p: Seq<char>| expanded(p, *home)),
    {
        expand_all(&self.ignored, home)
    }

    /// The watched paths, expanded.
    pub fn watched(&self, home: &Option<String>) -> (r: Vec<String>)
        ensures
            path_views(r@) == path_views(self.watched@).map_values(|p: Seq<char>| expanded(p, *home)),
    {
        expand_all(&self.watched, home)
    }

    /// The single repositories, expanded.
    pub fn repositories(&self, home: &Option<String>) -> (r: Vec<String>)
        ensures
            path_views(r@) == path_views(self.repositories@).map_values(
                |p: Seq<char>| expanded(p, *home),
            ),
    {
        expand_all(&self.repositories, home)
    }
}

} // verus!
