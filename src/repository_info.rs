//! The per-run record of one repository and the states a run can leave it in.
use vstd::prelude::*;

verus! {

/// What a run of the pipeline found out about a repository.
#[derive(Clone, Copy, Debug, PartialEq, Eq, Structural)]
pub enum RepositoryState {
    /// Not classified yet, or the tool's text matched no known pattern.
    Unknown,
    /// The current HEAD is not on a branch.
    Detached,
    /// Fetched, merged and up to date.
    UpToDate,
    /// Nothing wrong was found during a check run.
    Good,
    /// New changes were fetched from a remote.
    Fetched,
    /// The repository was fast-forwarded.
    Updated,
    /// A fast-forward merge is not possible.
    NoFastForward,
    /// The working tree has local changes.
    LocalChanges,
    /// The current branch has commits that its remote does not.
    NotPushed,
}

impl RepositoryState {
    /// The text that shows the state to the user.
    pub fn label(&self) -> (r: &'static str) {
        match self {
            RepositoryState::Unknown => "Unknown",
            RepositoryState::Detached => "Detached HEAD",
            RepositoryState::UpToDate => "Up to date",
            RepositoryState::Good => "Ok",
            RepositoryState::Fetched => "Fetched",
            RepositoryState::Updated => "Updated",
            RepositoryState::NoFastForward => "No fast forward",
            RepositoryState::LocalChanges => "Local changes",
            RepositoryState::NotPushed => "Unpushed commits",
        }
    }
}

/// Start of the path segment that ends at position `j`.
pub open spec fn segment_start(p: Seq<char>, j: int) -> int
    decreases j,
{
    if j <= 0 {
        0
    } else if p[j - 1] == '/' {
        j
    } else {
        segment_start(p, j - 1)
    }
}

/// The final component of the path prefix `p[..j]`, as `Path::file_name` gives it:
/// separators and `.` components are skipped; a final `..`, or no component, gives none.
pub open spec fn final_segment(p: Seq<char>, j: int) -> Option<Seq<char>>
    decreases j,
{
    if j <= 0 || j > p.len() {
        None
    } else if p[j - 1] == '/' {
        final_segment(p, j - 1)
    } else {
        let a = segment_start(p, j);
        let seg = p.subrange(a, j);
        if seg == seq!['.'] {
            if 0 <= a < j {
                final_segment(p, a)
            } else {
                None
            }
        } else if seg == seq!['.', '.'] {
            None
        } else {
            Some(seg)
        }
    }
}

/// The name shown for a repository: the final component of its path.
pub open spec fn display_name(p: Seq<char>) -> Seq<char> {
    match final_segment(p, p.len() as int) {
        Some(seg) => seg,
        None => "no_name?"@,
    }
}

/// The name shown for the repository at `path`.
pub fn name_of(path: &String) -> (r: String)
    ensures
        r@ == display_name(path@),
{
    let s = path.as_str();
    let n = s.unicode_len();
    let mut j: usize = n;
    loop
        invariant
            j <= n,
            n == s@.len(),
            s@ == path@,
            final_segment(s@, n as int) == final_segment(s@, j as int),
        decreases j,
    {
        if j == 0 {
            return String::from_str("no_name?");
        }
        if s.get_char(j - 1) == '/' {
            j = j - 1;
        } else {
            let mut a: usize = j - 1;
            while a > 0 && s.get_char(a - 1) != '/'
                invariant
                    a < j <= n,
                    n == s@.len(),
                    segment_start(s@, j as int) == segment_start(s@, a as int),
                    s@[j - 1] != '/',
                decreases a,
            {
                a = a - 1;
            }
            proof {
                if a > 0 {
                    assert(segment_start(s@, a as int) == a);
                } else {
                    assert(segment_start(s@, 0) == 0);
                }
            }
            let seg = s.substring_char(a, j);
            if j - a == 1 && s.get_char(a) == '.' {
                assert(seg@ =~= seq!['.']);
                j = a;
            } else if j - a == 2 && s.get_char(a) == '.' && s.get_char(a + 1) == '.' {
                assert(seg@ =~= seq!['.', '.']);
                return String::from_str("no_name?");
            } else {
                proof {
                    if seg@ == seq!['.'] {
                        assert(seg@[0] == s@[a as int]);
                    }
                    if seg@ == seq!['.', '.'] {
                        assert(seg@[0] == s@[a as int]);
                        assert(seg@[1] == s@[a + 1]);
                    }
                }
                return seg.to_owned();
            }
        }
    }
}

/// A repository as one run sees it: where it is, what the run found, how long it took.
#[derive(Debug)]
pub struct RepositoryInfo {
    pub path: String,
    pub name: String,
    pub state: RepositoryState,
    pub stashed: usize,
    /// The time (ms) the run took on this repository.
    pub check_time: Option<usize>,
    pub hook: Option<String>,
}

impl RepositoryInfo {
    /// A fresh record for the repository at `path`, not yet classified.
    pub fn new(path: String, hook: Option<String>) -> (r: RepositoryInfo)
        ensures
            r.path == path,
            r.name@ == display_name(path@),
            r.state == RepositoryState::Unknown,
            r.stashed == 0,
            r.check_time.is_none(),
            r.hook == hook,
    {
        let name = name_of(&path);
        RepositoryInfo { path, name, state: RepositoryState::Unknown, stashed: 0, check_time: None, hook }
    }
}

impl RepositoryInfo {
    /// Whether the report shows this repository when it lists only those that need
    /// attention: all but the up-to-date or fine ones without stash entries.
    pub fn needs_attention(&self) -> (r: bool)
        ensures
            r == (!(self.state == RepositoryState::UpToDate || self.state == RepositoryState::Good)
                || self.stashed != 0),
    {
        !(self.state == RepositoryState::UpToDate || self.state == RepositoryState::Good)
            || self.stashed != 0
    }
}

/// `info` with its state replaced by `state`, every other field kept.
pub open spec fn with_state(info: RepositoryInfo, state: RepositoryState) -> RepositoryInfo {
    RepositoryInfo { state, ..info }
}

} // verus!
