//! Named keys kept in the inventory.
use vstd::prelude::*;
use crate::cli::{Follow, KeysCmd};
use crate::state::{SshKey, State};
use crate::text::{chars_of, has_line, lines_of, str_equal, trim, trimmed};

verus! {

/// Why a key command failed.
#[derive(Clone, Copy, Debug, PartialEq, Eq, Structural)]
pub enum KeyError {
    /// A key with this name exists.
    NameTaken,
    /// A key for this path exists.
    PathTaken,
    /// No key file is at the path.
    KeyFileMissing,
    /// No key has this name.
    UnknownKey,
}

/// The first clash of a new key with the known ones, looked for key by key: the
/// same name, then the same path.
pub open spec fn key_clash(keys: Seq<SshKey>, name: Seq<char>, path: Seq<char>) -> Option<KeyError>
    decreases keys.len(),
{
    if keys.len() == 0 {
        None
    } else if keys[0].name@ == name {
        Some(KeyError::NameTaken)
    } else if keys[0].path@ == path {
        Some(KeyError::PathTaken)
    } else {
        key_clash(keys.drop_first(), name, path)
    }
}

/// Why adding a key fails, if it does.
pub open spec fn add_key_error(
    keys: Seq<SshKey>,
    name: Seq<char>,
    path: Seq<char>,
    key_file_exists: bool,
) -> Option<KeyError> {
    match key_clash(keys, name, path) {
        Some(e) => Some(e),
        None => if key_file_exists {
            None
        } else {
            Some(KeyError::KeyFileMissing)
        },
    }
}

/// The result that an error, or its absence, makes.
pub open spec fn result_of(e: Option<KeyError>) -> Result<(), KeyError> {
    match e {
        Some(e) => Err(e),
        None => Ok(()),
    }
}

/// The index of the first key named `name`.
pub open spec fn key_named(keys: Seq<SshKey>, name: Seq<char>) -> Option<int>
    decreases keys.len(),
{
    if keys.len() == 0 {
        None
    } else {
        match key_named(keys.drop_last(), name) {
            Some(k) => Some(k),
            None => if keys.last().name@ == name {
                Some(keys.len() - 1)
            } else {
                None
            },
        }
    }
}

proof fn lemma_key_named(keys: Seq<SshKey>, name: Seq<char>)
    ensures
        match key_named(keys, name) {
            Some(k) => 0 <= k < keys.len() && keys[k].name@ == name && forall|j: int|
                0 <= j < k ==> (#[trigger] keys[j]).name@ != name,
            None => forall|j: int| 0 <= j < keys.len() ==> (#[trigger] keys[j]).name@ != name,
        },
    decreases keys.len(),
{
    if keys.len() > 0 {
        lemma_key_named(keys.drop_last(), name);
        assert forall|j: int| 0 <= j < keys.len() - 1 implies (#[trigger] keys[j]) == keys.drop_last()[j] by {}
    }
}

/// Whether the agent's listing of its keys (one public key per line) holds the
/// public key `public_key`, surrounding white space aside.
pub fn agent_holds_key(agent_listing: &str, public_key: &str) -> (r: bool)
    ensures
        r == lines_of(agent_listing@).contains(trimmed(public_key@)),
{
    let listing = chars_of(agent_listing);
    let key = trim(&chars_of(public_key));
    has_line(&listing, &key)
}

/// Adds a key under `name` for the private key at `path`, unless a known key has
/// that name or path, or no key file is there.
pub fn add_key(state: &mut State, name: String, path: String, key_file_exists: bool) -> (r: Result<
    (),
    KeyError,
>)
    ensures
        r == result_of(add_key_error(old(state).keys@, name@, path@, key_file_exists)),
        r is Ok ==> final(state).keys@ == old(state).keys@.push(SshKey { name, path }),
        r is Err ==> final(state).keys == old(state).keys,
        final(state).watched == old(state).watched,
        final(state).ignored == old(state).ignored,
        final(state).repositories == old(state).repositories,
{
    let mut k: usize = 0;
    assert(state.keys@.subrange(0, state.keys@.len() as int) =~= state.keys@);
    while k < state.keys.len()
        invariant
            *state == *old(state),
            k <= state.keys@.len(),
            key_clash(state.keys@, name@, path@) == key_clash(
                state.keys@.subrange(k as int, state.keys@.len() as int),
                name@,
                path@,
            ),
        decreases state.keys@.len() - k,
    {
        let ghost rest = state.keys@.subrange(k as int, state.keys@.len() as int);
        assert(rest[0] == state.keys@[k as int]);
        assert(rest.drop_first() =~= state.keys@.subrange(k + 1, state.keys@.len() as int));
        if str_equal(name.as_str(), state.keys[k].name.as_str()) {
            return Err(KeyError::NameTaken);
        } else if str_equal(path.as_str(), state.keys[k].path.as_str()) {
            return Err(KeyError::PathTaken);
        }
        k = k + 1;
    }
    if !key_file_exists {
        return Err(KeyError::KeyFileMissing);
    }
    state.keys.push(SshKey { name, path });
    Ok(())
}

/// Removes the first key named `name`.
pub fn remove_key(state: &mut State, name: String) -> (r: Result<(), KeyError>)
    ensures
        match key_named(old(state).keys@, name@) {
            Some(k) => r is Ok && final(state).keys@ == old(state).keys@.remove(k),
            None => r == Err::<(), KeyError>(KeyError::UnknownKey) && final(state).keys
                == old(state).keys,
        },
        final(state).watched == old(state).watched,
        final(state).ignored == old(state).ignored,
        final(state).repositories == old(state).repositories,
{
    proof {
        lemma_key_named(state.keys@, name@);
    }
    let mut k: usize = 0;
    while k < state.keys.len()
        invariant
            *state == *old(state),
            k <= state.keys@.len(),
            forall|j: int| 0 <= j < k ==> (#[trigger] state.keys@[j]).name@ != name@,
        decreases state.keys@.len() - k,
    {
        if str_equal(name.as_str(), state.keys[k].name.as_str()) {
            proof {
                lemma_key_named(state.keys@, name@);
            }
            state.keys.remove(k);
            return Ok(());
        }
        k = k + 1;
    }
    Err(KeyError::UnknownKey)
}

/// Carries out a key command. `key_file_exists` tells whether a key file is at the
/// path that an `Add` names.
pub fn handle_key_command(state: &mut State, cmd: KeysCmd, key_file_exists: bool) -> (r: Result<
    Follow,
    KeyError,
>)
    ensures
        match cmd {
            KeysCmd::Add { name, path } => match add_key_error(old(state).keys@, name@, path@, key_file_exists) {
                Some(e) => r == Err::<Follow, KeyError>(e) && *final(state) == *old(state),
                None => r == Ok::<Follow, KeyError>(Follow::Save) && final(state).keys@
                    == old(state).keys@.push(SshKey { name, path }),
            },
            KeysCmd::List => r == Ok::<Follow, KeyError>(Follow::List) && *final(state) == *old(state),
            KeysCmd::Remove { name } => match key_named(old(state).keys@, name@) {
                Some(k) => r == Ok::<Follow, KeyError>(Follow::Save) && final(state).keys@
                    == old(state).keys@.remove(k),
                None => r == Err::<Follow, KeyError>(KeyError::UnknownKey) && *final(state)
                    == *old(state),
            },
        },
        final(state).watched == old(state).watched,
        final(state).ignored == old(state).ignored,
        final(state).repositories == old(state).repositories,
{
    match cmd {
        KeysCmd::Add { name, path } => match add_key(state, name, path, key_file_exists) {
            Ok(()) => Ok(Follow::Save),
            Err(e) => Err(e),
        },
        KeysCmd::List => Ok(Follow::List),
        KeysCmd::Remove { name } => match remove_key(state, name) {
            Ok(()) => Ok(Follow::Save),
            Err(e) => Err(e),
        },
    }
}

} // verus!
