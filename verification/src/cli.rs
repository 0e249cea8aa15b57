//! The command-line surface: the commands the `kvs` binary accepts, and
//! what each one does to a store. The binary itself only parses its
//! arguments into these types, runs `run_command`, and prints the result.

use vstd::prelude::*;
use crate::errors::KvsError;
use crate::store::KvStore;

verus! {

/// The parsed command line.
#[derive(Debug, Clone)]
pub struct Cli {
    /// The command to run against the store in the current directory.
    pub command: Commands,
}

/// One invocation of the command-line tool.
#[derive(Debug, Clone)]
pub enum Commands {
    /// Print the value of a key, or `Key not found`.
    Get {
        /// The key to look up.
        key: String,
    },
    /// Set the value of a key.
    Put {
        /// The key to write.
        key: String,
        /// The value to store under the key.
        value: String,
    },
    /// Remove a key; failing with `Key not found` when it is absent.
    Rm {
        /// The key to remove.
        key: String,
    },
}

/// Runs one command against an open store. `Ok(Some(line))` is a line for
/// standard output; `Ok(None)` is silent success; `Err(KeyNotFound)` is
/// how an `Rm` of an absent key reports itself to the caller, which
/// prints `Key not found` and exits nonzero.
pub fn run_command(store: &mut KvStore, cmd: Commands) -> (r: Result<Option<String>, KvsError>)
    requires
        old(store).wf(),
    ensures
        final(store).wf(),
        match cmd {
            Commands::Get { key } => {
                &&& final(store).kv() == old(store).kv()
                &&& (r matches Ok(line) ==> (match line {
                    Some(out) => (old(store).kv().dom().contains(key@) && old(store).kv()[key@]
                        == out@) || (!old(store).kv().dom().contains(key@) && out@
                        == "Key not found"@),
                    None => false,
                }))
                &&& r.is_ok()
            },
            Commands::Put { key, value } => {
                &&& (r matches Ok(line) ==> line is None && final(store).kv() == old(store).kv().insert(key@, value@))
                &&& (r.is_ok() <==> old(store).can_set(key@, value@))
            },
            Commands::Rm { key } => {
                &&& (r matches Ok(line) ==> line is None && final(store).kv() == old(store).kv().remove(key@))
                &&& (r matches Err(e) && e is KeyNotFound <==> !old(store).kv().dom().contains(
                    key@,
                ))
            },
        },
{
    match cmd {
        Commands::Get { key } => match store.get(key) {
            Ok(Some(value)) => Ok(Some(value)),
            Ok(None) => Ok(Some("Key not found".to_owned())),
            Err(e) => {
                proof {
                    assert(false);
                }
                Err(e)
            },
        },
        Commands::Put { key, value } => match store.set(key, value) {
            Ok(()) => Ok(None),
            Err(e) => Err(e),
        },
        Commands::Rm { key } => match store.remove(key) {
            Ok(()) => Ok(None),
            Err(e) => Err(e),
        },
    }
}

} // verus!
