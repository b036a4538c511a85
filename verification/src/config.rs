//! The values a run is configured with: chunk size, worker count, and the
//! name of the backup beside the current artifact.

use vstd::prelude::*;
use vstd::string::*;

verus! {

/// The chunk size used where none is given: 100 MiB.
pub const DEFAULT_CHUNK_SIZE: usize = 104_857_600;

/// Tells how many processing units the machine offers, as `num_cpus::get`
/// counts them. Its documentation promises a count of at least one; the
/// count itself depends on the machine and on the limits set for the process.
pub assume_specification[ num_cpus::get ]() -> (units: usize)
    ensures
        units >= 1,
;

/// The size of the worker pool: the number asked for where one is given and
/// is not zero, else one worker per available processing unit, and never
/// fewer than one.
pub fn worker_count(requested: Option<usize>, available: usize) -> (workers: usize)
    ensures
        workers == match requested {
            Some(asked) => if asked >= 1 {
                asked
            } else if available >= 1 {
                available
            } else {
                1
            },
            None => if available >= 1 {
                available
            } else {
                1
            },
        },
        workers >= 1,
{
    match requested {
        Some(asked) => {
            if asked >= 1 {
                return asked;
            }
        },
        None => {},
    }
    if available >= 1 {
        available
    } else {
        1
    }
}

/// The size of the worker pool on this machine: the number asked for, or one
/// worker per processing unit that the machine offers.
pub fn pool_size(requested: Option<usize>) -> (workers: usize)
    ensures
        workers >= 1,
        requested matches Some(asked) ==> (asked >= 1 ==> workers == asked),
{
    worker_count(requested, num_cpus::get())
}

/// The suffix that tells the backup from the current artifact.
pub open spec fn backup_suffix() -> Seq<char> {
    seq!['.', 'b', 'c', 'k']
}

/// Path of the backup that belongs to the artifact at `current`: the same
/// path with `.bck` after it.
pub fn backup_path(current: &str) -> (backup: String)
    ensures
        backup@ == current@ + backup_suffix(),
{
    proof {
        reveal_strlit(".bck");
    }
    let mut backup = String::from_str(current);
    backup.append(".bck");
    assert(".bck"@ =~= backup_suffix());
    backup
}

} // verus!
