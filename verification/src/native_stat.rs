//! The pure halves of the native filesystem-status strategy (POSIX).
//!
//! On systems whose native status call reports the mount point of a path
//! directly, resolution is: convert the path's bytes to the null-terminated
//! form the call takes, make the call (the embedding application's job — a
//! system call on raw pointers), and validate the reported mount point
//! against the input. The two conversions around the call are verified
//! here; the call itself adds no logic.

use vstd::prelude::*;

use crate::canon::{copy_bytes, is_path_prefix, is_path_prefix_of};
use crate::errors::Error;

verus! {

/// The bytes of a path in the null-terminated form a native call takes:
/// the path followed by one terminator byte.
///
/// A path with an interior terminator byte has no such form; that is the
/// construction failure of the error taxonomy, and the error carries the
/// position of the first offending byte.
pub fn to_cstring_bytes(path: &Vec<u8>) -> (r: Result<Vec<u8>, Error>)
    ensures
        match r {
            Ok(v) => {
                &&& forall|i: int| 0 <= i < path@.len() ==> path@[i] != 0
                &&& v@ == path@.push(0u8)
            },
            Err(e) => {
                &&& e matches Error::Ffi { nul_position } && {
                    &&& 0 <= nul_position < path@.len()
                    &&& path@[nul_position as int] == 0
                    &&& forall|i: int| 0 <= i < nul_position ==> path@[i] != 0
                }
            },
        },
{
    let mut j: usize = 0;
    while j < path.len()
        invariant
            j <= path@.len(),
            forall|i: int| 0 <= i < j ==> path@[i] != 0,
        decreases path@.len() - j,
    {
        if path[j] == 0 {
            return Err(Error::Ffi { nul_position: j });
        }
        j = j + 1;
    }
    let mut v = copy_bytes(path);
    v.push(0);
    Ok(v)
}

/// Validate the mount point a native status call reported for a canonical
/// path: it must be non-empty and a prefix of the path on a component
/// boundary.
///
/// The invariant is the platform's to keep. A violation indicates a broken
/// platform assumption, which the embedding application treats as a fatal
/// logic failure, not as a recoverable error.
pub fn accept_mount_report(path: &Vec<u8>, report: &Vec<u8>) -> (r: Option<Vec<u8>>)
    ensures
        match r {
            Some(v) => {
                &&& report@.len() >= 1
                &&& is_path_prefix(report@, path@)
                &&& v@ == report@
            },
            None => !(report@.len() >= 1 && is_path_prefix(report@, path@)),
        },
{
    if report.len() == 0 {
        return None;
    }
    if !is_path_prefix_of(report, path) {
        return None;
    }
    Some(copy_bytes(report))
}

} // verus!
