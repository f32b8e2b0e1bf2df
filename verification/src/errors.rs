//! The library's error type.

use vstd::prelude::*;

verus! {

/// Failure taxonomy of mount-point resolution.
///
/// - `Ffi`: the path's bytes cannot take the representation a native call
///   needs (an interior terminator byte stands at `nul_position`).
/// - `Io`: an underlying system call failed; `code` carries the operating
///   system's error code.
/// - `S`: a strategy-specific failure with a plain message.
#[derive(Debug)]
pub enum Error {
    Ffi { nul_position: usize },
    Io { code: i32 },
    S(String),
}

impl From<String> for Error {
    fn from(err: String) -> (r: Error) {
        Error::S(err)
    }
}

impl vstd::std_specs::convert::FromSpecImpl<String> for Error {
    open spec fn obeys_from_spec() -> bool {
        true
    }

    open spec fn from_spec(err: String) -> Error {
        Error::S(err)
    }
}

} // verus!
