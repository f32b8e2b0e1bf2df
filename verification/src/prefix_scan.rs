//! The path-prefix scan: the Windows-style strategy.
//!
//! On a canonical Windows-style path the mount point is the leading drive
//! or share prefix component: a verbatim prefix (`\\?\C:`, `\\?\UNC\s\sh`,
//! `\\?\name`), a device namespace (`\\.\name`), a network share
//! (`\\server\share`) or a plain drive (`C:`). The scan is pure byte-level
//! work and needs no filesystem access at all.

use vstd::prelude::*;
use vstd::string::StringExecFns;

use crate::canon::is_byte_prefix;
use crate::errors::Error;

verus! {

/// The backslash byte, `\`.
pub const BSLASH: u8 = 92;

/// The forward slash byte, `/`.
pub const FSLASH: u8 = 47;

/// The colon byte, `:`.
pub const COLON: u8 = 58;

/// The question-mark byte, `?`.
pub const QMARK: u8 = 63;

/// The `.` byte.
pub const PERIOD: u8 = 46;

/// The letter `U`.
pub const UPPER_U: u8 = 85;

/// The letter `N`.
pub const UPPER_N: u8 = 78;

/// The letter `C`.
pub const UPPER_C: u8 = 67;

/// Both separators count outside verbatim prefixes.
pub open spec fn is_sep_byte(c: u8) -> bool {
    c == FSLASH || c == BSLASH
}

/// An ASCII drive letter.
pub open spec fn is_drive_letter(c: u8) -> bool {
    (65 <= c <= 90) || (97 <= c <= 122)
}

/// Where the component that starts at `i` ends: the index of the next
/// separator at or after `i`, or the end of the path.
pub open spec fn component_end(s: Seq<u8>, i: int) -> int
    decreases s.len() - i,
{
    if i < 0 || i >= s.len() {
        s.len() as int
    } else if is_sep_byte(s[i]) {
        i
    } else {
        component_end(s, i + 1)
    }
}

/// As [`component_end`], but only the backslash separates (inside a
/// verbatim prefix the forward slash is an ordinary byte).
pub open spec fn verbatim_component_end(s: Seq<u8>, i: int) -> int
    decreases s.len() - i,
{
    if i < 0 || i >= s.len() {
        s.len() as int
    } else if s[i] == BSLASH {
        i
    } else {
        verbatim_component_end(s, i + 1)
    }
}

/// The length of the drive-or-share prefix component of `s`, or `0` when
/// `s` has none (then it is not an absolute Windows-style path).
pub open spec fn prefix_len(s: Seq<u8>) -> int {
    if s.len() >= 4 && s[0] == BSLASH && s[1] == BSLASH && s[2] == QMARK && s[3] == BSLASH {
        if s.len() >= 8 && s[4] == UPPER_U && s[5] == UPPER_N && s[6] == UPPER_C && s[7]
            == BSLASH {
            // \\?\UNC\server\share
            let a = verbatim_component_end(s, 8);
            if a == s.len() {
                a
            } else {
                verbatim_component_end(s, a + 1)
            }
        } else if s.len() >= 6 && is_drive_letter(s[4]) && s[5] == COLON && (s.len() == 6 || s[6]
            == BSLASH) {
            // \\?\C:
            6
        } else {
            // \\?\name
            verbatim_component_end(s, 4)
        }
    } else if s.len() >= 4 && s[0] == BSLASH && s[1] == BSLASH && s[2] == PERIOD && s[3]
        == BSLASH {
        // \\.\device
        component_end(s, 4)
    } else if s.len() >= 2 && s[0] == BSLASH && s[1] == BSLASH {
        // \\server\share
        let a = component_end(s, 2);
        if a == s.len() {
            a
        } else {
            component_end(s, a + 1)
        }
    } else if s.len() >= 2 && is_drive_letter(s[0]) && s[1] == COLON {
        // C:
        2
    } else {
        0
    }
}

proof fn lemma_component_end_bounds(s: Seq<u8>, i: int)
    requires
        0 <= i <= s.len(),
    ensures
        i <= component_end(s, i) <= s.len(),
    decreases s.len() - i,
{
    if i < s.len() && !is_sep_byte(s[i]) {
        lemma_component_end_bounds(s, i + 1);
    }
}

proof fn lemma_verbatim_component_end_bounds(s: Seq<u8>, i: int)
    requires
        0 <= i <= s.len(),
    ensures
        i <= verbatim_component_end(s, i) <= s.len(),
    decreases s.len() - i,
{
    if i < s.len() && s[i] != BSLASH {
        lemma_verbatim_component_end_bounds(s, i + 1);
    }
}

/// Truncating at or after a component's end leaves the end in place.
proof fn lemma_component_end_take(s: Seq<u8>, k: int, i: int)
    requires
        0 <= i,
        component_end(s, i) <= k <= s.len(),
    ensures
        component_end(s.take(k), i) == component_end(s, i),
    decreases s.len() - i,
{
    let t = s.take(k);
    if i <= s.len() {
        lemma_component_end_bounds(s, i);
    }
    if i >= k {
        // the end lies at `k` exactly, and the truncated path ends there
        assert(component_end(t, i) == k);
    } else {
        if !is_sep_byte(s[i]) {
            lemma_component_end_take(s, k, i + 1);
        }
    }
}

proof fn lemma_verbatim_component_end_take(s: Seq<u8>, k: int, i: int)
    requires
        0 <= i,
        verbatim_component_end(s, i) <= k <= s.len(),
    ensures
        verbatim_component_end(s.take(k), i) == verbatim_component_end(s, i),
    decreases s.len() - i,
{
    let t = s.take(k);
    if i <= s.len() {
        lemma_verbatim_component_end_bounds(s, i);
    }
    if i >= k {
        assert(verbatim_component_end(t, i) == k);
    } else {
        if s[i] != BSLASH {
            lemma_verbatim_component_end_take(s, k, i + 1);
        }
    }
}

/// Idempotence of the scan: the prefix component of a prefix component is
/// that component itself.
pub proof fn lemma_prefix_scan_idempotent(s: Seq<u8>)
    requires
        prefix_len(s) >= 1,
    ensures
        prefix_len(s.take(prefix_len(s))) == prefix_len(s),
{
    let n = prefix_len(s);
    if s.len() >= 4 && s[0] == BSLASH && s[1] == BSLASH && s[2] == QMARK && s[3] == BSLASH {
        if s.len() >= 8 && s[4] == UPPER_U && s[5] == UPPER_N && s[6] == UPPER_C && s[7]
            == BSLASH {
            let a = verbatim_component_end(s, 8);
            lemma_verbatim_component_end_bounds(s, 8);
            if a == s.len() {
                assert(s.take(n) =~= s);
            } else {
                let b = verbatim_component_end(s, a + 1);
                lemma_verbatim_component_end_bounds(s, a + 1);
                let t = s.take(n);
                lemma_verbatim_component_end_take(s, n, 8);
                lemma_verbatim_component_end_take(s, n, a + 1);
                assert(verbatim_component_end(t, 8) == a);
                assert(verbatim_component_end(t, a + 1) == b);
                assert(prefix_len(t) == b);
            }
        } else if s.len() >= 6 && is_drive_letter(s[4]) && s[5] == COLON && (s.len() == 6 || s[6]
            == BSLASH) {
            let t = s.take(6);
            assert(t.len() == 6);
            assert(prefix_len(t) == 6);
        } else {
            let e = verbatim_component_end(s, 4);
            lemma_verbatim_component_end_bounds(s, 4);
            if e == s.len() {
                assert(s.take(n) =~= s);
            } else {
                let t = s.take(n);
                lemma_verbatim_component_end_take(s, n, 4);
                // the truncation cannot turn the component into a share or
                // a drive prefix: its bytes are the untruncated path's
                if t.len() >= 8 && t[4] == UPPER_U && t[5] == UPPER_N && t[6] == UPPER_C && t[7]
                    == BSLASH {
                    assert(s[4] == UPPER_U && s[5] == UPPER_N && s[6] == UPPER_C && s[7]
                        == BSLASH);
                    assert(false);
                }
                if t.len() >= 6 && is_drive_letter(t[4]) && t[5] == COLON && (t.len() == 6 || t[6]
                    == BSLASH) {
                    assert(is_drive_letter(s[4]) && s[5] == COLON);
                    assert(s.len() > 6 && s[6] != BSLASH);
                    // the component runs past position six, so the
                    // truncated path does too
                    assert(s[4] != BSLASH && s[5] != BSLASH && s[6] != BSLASH);
                    assert(verbatim_component_end(s, 4) == verbatim_component_end(s, 5));
                    assert(verbatim_component_end(s, 5) == verbatim_component_end(s, 6));
                    assert(verbatim_component_end(s, 6) == verbatim_component_end(s, 7));
                    lemma_verbatim_component_end_bounds(s, 7);
                    assert(e >= 7);
                    assert(t[6] == s[6]);
                    assert(false);
                }
                assert(prefix_len(t) == e);
            }
        }
    } else if s.len() >= 4 && s[0] == BSLASH && s[1] == BSLASH && s[2] == PERIOD && s[3]
        == BSLASH {
        let e = component_end(s, 4);
        lemma_component_end_bounds(s, 4);
        if e == s.len() {
            assert(s.take(n) =~= s);
        } else {
            let t = s.take(n);
            lemma_component_end_take(s, n, 4);
            assert(t[2] == PERIOD && PERIOD != QMARK);
            assert(prefix_len(t) == e);
        }
    } else if s.len() >= 2 && s[0] == BSLASH && s[1] == BSLASH {
        let a = component_end(s, 2);
        lemma_component_end_bounds(s, 2);
        if a == s.len() {
            assert(s.take(n) =~= s);
        } else {
            let b = component_end(s, a + 1);
            lemma_component_end_bounds(s, a + 1);
            let t = s.take(n);
            assert(n == b && b >= a + 1 && a >= 2);
            // the truncated path is no verbatim or device prefix: that
            // would have made the untruncated path one
            if t.len() >= 4 && t[2] == QMARK && t[3] == BSLASH {
                assert(s[2] == QMARK && s[3] == BSLASH && s.len() >= 4);
                assert(false);
            }
            if t.len() >= 4 && t[2] == PERIOD && t[3] == BSLASH {
                assert(s[2] == PERIOD && s[3] == BSLASH && s.len() >= 4);
                assert(false);
            }
            lemma_component_end_take(s, n, 2);
            lemma_component_end_take(s, n, a + 1);
            assert(component_end(t, 2) == a);
            assert(component_end(t, a + 1) == b);
            assert(prefix_len(t) == b);
        }
    } else {
        let t = s.take(2);
        assert(t.len() == 2);
        assert(is_drive_letter(t[0]) && t[1] == COLON);
        assert(t[0] != BSLASH);
        assert(prefix_len(t) == 2);
    }
}

/// Whether `c` is an ASCII drive letter.
fn is_drive_letter_byte(c: u8) -> (b: bool)
    ensures
        b == is_drive_letter(c),
{
    (65 <= c && c <= 90) || (97 <= c && c <= 122)
}

/// Where the component that starts at `start` ends.
fn component_end_from(path: &Vec<u8>, start: usize, verbatim: bool) -> (e: usize)
    requires
        start <= path@.len(),
    ensures
        verbatim ==> e == verbatim_component_end(path@, start as int),
        !verbatim ==> e == component_end(path@, start as int),
        start <= e <= path@.len(),
{
    let mut j: usize = start;
    while j < path.len()
        invariant
            start <= j <= path@.len(),
            verbatim ==> verbatim_component_end(path@, start as int) == verbatim_component_end(
                path@,
                j as int,
            ),
            !verbatim ==> component_end(path@, start as int) == component_end(path@, j as int),
        decreases path@.len() - j,
    {
        let c = path[j];
        if verbatim {
            if c == BSLASH {
                return j;
            }
        } else {
            if c == BSLASH || c == FSLASH {
                return j;
            }
        }
        j = j + 1;
    }
    j
}

/// An owned copy of the first `n` bytes of `path`.
fn take_prefix(path: &Vec<u8>, n: usize) -> (r: Vec<u8>)
    requires
        n <= path@.len(),
    ensures
        r@ == path@.take(n as int),
{
    let mut r: Vec<u8> = Vec::new();
    let mut j: usize = 0;
    while j < n
        invariant
            j <= n <= path@.len(),
            r@ == path@.take(j as int),
        decreases n - j,
    {
        let b = path[j];
        r.push(b);
        proof {
            assert(r@ =~= path@.take(j + 1 as int));
        }
        j = j + 1;
    }
    r
}

/// Find the drive or share prefix of a canonical Windows-style path: the
/// earliest structural component. A path without one is malformed (not
/// absolute), and the scan fails with a plain message.
pub fn find_mountpoint_pre_canonicalized(path: &Vec<u8>) -> (r: Result<Vec<u8>, Error>)
    ensures
        match r {
            Ok(v) => {
                &&& prefix_len(path@) >= 1
                &&& v@ == path@.take(prefix_len(path@))
                &&& is_byte_prefix(v@, path@)
                &&& v@.len() >= 1
            },
            Err(e) => {
                &&& prefix_len(path@) == 0
                &&& e matches Error::S(m) && m@ == "Couldn't find prefix on path."@
            },
        },
{
    let n = path.len();
    let plen: usize;
    if n >= 4 && path[0] == BSLASH && path[1] == BSLASH && path[2] == QMARK && path[3] == BSLASH {
        if n >= 8 && path[4] == UPPER_U && path[5] == UPPER_N && path[6] == UPPER_C && path[7]
            == BSLASH {
            let a = component_end_from(path, 8, true);
            if a == n {
                plen = a;
            } else {
                plen = component_end_from(path, a + 1, true);
            }
        } else if n >= 6 && is_drive_letter_byte(path[4]) && path[5] == COLON && (n == 6 || path[6]
            == BSLASH) {
            plen = 6;
        } else {
            plen = component_end_from(path, 4, true);
        }
    } else if n >= 4 && path[0] == BSLASH && path[1] == BSLASH && path[2] == PERIOD && path[3]
        == BSLASH {
        plen = component_end_from(path, 4, false);
    } else if n >= 2 && path[0] == BSLASH && path[1] == BSLASH {
        let a = component_end_from(path, 2, false);
        if a == n {
            plen = a;
        } else {
            plen = component_end_from(path, a + 1, false);
        }
    } else if n >= 2 && is_drive_letter_byte(path[0]) && path[1] == COLON {
        plen = 2;
    } else {
        plen = 0;
    }
    assert(plen as int == prefix_len(path@));
    if plen == 0 {
        return Err(Error::S(String::from_str("Couldn't find prefix on path.")));
    }
    let v = take_prefix(path, plen);
    Ok(v)
}

/// Find the drive or share prefix of a path.
///
/// The full operation canonicalizes its input first; canonicalization
/// is a filesystem operation and therefore the embedding application's
/// step. This function takes the canonical form it produced and returns an
/// owned prefix — exactly what [`find_mountpoint_pre_canonicalized`]
/// returns on the same path.
pub fn find_mountpoint(canonical: &Vec<u8>) -> (r: Result<Vec<u8>, Error>)
    ensures
        match r {
            Ok(v) => {
                &&& prefix_len(canonical@) >= 1
                &&& v@ == canonical@.take(prefix_len(canonical@))
                &&& is_byte_prefix(v@, canonical@)
                &&& v@.len() >= 1
            },
            Err(e) => {
                &&& prefix_len(canonical@) == 0
                &&& e matches Error::S(m) && m@ == "Couldn't find prefix on path."@
            },
        },
{
    find_mountpoint_pre_canonicalized(canonical)
}

} // verus!
