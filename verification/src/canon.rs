//! Model of canonical Unix paths over plain byte sequences.
//!
//! A canonical path is absolute, uses `/` as its separator, has no empty,
//! `.` or `..` components, and no trailing separator except for the root
//! path `/` itself — the shape that path canonicalization produces.

use vstd::prelude::*;

verus! {

/// The path separator byte, `/`.
pub const SEP: u8 = 47;

/// The `.` byte.
pub const DOT: u8 = 46;

/// A path is absolute when it begins with the separator.
pub open spec fn is_abs(s: Seq<u8>) -> bool {
    s.len() > 0 && s[0] == SEP
}

/// The root path `/`.
pub open spec fn is_root(s: Seq<u8>) -> bool {
    s.len() == 1 && s[0] == SEP
}

/// No empty components: the separator never appears twice in a row.
pub open spec fn no_empty_component(s: Seq<u8>) -> bool {
    forall|i: int| 1 <= i < s.len() && #[trigger] s[i] == SEP ==> s[i - 1] != SEP
}

/// No trailing separator, except on the root path itself.
pub open spec fn no_trailing_sep(s: Seq<u8>) -> bool {
    s.len() <= 1 || s[s.len() - 1] != SEP
}

/// A `.` component begins at position `i`.
pub open spec fn dot_at(s: Seq<u8>, i: int) -> bool {
    &&& 0 <= i < s.len()
    &&& s[i] == DOT
    &&& i == 0 || s[i - 1] == SEP
    &&& i + 1 == s.len() || s[i + 1] == SEP
}

/// A `..` component begins at position `i`.
pub open spec fn dotdot_at(s: Seq<u8>, i: int) -> bool {
    &&& 0 <= i && i + 1 < s.len()
    &&& s[i] == DOT && s[i + 1] == DOT
    &&& i == 0 || s[i - 1] == SEP
    &&& i + 2 == s.len() || s[i + 2] == SEP
}

/// No `.` or `..` components anywhere in the path.
pub open spec fn no_dot_component(s: Seq<u8>) -> bool {
    (forall|i: int| !(#[trigger] dot_at(s, i))) && (forall|i: int| !(#[trigger] dotdot_at(s, i)))
}

/// An absolute path with no empty, `.` or `..` components and no trailing
/// separator.
pub open spec fn is_canonical(s: Seq<u8>) -> bool {
    is_abs(s) && no_empty_component(s) && no_trailing_sep(s) && no_dot_component(s)
}

/// The index of the last separator in `s`, or `-1` when there is none.
pub open spec fn last_sep(s: Seq<u8>) -> int
    decreases s.len(),
{
    if s.len() == 0 {
        -1
    } else if s[s.len() - 1] == SEP {
        s.len() - 1
    } else {
        last_sep(s.drop_last())
    }
}

/// The parent of a canonical, non-root path: everything before the last
/// separator, or the root when the last separator is the leading one.
pub open spec fn parent_seq(s: Seq<u8>) -> Seq<u8> {
    if last_sep(s) <= 0 {
        s.take(1)
    } else {
        s.take(last_sep(s))
    }
}

/// `p` is a byte-exact prefix of `s`.
pub open spec fn is_byte_prefix(p: Seq<u8>, s: Seq<u8>) -> bool {
    p.len() <= s.len() && p == s.take(p.len() as int)
}

/// `p` is a prefix of `s` ending on a component boundary: byte-exact, and
/// either the two are equal, or `p` ends with a separator (as the root `/`
/// does), or the next byte of `s` is a separator.
pub open spec fn is_path_prefix(p: Seq<u8>, s: Seq<u8>) -> bool {
    is_byte_prefix(p, s)
        && (p.len() == s.len()
            || (p.len() > 0 && p[p.len() - 1] == SEP)
            || s[p.len() as int] == SEP)
}

/// Where the last separator lies: at a separator index with none after it.
pub proof fn lemma_last_sep(s: Seq<u8>)
    ensures
        -1 <= last_sep(s) < s.len(),
        last_sep(s) >= 0 ==> s[last_sep(s)] == SEP,
        forall|j: int| last_sep(s) < j < s.len() ==> s[j] != SEP,
        (exists|j: int| 0 <= j < s.len() && s[j] == SEP) ==> last_sep(s) >= 0,
    decreases s.len(),
{
    if s.len() == 0 {
    } else if s[s.len() - 1] == SEP {
    } else {
        lemma_last_sep(s.drop_last());
        assert forall|j: int| last_sep(s) < j < s.len() implies s[j] != SEP by {
            if j < s.len() - 1 {
                assert(s.drop_last()[j] != SEP);
            }
        }
        if exists|j: int| 0 <= j < s.len() && s[j] == SEP {
            let j = choose|j: int| 0 <= j < s.len() && s[j] == SEP;
            assert(s.drop_last()[j] == SEP);
        }
    }
}

/// The parent of a canonical, non-root path is itself canonical, strictly
/// shorter, non-empty, and a prefix on a component boundary.
pub proof fn lemma_parent_of_canonical(s: Seq<u8>)
    requires
        is_canonical(s),
        !is_root(s),
    ensures
        1 <= parent_seq(s).len() < s.len(),
        is_canonical(parent_seq(s)),
        is_path_prefix(parent_seq(s), s),
{
    lemma_last_sep(s);
    let ls = last_sep(s);
    assert(ls >= 0) by {
        assert(s[0] == SEP);
    }
    assert(s.len() >= 2);
    assert(s[s.len() - 1] != SEP);
    assert(ls < s.len() - 1);
    let p = parent_seq(s);
    if ls == 0 {
        assert(p =~= s.take(1));
        assert(p.len() == 1 && p[0] == SEP);
        assert forall|i: int| !(#[trigger] dot_at(p, i)) by {
            assert(p[0] == SEP && SEP != DOT);
        }
        assert forall|i: int| !(#[trigger] dotdot_at(p, i)) by {
            assert(p[0] == SEP && SEP != DOT);
        }
    } else {
        assert(p =~= s.take(ls));
        assert(p.len() == ls);
        assert(p[0] == s[0]);
        // no trailing separator on the parent: the byte before the last
        // separator of `s` is not itself a separator
        assert(s[ls] == SEP);
        assert(s[ls - 1] != SEP);
        assert(p[p.len() - 1] == s[ls - 1]);
        assert forall|i: int| 1 <= i < p.len() && #[trigger] p[i] == SEP implies p[i - 1] != SEP by {
            assert(s[i] == SEP);
        }
        assert forall|i: int| !(#[trigger] dot_at(p, i)) by {
            if dot_at(p, i) {
                // a dot component of the parent is one of `s`: the cut falls
                // on the last separator, so the boundary is a separator in
                // `s` as well
                assert(p[i] == s[i]);
                if i > 0 {
                    assert(p[i - 1] == s[i - 1]);
                }
                if i + 1 < p.len() {
                    assert(p[i + 1] == s[i + 1]);
                } else {
                    assert(s[i + 1] == SEP);
                }
                assert(dot_at(s, i));
            }
        }
        assert forall|i: int| !(#[trigger] dotdot_at(p, i)) by {
            if dotdot_at(p, i) {
                assert(p[i] == s[i]);
                assert(p[i + 1] == s[i + 1]);
                if i > 0 {
                    assert(p[i - 1] == s[i - 1]);
                }
                if i + 2 < p.len() {
                    assert(p[i + 2] == s[i + 2]);
                }
                assert(dotdot_at(s, i));
            }
        }
        assert(s[p.len() as int] == SEP);
    }
}

/// Path-boundary prefixes compose.
pub proof fn lemma_path_prefix_trans(a: Seq<u8>, b: Seq<u8>, c: Seq<u8>)
    requires
        is_path_prefix(a, b),
        is_path_prefix(b, c),
    ensures
        is_path_prefix(a, c),
{
    assert(a =~= c.take(a.len() as int)) by {
        assert forall|k: int| 0 <= k < a.len() implies a[k] == c[k] by {
            assert(a[k] == b.take(a.len() as int)[k]);
            assert(b[k] == c.take(b.len() as int)[k]);
        }
    }
    if a.len() < c.len() {
        if a.len() == b.len() {
            assert(a =~= b);
        } else {
            if !(a.len() > 0 && a[a.len() - 1] == SEP) {
                assert(b[a.len() as int] == SEP);
                assert(c[a.len() as int] == b.take(b.len() as int)[a.len() as int]);
            }
        }
    }
}

/// An owned copy of a byte vector.
pub(crate) fn copy_bytes(v: &Vec<u8>) -> (r: Vec<u8>)
    ensures
        r@ == v@,
{
    let mut r: Vec<u8> = Vec::new();
    let mut j: usize = 0;
    while j < v.len()
        invariant
            j <= v@.len(),
            r@ == v@.take(j as int),
        decreases v@.len() - j,
    {
        let b = v[j];
        r.push(b);
        proof {
            assert(r@ =~= v@.take(j + 1 as int));
        }
        j = j + 1;
    }
    proof {
        assert(r@ =~= v@);
    }
    r
}

/// The parent directory of a canonical path, or `None` for the root.
pub fn parent_of(path: &Vec<u8>) -> (r: Option<Vec<u8>>)
    requires
        is_canonical(path@),
    ensures
        match r {
            None => is_root(path@),
            Some(p) => !is_root(path@) && p@ == parent_seq(path@),
        },
{
    if path.len() == 1 {
        return None;
    }
    let ghost s = path@;
    let mut i: usize = path.len() - 1;
    while path[i] != SEP
        invariant
            is_canonical(s),
            path@ == s,
            s.len() >= 2,
            0 <= i < s.len(),
            forall|j: int| i < j < s.len() ==> s[j] != SEP,
        decreases i,
    {
        assert(i != 0) by {
            assert(s[0] == SEP);
        }
        i = i - 1;
    }
    proof {
        lemma_last_sep(s);
        assert(last_sep(s) == i as int) by {
            assert(s[i as int] == SEP);
            if last_sep(s) > i as int {
                assert(s[last_sep(s)] == SEP);
            }
        }
    }
    let cut: usize = if i == 0 { 1 } else { i };
    let mut p: Vec<u8> = Vec::new();
    let mut j: usize = 0;
    while j < cut
        invariant
            j <= cut,
            cut <= path@.len(),
            path@ == s,
            p@ == s.take(j as int),
        decreases cut - j,
    {
        let b = path[j];
        p.push(b);
        proof {
            assert(p@ =~= s.take(j + 1 as int));
        }
        j = j + 1;
    }
    assert(p@ == parent_seq(s));
    Some(p)
}

/// Whether `p` is a prefix of `s` ending on a component boundary.
pub fn is_path_prefix_of(p: &Vec<u8>, s: &Vec<u8>) -> (b: bool)
    ensures
        b == is_path_prefix(p@, s@),
{
    if p.len() > s.len() {
        return false;
    }
    let mut j: usize = 0;
    while j < p.len()
        invariant
            j <= p@.len() <= s@.len(),
            forall|k: int| 0 <= k < j ==> p@[k] == s@[k],
        decreases p@.len() - j,
    {
        if p[j] != s[j] {
            proof {
                if is_byte_prefix(p@, s@) {
                    assert(p@[j as int] == s@.take(p@.len() as int)[j as int]);
                }
            }
            return false;
        }
        j = j + 1;
    }
    proof {
        assert(p@ =~= s@.take(p@.len() as int));
    }
    if p.len() == s.len() {
        return true;
    }
    if p.len() > 0 && p[p.len() - 1] == SEP {
        return true;
    }
    if s[p.len()] == SEP {
        return true;
    }
    false
}

} // verus!
