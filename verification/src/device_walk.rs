//! The device-boundary walk: the portable Unix strategy.
//!
//! The strategy starts from a canonical path and repeatedly moves to the
//! parent directory, comparing device identifiers, until either the
//! filesystem root is reached or the parent lies on a different device; the
//! last path still on the starting device is the mount point.
//!
//! Reading a device identifier is a filesystem metadata call and therefore
//! the embedding application's job. The logic here comes in two forms with
//! one specification, [`walk_from`]:
//!
//! - [`find_mountpoint_pre_canonicalized`] takes the device identifiers of
//!   the path and of each of its ancestors, already read.
//! - [`Walker`] is the incremental form: the application asks which path to
//!   read next ([`Walker::next_query`]) and feeds back the identifier it
//!   read ([`Walker::advance`]), so that no identifier above the boundary
//!   is ever read.

use vstd::prelude::*;

use crate::canon::{
    copy_bytes, is_canonical, is_path_prefix, is_root, lemma_parent_of_canonical,
    lemma_path_prefix_trans, parent_of, parent_seq,
};
use crate::errors::Error;

verus! {

/// The result of the device-boundary walk from `p` when `d` is the device
/// identifier of `p` and `devs` records the identifiers of its ancestors:
/// the longest ancestor of `p` (or `p` itself) reached by moving parent by
/// parent while each parent is recorded with device `d`.
pub open spec fn walk_from(devs: Map<Seq<u8>, u64>, d: u64, p: Seq<u8>) -> Seq<u8>
    decreases p.len(),
{
    if !is_canonical(p) || is_root(p) {
        p
    } else if parent_seq(p).len() >= p.len() {
        // cannot arise for a canonical, non-root path
        p
    } else if !devs.contains_key(parent_seq(p)) || devs[parent_seq(p)] != d {
        p
    } else {
        walk_from(devs, d, parent_seq(p))
    }
}

/// The mount point of `p` under the device assignment `devs`.
pub open spec fn mountpoint_of(devs: Map<Seq<u8>, u64>, p: Seq<u8>) -> Seq<u8> {
    walk_from(devs, devs[p], p)
}

/// `m` extends `base`: `m` holds every key of `base`, with the same value.
pub open spec fn extends(m: Map<Seq<u8>, u64>, base: Map<Seq<u8>, u64>) -> bool {
    forall|k: Seq<u8>| #[trigger] base.contains_key(k) ==> m.contains_key(k) && m[k] == base[k]
}

/// `q` is `p` itself or an iterated parent of `p`.
pub open spec fn is_ancestor(q: Seq<u8>, p: Seq<u8>) -> bool
    decreases p.len(),
{
    q == p
        || (is_canonical(p) && !is_root(p) && parent_seq(p).len() < p.len()
            && is_ancestor(q, parent_seq(p)))
}

/// Prefix invariant: the walk's result is a non-empty, canonical prefix of
/// its input on a component boundary.
pub proof fn lemma_walk_prefix(devs: Map<Seq<u8>, u64>, d: u64, p: Seq<u8>)
    requires
        is_canonical(p),
    ensures
        is_canonical(walk_from(devs, d, p)),
        is_path_prefix(walk_from(devs, d, p), p),
        walk_from(devs, d, p).len() >= 1,
    decreases p.len(),
{
    assert(p =~= p.take(p.len() as int));
    if !is_root(p) {
        lemma_parent_of_canonical(p);
        let q = parent_seq(p);
        if devs.contains_key(q) && devs[q] == d {
            lemma_walk_prefix(devs, d, q);
            lemma_path_prefix_trans(walk_from(devs, d, q), q, p);
        }
    }
}

/// Where the walk stops: at its input or at a recorded ancestor on the same
/// device, and in either case no further step was possible.
pub proof fn lemma_walk_stop(devs: Map<Seq<u8>, u64>, d: u64, p: Seq<u8>)
    requires
        is_canonical(p),
    ensures
        walk_from(devs, d, p) == p
            || (devs.contains_key(walk_from(devs, d, p)) && devs[walk_from(devs, d, p)] == d),
        is_root(walk_from(devs, d, p))
            || !devs.contains_key(parent_seq(walk_from(devs, d, p)))
            || devs[parent_seq(walk_from(devs, d, p))] != d,
    decreases p.len(),
{
    if !is_root(p) {
        lemma_parent_of_canonical(p);
        let q = parent_seq(p);
        if devs.contains_key(q) && devs[q] == d {
            lemma_walk_stop(devs, d, q);
        }
    }
}

/// Idempotence: the mount point of a mount point is that mount point.
pub proof fn lemma_mountpoint_idempotent(devs: Map<Seq<u8>, u64>, p: Seq<u8>)
    requires
        is_canonical(p),
        devs.contains_key(p),
    ensures
        mountpoint_of(devs, mountpoint_of(devs, p)) == mountpoint_of(devs, p),
{
    let d = devs[p];
    let r = mountpoint_of(devs, p);
    lemma_walk_prefix(devs, d, p);
    lemma_walk_stop(devs, d, p);
    if r == p {
        assert(devs[r] == d);
    }
    if !is_root(r) {
        lemma_parent_of_canonical(r);
    }
}

/// Root case: the mount point of the filesystem root is the root itself.
pub proof fn lemma_mountpoint_root(devs: Map<Seq<u8>, u64>, p: Seq<u8>)
    requires
        is_root(p),
    ensures
        mountpoint_of(devs, p) == p,
{
}

/// The walk reads only the device identifiers of the input's ancestors: two
/// assignments that agree there walk to the same place.
pub proof fn lemma_walk_consistent(
    m1: Map<Seq<u8>, u64>,
    m2: Map<Seq<u8>, u64>,
    d: u64,
    p: Seq<u8>,
)
    requires
        is_canonical(p),
        forall|q: Seq<u8>| #[trigger] is_ancestor(q, p) ==> m1.contains_key(q)
            == m2.contains_key(q) && (m1.contains_key(q) ==> m1[q] == m2[q]),
    ensures
        walk_from(m1, d, p) == walk_from(m2, d, p),
    decreases p.len(),
{
    if !is_root(p) {
        lemma_parent_of_canonical(p);
        let q = parent_seq(p);
        assert(is_ancestor(q, q));
        assert(is_ancestor(q, p));
        if m1.contains_key(q) && m1[q] == d {
            assert forall|x: Seq<u8>| #[trigger] is_ancestor(x, q) implies m1.contains_key(x)
                == m2.contains_key(x) && (m1.contains_key(x) ==> m1[x] == m2[x]) by {
                assert(is_ancestor(x, p));
            }
            lemma_walk_consistent(m1, m2, d, q);
        }
    }
}

/// Consistency: two device assignments that agree on a path and its
/// ancestors give the path the same mount point.
pub proof fn lemma_mountpoint_consistent(
    m1: Map<Seq<u8>, u64>,
    m2: Map<Seq<u8>, u64>,
    p: Seq<u8>,
)
    requires
        is_canonical(p),
        m1.contains_key(p),
        forall|q: Seq<u8>| #[trigger] is_ancestor(q, p) ==> m1.contains_key(q)
            == m2.contains_key(q) && (m1.contains_key(q) ==> m1[q] == m2[q]),
    ensures
        mountpoint_of(m1, p) == mountpoint_of(m2, p),
{
    assert(is_ancestor(p, p));
    lemma_walk_consistent(m1, m2, m1[p], p);
}

/// Number of parent steps from `p` down to the root.
pub open spec fn depth(p: Seq<u8>) -> nat
    decreases p.len(),
{
    if !is_canonical(p) || is_root(p) || parent_seq(p).len() >= p.len() {
        0
    } else {
        1 + depth(parent_seq(p))
    }
}

/// The device assignment a vector of identifiers describes: `devs[i]` is
/// the identifier of `p`, `devs[i + 1]` of its parent, and so on up to the
/// root.
pub open spec fn chain_map(p: Seq<u8>, devs: Seq<u64>, i: int) -> Map<Seq<u8>, u64>
    decreases p.len(),
{
    if !(0 <= i < devs.len()) || !is_canonical(p) {
        Map::empty()
    } else if is_root(p) || parent_seq(p).len() >= p.len() {
        Map::<Seq<u8>, u64>::empty().insert(p, devs[i])
    } else {
        chain_map(parent_seq(p), devs, i + 1).insert(p, devs[i])
    }
}

/// What the chain assignment holds: `p` itself under `devs[i]`, and only
/// paths no longer than `p`.
pub proof fn lemma_chain_map_facts(p: Seq<u8>, devs: Seq<u64>, i: int)
    requires
        is_canonical(p),
        0 <= i < devs.len(),
    ensures
        chain_map(p, devs, i).contains_key(p),
        chain_map(p, devs, i)[p] == devs[i],
        forall|k: Seq<u8>| #[trigger] chain_map(p, devs, i).contains_key(k) ==> k.len() <= p.len(),
    decreases p.len(),
{
    if !(is_root(p) || parent_seq(p).len() >= p.len()) {
        lemma_parent_of_canonical(p);
        let q = parent_seq(p);
        if i + 1 < devs.len() {
            lemma_chain_map_facts(q, devs, i + 1);
        }
        assert forall|k: Seq<u8>| #[trigger] chain_map(p, devs, i).contains_key(k) implies k.len()
            <= p.len() by {
            if k != p {
                assert(chain_map(q, devs, i + 1).contains_key(k));
            }
        }
    }
}

/// Find the portion of a canonical path that is the mount point of the
/// volume containing it.
///
/// Besides the path, the caller supplies the device identifiers it read for
/// the path and for each of its ancestors up to the root: `devs[0]` for the
/// path itself, `devs[k]` for its `k`-th parent. (Reading an identifier is
/// a filesystem metadata call, the embedding application's job; a caller
/// that wants to stop reading at the boundary drives a [`Walker`] instead,
/// which computes the same walk.) The mount point is a non-empty prefix of
/// the path on a component boundary.
pub fn find_mountpoint_pre_canonicalized(path: &Vec<u8>, devs: &Vec<u64>) -> (r: Result<
    Vec<u8>,
    Error,
>)
    requires
        is_canonical(path@),
        devs@.len() == depth(path@) + 1,
    ensures
        match r {
            Ok(v) => {
                &&& v@ == mountpoint_of(chain_map(path@, devs@, 0), path@)
                &&& is_canonical(v@)
                &&& is_path_prefix(v@, path@)
                &&& v@.len() >= 1
            },
            Err(_) => false,
        },
{
    let ghost m = chain_map(path@, devs@, 0);
    proof {
        lemma_chain_map_facts(path@, devs@, 0);
    }
    let n: usize = devs.len();
    let mut w = Walker::new(path, devs[0]);
    let mut i: usize = 0;
    proof {
        assert(extends(m, w.observed())) by {
            assert(m.contains_key(path@) && m[path@] == devs@[0]);
        }
    }
    loop
        invariant
            is_canonical(path@),
            devs@.len() == depth(path@) + 1,
            devs@.len() == n,
            w.wf(),
            !w.is_finished(),
            w.input() == path@,
            w.start_dev() == devs@[0],
            is_canonical(w.current_path()),
            i + depth(w.current_path()) == depth(path@),
            extends(m, w.observed()),
            extends(m, chain_map(w.current_path(), devs@, i as int)),
            m == chain_map(path@, devs@, 0),
            m.contains_key(path@) && m[path@] == devs@[0],
        decreases depth(w.current_path()),
    {
        let next = w.next_query();
        match next {
            None => {
                let r = w.finish();
                proof {
                    assert(extends(m, w.observed()));
                    assert(walk_from(m, devs@[0], path@) == r@);
                }
                return Ok(r);
            },
            Some(q) => {
                let ghost cur = w.current_path();
                proof {
                    lemma_parent_of_canonical(cur);
                    assert(depth(cur) == 1 + depth(q@));
                    assert(i + 1 < devs@.len());
                    lemma_chain_map_facts(q@, devs@, i + 1 as int);
                    // the chain holds the parent under `devs[i + 1]`, and so
                    // does `m`
                    assert(chain_map(cur, devs@, i as int) == chain_map(q@, devs@, i + 1 as int)
                        .insert(cur, devs@[i as int]));
                    assert(chain_map(q@, devs@, i + 1 as int).contains_key(q@));
                    assert(q@.len() < cur.len());
                    assert(chain_map(cur, devs@, i as int).contains_key(q@)
                        && chain_map(cur, devs@, i as int)[q@] == devs@[i + 1 as int]);
                    assert(m.contains_key(q@) && m[q@] == devs@[i + 1 as int]);
                }
                let dev_parent = devs[i + 1];
                let ghost ob0 = w.observed();
                match w.advance(dev_parent) {
                    Some(r) => {
                        proof {
                            assert(extends(m, w.observed())) by {
                                assert forall|k: Seq<u8>| #[trigger] w.observed().contains_key(k)
                                    implies m.contains_key(k) && m[k] == w.observed()[k] by {
                                    if k != q@ {
                                        assert(ob0.contains_key(k));
                                    }
                                }
                            }
                            assert(walk_from(m, devs@[0], path@) == r@);
                        }
                        return Ok(r);
                    },
                    None => {
                        proof {
                            assert(extends(m, w.observed())) by {
                                assert forall|k: Seq<u8>| #[trigger] w.observed().contains_key(k)
                                    implies m.contains_key(k) && m[k] == w.observed()[k] by {
                                    if k != q@ {
                                        assert(ob0.contains_key(k));
                                    }
                                }
                            }
                            assert(extends(m, chain_map(q@, devs@, i + 1 as int))) by {
                                assert forall|k: Seq<u8>| #[trigger] chain_map(
                                    q@,
                                    devs@,
                                    i + 1 as int,
                                ).contains_key(k) implies m.contains_key(k) && m[k] == chain_map(
                                    q@,
                                    devs@,
                                    i + 1 as int,
                                )[k] by {
                                    assert(k.len() <= q@.len() < cur.len());
                                    assert(chain_map(cur, devs@, i as int).contains_key(k)
                                        && chain_map(cur, devs@, i as int)[k] == chain_map(
                                        q@,
                                        devs@,
                                        i + 1 as int,
                                    )[k]);
                                }
                            }
                        }
                        i = i + 1;
                    },
                }
            },
        }
    }
}

/// Find the mount point of the volume containing a path.
///
/// The full operation canonicalizes its input first; canonicalization
/// resolves symbolic links and relative segments against the filesystem and
/// is therefore the embedding application's step. This function takes the
/// canonical form it produced, together with the device identifiers of the
/// path and its ancestors, and returns an owned path. It returns exactly
/// what [`find_mountpoint_pre_canonicalized`] returns on the same
/// arguments: resolving through the canonical form loses nothing.
pub fn find_mountpoint(canonical: &Vec<u8>, devs: &Vec<u64>) -> (r: Result<Vec<u8>, Error>)
    requires
        is_canonical(canonical@),
        devs@.len() == depth(canonical@) + 1,
    ensures
        match r {
            Ok(v) => {
                &&& v@ == mountpoint_of(chain_map(canonical@, devs@, 0), canonical@)
                &&& is_canonical(v@)
                &&& is_path_prefix(v@, canonical@)
                &&& v@.len() >= 1
            },
            Err(_) => false,
        },
{
    find_mountpoint_pre_canonicalized(canonical, devs)
}

/// The incremental device-boundary walk.
///
/// The application creates a `Walker` from a canonical path and the device
/// identifier it read for it, then alternates [`Walker::next_query`] (which
/// path to read next) with [`Walker::advance`] (the identifier that was
/// read), and takes the mount point from [`Walker::advance`] or, at the
/// root, from [`Walker::finish`].
pub struct Walker {
    start_dev: u64,
    current: Vec<u8>,
    finished: bool,
    input: Ghost<Seq<u8>>,
    observed: Ghost<Map<Seq<u8>, u64>>,
}

impl Walker {
    /// The canonical path the walk started from.
    pub closed spec fn input(self) -> Seq<u8> {
        self.input@
    }

    /// The device identifier of the starting path.
    pub closed spec fn start_dev(self) -> u64 {
        self.start_dev
    }

    /// Every device identifier fed to the walk so far, by path.
    pub closed spec fn observed(self) -> Map<Seq<u8>, u64> {
        self.observed@
    }

    /// The ancestor the walk stands at.
    pub closed spec fn current_path(self) -> Seq<u8> {
        self.current@
    }

    /// Whether the walk has found the mount point.
    pub closed spec fn is_finished(self) -> bool {
        self.finished
    }

    /// Internal consistency of the walk's state.
    pub closed spec fn wf(self) -> bool {
        &&& is_canonical(self.input@)
        &&& is_canonical(self.current@)
        &&& is_path_prefix(self.current@, self.input@)
        &&& self.current@.len() >= 1
        &&& self.observed@.contains_key(self.input@)
        &&& self.observed@[self.input@] == self.start_dev
        &&& (!self.finished ==> forall|k: Seq<u8>|
            #[trigger] self.observed@.contains_key(k) ==> k.len() >= self.current@.len())
        &&& forall|m: Map<Seq<u8>, u64>| #[trigger] extends(m, self.observed@) ==> walk_from(
            m,
            self.start_dev,
            self.input@,
        ) == walk_from(m, self.start_dev, self.current@)
        &&& (self.finished ==> forall|m: Map<Seq<u8>, u64>| #[trigger] extends(m, self.observed@)
            ==> walk_from(m, self.start_dev, self.input@) == self.current@)
    }

    /// Start a walk at a canonical path whose device identifier is `dev`.
    pub fn new(path: &Vec<u8>, dev: u64) -> (w: Walker)
        requires
            is_canonical(path@),
        ensures
            w.wf(),
            !w.is_finished(),
            w.input() == path@,
            w.start_dev() == dev,
            w.current_path() == path@,
            w.observed() == Map::<Seq<u8>, u64>::empty().insert(path@, dev),
    {
        let current = copy_bytes(path);
        let w = Walker {
            start_dev: dev,
            current,
            finished: false,
            input: Ghost(path@),
            observed: Ghost(Map::<Seq<u8>, u64>::empty().insert(path@, dev)),
        };
        proof {
            assert(path@ =~= path@.take(path@.len() as int));
        }
        w
    }

    /// The next path whose device identifier the walk needs, or `None` when
    /// the walk stands at the root (then the root is the mount point; take
    /// it from [`Walker::finish`]).
    pub fn next_query(&self) -> (r: Option<Vec<u8>>)
        requires
            self.wf(),
            !self.is_finished(),
        ensures
            match r {
                None => is_root(self.current_path()),
                Some(q) => !is_root(self.current_path()) && q@ == parent_seq(
                    self.current_path(),
                ),
            },
    {
        parent_of(&self.current)
    }

    /// Feed back the device identifier read for the path [`Walker::next_query`]
    /// returned. On the starting device the walk moves up and goes on
    /// (`None`); on another device the boundary is found and the path the
    /// walk stood at is the mount point (`Some`).
    pub fn advance(&mut self, dev: u64) -> (done: Option<Vec<u8>>)
        requires
            old(self).wf(),
            !old(self).is_finished(),
            !is_root(old(self).current_path()),
        ensures
            final(self).wf(),
            final(self).input() == old(self).input(),
            final(self).start_dev() == old(self).start_dev(),
            final(self).observed() == old(self).observed().insert(
                parent_seq(old(self).current_path()),
                dev,
            ),
            match done {
                None => {
                    &&& dev == old(self).start_dev()
                    &&& !final(self).is_finished()
                    &&& final(self).current_path() == parent_seq(old(self).current_path())
                },
                Some(r) => {
                    &&& dev != old(self).start_dev()
                    &&& final(self).is_finished()
                    &&& r@ == old(self).current_path()
                    &&& final(self).current_path() == r@
                    &&& is_canonical(r@)
                    &&& is_path_prefix(r@, final(self).input())
                    &&& r@.len() >= 1
                    &&& forall|m: Map<Seq<u8>, u64>| #[trigger] extends(m, final(self).observed())
                        ==> walk_from(m, final(self).start_dev(), final(self).input()) == r@
                },
            },
    {
        let q = match parent_of(&self.current) {
            Some(q) => q,
            None => Vec::new(),
        };
        let ghost ob0 = self.observed@;
        let ghost cur0 = self.current@;
        let ghost d = self.start_dev;
        let ghost inp = self.input@;
        let ghost ob1 = ob0.insert(q@, dev);
        proof {
            lemma_parent_of_canonical(cur0);
            assert(!ob0.contains_key(q@)) by {
                if ob0.contains_key(q@) {
                    assert(q@.len() >= cur0.len());
                }
            }
            assert forall|m: Map<Seq<u8>, u64>| #[trigger] extends(m, ob1) implies extends(
                m,
                ob0,
            ) by {
                assert forall|k: Seq<u8>| #[trigger] ob0.contains_key(k) implies m.contains_key(k)
                    && m[k] == ob0[k] by {
                    assert(ob1.contains_key(k) && ob1[k] == ob0[k]);
                }
            }
        }
        self.observed = Ghost(ob1);
        if dev != self.start_dev {
            self.finished = true;
            proof {
                assert forall|m: Map<Seq<u8>, u64>| #[trigger] extends(m, ob1) implies walk_from(
                    m,
                    d,
                    inp,
                ) == cur0 by {
                    assert(extends(m, ob0));
                    assert(walk_from(m, d, inp) == walk_from(m, d, cur0));
                    assert(ob1.contains_key(q@) && ob1[q@] == dev);
                    assert(m.contains_key(q@) && m[q@] == dev);
                }
            }
            Some(copy_bytes(&self.current))
        } else {
            self.current = q;
            proof {
                assert forall|m: Map<Seq<u8>, u64>| #[trigger] extends(m, ob1) implies walk_from(
                    m,
                    d,
                    inp,
                ) == walk_from(m, d, self.current@) by {
                    assert(extends(m, ob0));
                    assert(walk_from(m, d, inp) == walk_from(m, d, cur0));
                    assert(ob1.contains_key(self.current@) && ob1[self.current@] == d);
                    assert(m.contains_key(self.current@) && m[self.current@] == d);
                }
                lemma_path_prefix_trans(self.current@, cur0, inp);
            }
            None
        }
    }

    /// The mount point, once the walk stands at the root: the root itself.
    pub fn finish(&mut self) -> (r: Vec<u8>)
        requires
            old(self).wf(),
            !old(self).is_finished(),
            is_root(old(self).current_path()),
        ensures
            final(self).wf(),
            final(self).is_finished(),
            final(self).input() == old(self).input(),
            final(self).start_dev() == old(self).start_dev(),
            final(self).observed() == old(self).observed(),
            r@ == old(self).current_path(),
            is_canonical(r@),
            is_path_prefix(r@, final(self).input()),
            r@.len() >= 1,
            forall|m: Map<Seq<u8>, u64>| #[trigger] extends(m, final(self).observed())
                ==> walk_from(m, final(self).start_dev(), final(self).input()) == r@,
    {
        self.finished = true;
        copy_bytes(&self.current)
    }
}

} // verus!
