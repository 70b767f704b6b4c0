//! The directory ensurer: guarantees that a destination directory exists,
//! creating every missing ancestor, and does nothing when the target path
//! already exists.
//!
//! The directories on disk are modelled as a set of paths, each path the
//! sequence of its components from the root.

use vstd::prelude::*;

verus! {

/// The non-empty prefixes of a path, shortest first: the path's ancestors,
/// then the path itself.
pub open spec fn path_prefixes(p: Seq<Seq<char>>) -> Seq<Seq<Seq<char>>> {
    Seq::new(p.len(), |i: int| p.take(i + 1))
}

/// The prefixes of `p` that are not in `dirs`, shortest first: what has to
/// be created for `p` to exist.
pub open spec fn missing_prefixes(dirs: Set<Seq<Seq<char>>>, p: Seq<Seq<char>>) -> Seq<
    Seq<Seq<char>>,
> {
    path_prefixes(p).filter(|q: Seq<Seq<char>>| !dirs.contains(q))
}

/// The directories that exist after the ensurer runs on `p`: unchanged when
/// the target already exists, else the target and all its ancestors added.
pub open spec fn ensure_dirs(dirs: Set<Seq<Seq<char>>>, p: Seq<Seq<char>>) -> Set<Seq<Seq<char>>> {
    if dirs.contains(p) {
        dirs
    } else {
        dirs + path_prefixes(p).to_set()
    }
}

/// The directories the ensurer creates when run on `p`: none when the
/// target already exists, else every missing prefix.
pub open spec fn ensure_created(dirs: Set<Seq<Seq<char>>>, p: Seq<Seq<char>>) -> Seq<
    Seq<Seq<char>>,
> {
    if dirs.contains(p) {
        Seq::empty()
    } else {
        missing_prefixes(dirs, p)
    }
}

/// Filtering keeps nothing when the predicate holds nowhere.
proof fn lemma_filter_none<A>(s: Seq<A>, pred: spec_fn(A) -> bool)
    requires
        forall|i: int| 0 <= i < s.len() ==> !pred(s[i]),
    ensures
        s.filter(pred) == Seq::<A>::empty(),
    decreases s.len(),
{
    reveal(Seq::filter);
    if s.len() > 0 {
        lemma_filter_none(s.drop_last(), pred);
    }
}

/// The ensurer is idempotent: a second run on the same path finds the
/// target present or nothing missing, creates nothing, and changes nothing.
pub proof fn lemma_ensure_idempotent(dirs: Set<Seq<Seq<char>>>, p: Seq<Seq<char>>)
    ensures
        ensure_dirs(ensure_dirs(dirs, p), p) == ensure_dirs(dirs, p),
        ensure_created(ensure_dirs(dirs, p), p) == Seq::<Seq<Seq<char>>>::empty(),
{
    let once = ensure_dirs(dirs, p);
    if p.len() > 0 {
        if !dirs.contains(p) {
            assert(path_prefixes(p)[p.len() - 1] == p.take(p.len() as int));
            assert(p.take(p.len() as int) =~= p);
            assert(path_prefixes(p).to_set().contains(p));
        }
        assert(once.contains(p));
    } else {
        assert(path_prefixes(p).len() == 0);
        if !dirs.contains(p) {
            assert(once =~= dirs + path_prefixes(p).to_set());
            assert(path_prefixes(p).to_set() =~= Set::<Seq<Seq<char>>>::empty());
            assert(once =~= dirs);
        }
        if !once.contains(p) {
            assert(ensure_dirs(once, p) =~= once);
            lemma_filter_none(
                path_prefixes(p),
                |q: Seq<Seq<char>>| !once.contains(q),
            );
        }
    }
}

/// The directories that exist, each path a vector of its components.
pub struct DirSet {
    dirs: Vec<Vec<String>>,
}

impl DirSet {
    /// The set of directory paths this value holds.
    pub closed spec fn view(&self) -> Set<Seq<Seq<char>>> {
        Set::new(
            |p: Seq<Seq<char>>|
                exists|i: int| 0 <= i < self.dirs@.len() && self.dirs@[i].deep_view() == p,
        )
    }

    /// No directory at all.
    pub fn new() -> (r: DirSet)
        ensures
            r@ == Set::<Seq<Seq<char>>>::empty(),
    {
        let r = DirSet { dirs: Vec::new() };
        proof {
            assert(r@ =~= Set::<Seq<Seq<char>>>::empty());
        }
        r
    }

    /// Whether the directory at `path` exists.
    pub fn contains_path(&self, path: &Vec<String>) -> (r: bool)
        ensures
            r == self@.contains(path.deep_view()),
    {
        let mut i: usize = 0;
        while i < self.dirs.len()
            invariant
                0 <= i <= self.dirs@.len(),
                forall|j: int| 0 <= j < i ==> self.dirs@[j].deep_view() != path.deep_view(),
            decreases self.dirs@.len() - i,
        {
            if path_eq(&self.dirs[i], path) {
                return true;
            }
            i += 1;
        }
        false
    }

    /// Creates the directory at `path` and every missing ancestor, unless
    /// the target path already exists, in which case nothing happens.
    /// Returns the paths actually created, shortest first.
    pub fn create_dir_recursively(&mut self, path: &Vec<String>) -> (created: Vec<Vec<String>>)
        ensures
            final(self)@ == ensure_dirs(old(self)@, path.deep_view()),
            created.deep_view() == ensure_created(old(self)@, path.deep_view()),
    {
        let ghost p = path.deep_view();
        let ghost dirs0 = self@;
        if self.contains_path(path) {
            let created: Vec<Vec<String>> = Vec::new();
            proof {
                assert(created.deep_view() =~= ensure_created(dirs0, p));
            }
            return created;
        }
        let mut created: Vec<Vec<String>> = Vec::new();
        let mut k: usize = 0;
        while k < path.len()
            invariant
                0 <= k <= path@.len(),
                p == path.deep_view(),
                p.len() == path@.len(),
                self@ =~= dirs0 + path_prefixes(p).take(k as int).to_set(),
                created.deep_view() == path_prefixes(p).take(k as int).filter(
                    |q: Seq<Seq<char>>| !dirs0.contains(q),
                ),
            decreases path@.len() - k,
        {
            broadcast use Seq::lemma_filter_push, Seq::lemma_push_to_set_commute;

            let mut pre: Vec<String> = Vec::new();
            let mut j: usize = 0;
            while j < k + 1
                invariant
                    0 <= j <= k + 1,
                    k < path.len(),
                    p == path.deep_view(),
                    p.len() == path@.len(),
                    pre.deep_view() =~= p.take(j as int),
                decreases k + 1 - j,
            {
                pre.push(path[j].clone());
                proof {
                    assert(pre.deep_view() =~= p.take(j as int).push(p[j as int]));
                    assert(p.take(j as int).push(p[j as int]) =~= p.take(j + 1 as int));
                }
                j += 1;
            }
            let ghost q = p.take(k + 1 as int);
            proof {
                assert(pre.deep_view() =~= q);
                assert(path_prefixes(p)[k as int] == q);
                // A freshly added prefix is shorter than `q`, so whether `q`
                // exists has not changed since the call began.
                assert forall|m: Seq<Seq<char>>|
                    path_prefixes(p).take(k as int).to_set().contains(m) implies m.len() < q.len()
                    by {
                    let n = choose|n: int|
                        0 <= n < k && path_prefixes(p).take(k as int)[n] == m;
                    assert(m == p.take(n + 1));
                }
                assert(self@.contains(q) == dirs0.contains(q));
                assert(path_prefixes(p).take(k + 1 as int) =~= path_prefixes(p).take(
                    k as int,
                ).push(q));
            }
            let exists_already = self.contains_path(&pre);
            if !exists_already {
                let pre2 = pre.clone();
                proof {
                    assert(pre2.deep_view() =~= pre.deep_view());
                }
                created.push(pre2);
                let ghost self0 = self@;
                self.push_dir(pre);
                proof {
                    assert(self@ =~= dirs0 + path_prefixes(p).take(k + 1 as int).to_set());
                }
            } else {
                proof {
                    assert(self@ =~= dirs0 + path_prefixes(p).take(k + 1 as int).to_set());
                }
            }
            proof {
                assert(created.deep_view() =~= path_prefixes(p).take(k + 1 as int).filter(
                    |q2: Seq<Seq<char>>| !dirs0.contains(q2),
                ));
            }
            k += 1;
        }
        proof {
            assert(path_prefixes(p).take(p.len() as int) =~= path_prefixes(p));
            assert(self@ =~= ensure_dirs(dirs0, p));
            assert(created.deep_view() == ensure_created(dirs0, p));
        }
        created
    }

    /// Adds one directory path.
    fn push_dir(&mut self, d: Vec<String>)
        ensures
            final(self)@ == old(self)@.insert(d.deep_view()),
    {
        self.dirs.push(d);
        proof {
            assert forall|q: Seq<Seq<char>>|
                self@.contains(q) == old(self)@.insert(d.deep_view()).contains(q) by {
                if self@.contains(q) {
                    let i = choose|i: int|
                        0 <= i < self.dirs@.len() && self.dirs@[i].deep_view() == q;
                    if i < self.dirs@.len() - 1 {
                        assert(old(self).dirs@[i].deep_view() == q);
                    }
                } else {
                    if old(self)@.contains(q) {
                        let i = choose|i: int|
                            0 <= i < old(self).dirs@.len() && old(self).dirs@[i].deep_view() == q;
                        assert(self.dirs@[i].deep_view() == q);
                    }
                    if q == d.deep_view() {
                        assert(self.dirs@[self.dirs@.len() - 1].deep_view() == q);
                    }
                }
            }
            assert(self@ =~= old(self)@.insert(d.deep_view()));
        }
    }
}

/// Whether two paths have the same components.
pub fn path_eq(a: &Vec<String>, b: &Vec<String>) -> (r: bool)
    ensures
        r == (a.deep_view() == b.deep_view()),
{
    if a.len() != b.len() {
        proof {
            assert(a.deep_view().len() != b.deep_view().len());
        }
        return false;
    }
    let mut i: usize = 0;
    while i < a.len()
        invariant
            0 <= i <= a@.len(),
            a@.len() == b@.len(),
            forall|j: int| 0 <= j < i ==> a@[j]@ == b@[j]@,
        decreases a@.len() - i,
    {
        if !a[i].eq(&b[i]) {
            proof {
                assert(a.deep_view()[i as int] != b.deep_view()[i as int]);
            }
            return false;
        }
        i += 1;
    }
    proof {
        assert(a.deep_view() =~= b.deep_view());
    }
    true
}

} // verus!
