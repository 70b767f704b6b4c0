//! Path strings: a directory entry's full path is its directory's path, a
//! separator, and the entry's own name.

use vstd::prelude::*;
use vstd::string::StringExecFns;

verus! {

/// The full path of an entry named `name` inside the directory whose own
/// full path is `dir`.
pub open spec fn join(dir: Seq<char>, name: Seq<char>) -> Seq<char> {
    dir + seq!['/'] + name
}

/// A usable entry name: non-empty, and free of the path separator.
pub open spec fn valid_name(n: Seq<char>) -> bool {
    n.len() > 0 && !n.contains('/')
}

/// Whether `p` is the path `base` itself, or the path of something that
/// lies below `base`: `base` followed by a separator and more.
pub open spec fn rooted_at(p: Seq<char>, base: Seq<char>) -> bool {
    &&& p.len() >= base.len()
    &&& p.take(base.len() as int) == base
    &&& p.len() > base.len() ==> p[base.len() as int] == '/'
}

/// Whether the path `p` ends with a separator followed by the name `n`:
/// `n` is the path's last component.
pub open spec fn ends_with_name(p: Seq<char>, n: Seq<char>) -> bool {
    &&& p.len() > n.len()
    &&& p.skip((p.len() - n.len()) as int) == n
    &&& p[p.len() - n.len() - 1] == '/'
}

/// An entry's path ends with the entry's name.
pub proof fn lemma_join_ends_with_name(dir: Seq<char>, n: Seq<char>)
    ensures
        ends_with_name(join(dir, n), n),
{
    let p = join(dir, n);
    assert(p.skip((p.len() - n.len()) as int) =~= n);
    assert(p[p.len() - n.len() - 1] == '/');
}

/// An entry's path lies below its directory's path.
pub proof fn lemma_join_rooted(base: Seq<char>, n: Seq<char>)
    ensures
        rooted_at(join(base, n), base),
        join(base, n).len() > base.len(),
{
    assert(join(base, n).take(base.len() as int) =~= base);
    assert(join(base, n)[base.len() as int] == '/');
}

/// Lying below a path below `b` is lying below `b`.
pub proof fn lemma_rooted_trans(p: Seq<char>, c: Seq<char>, b: Seq<char>)
    requires
        rooted_at(p, c),
        rooted_at(c, b),
    ensures
        rooted_at(p, b),
{
    assert(p.take(b.len() as int) =~= b);
    if p.len() > b.len() {
        if c.len() > b.len() {
            assert(p[b.len() as int] == c[b.len() as int]);
        } else {
            assert(c =~= b);
        }
    }
}

/// Helper for `lemma_rooted_disjoint`, with the shorter name first.
proof fn lemma_rooted_disjoint_ordered(dir: Seq<char>, n1: Seq<char>, n2: Seq<char>, p: Seq<char>)
    requires
        valid_name(n1),
        valid_name(n2),
        n1 != n2,
        n1.len() <= n2.len(),
    ensures
        !(rooted_at(p, join(dir, n1)) && rooted_at(p, join(dir, n2))),
{
    let j1 = join(dir, n1);
    let j2 = join(dir, n2);
    let b = dir.len() + 1;
    if rooted_at(p, j1) && rooted_at(p, j2) {
        if n1.len() == n2.len() {
            assert(p.take(j1.len() as int) == j1);
            assert(p.take(j2.len() as int) == j2);
            assert(j1 == j2);
            assert forall|m: int| 0 <= m < n1.len() implies n1[m] == n2[m] by {
                assert(j1[b + m] == n1[m]);
                assert(j2[b + m] == n2[m]);
            }
            assert(n1 =~= n2);
        } else {
            let idx = j1.len() as int;
            assert(j2.len() > idx);
            assert(p.len() >= j2.len());
            assert(p[idx] == p.take(j2.len() as int)[idx]);
            assert(p.take(j2.len() as int)[idx] == j2[idx]);
            assert(j2[idx] == n2[idx - b]);
            assert(p[idx] == '/');
            assert(n2.contains('/')) by {
                assert(n2[idx - b] == '/');
            }
        }
        assert(false);
    }
}

/// Two different names in one directory root disjoint subtrees: no path
/// lies below both.
pub proof fn lemma_rooted_disjoint(dir: Seq<char>, n1: Seq<char>, n2: Seq<char>, p: Seq<char>)
    requires
        valid_name(n1),
        valid_name(n2),
        n1 != n2,
    ensures
        !(rooted_at(p, join(dir, n1)) && rooted_at(p, join(dir, n2))),
{
    if n1.len() <= n2.len() {
        lemma_rooted_disjoint_ordered(dir, n1, n2, p);
    } else {
        lemma_rooted_disjoint_ordered(dir, n2, n1, p);
    }
}

/// The views of a sequence of path strings, in order.
pub open spec fn path_models(s: Seq<String>) -> Seq<Seq<char>> {
    Seq::new(s.len(), |i: int| s[i]@)
}

/// Builds the full path of an entry: `dir`, a separator, `name`.
pub fn join_path(dir: &String, name: &String) -> (r: String)
    ensures
        r@ == join(dir@, name@),
{
    let mut r: String = dir.clone();
    r.append("/");
    r.append(name.as_str());
    proof {
        reveal_strlit("/");
        assert(r@ =~= join(dir@, name@));
    }
    r
}

} // verus!
