//! The pruner: deletes every directory that is empty once its own
//! descendants have been pruned, bottom-up, never touching the root.

use vstd::prelude::*;

use crate::paths::join;
use crate::paths::join_path;
use crate::paths::path_models;
use crate::tree::FsTree;
use crate::tree::Node;
use crate::tree::lemma_model_seq;
use crate::tree::lemma_model_seq_push;

verus! {

/// Whether this entry is a directory with no entries at all.
pub open spec fn is_empty_dir(t: FsTree) -> bool {
    match t {
        FsTree::File { .. } => false,
        FsTree::Dir { entries, .. } => entries.len() == 0,
    }
}

/// One entry after pruning: a file is unchanged, a directory keeps its name
/// and has its own entries pruned.
pub open spec fn prune_node(t: FsTree) -> FsTree
    decreases t, 0int,
{
    match t {
        FsTree::File { name } => FsTree::File { name },
        FsTree::Dir { name, entries } => FsTree::Dir { name, entries: prune_entries(entries) },
    }
}

/// What one entry leaves behind: itself pruned, unless it is a directory
/// that is empty once pruned, which is dropped.
pub open spec fn prune_one(t: FsTree) -> Seq<FsTree>
    decreases t, 1int,
{
    if is_empty_dir(prune_node(t)) {
        Seq::empty()
    } else {
        seq![prune_node(t)]
    }
}

/// A directory's entries after pruning, in entry order.
pub open spec fn prune_entries(es: Seq<FsTree>) -> Seq<FsTree>
    decreases es, 2int,
{
    if es.len() == 0 {
        Seq::empty()
    } else {
        prune_one(es[0]) + prune_entries(es.drop_first())
    }
}

/// The full paths of the directories that pruning deletes under one entry of
/// the directory whose full path is `dir`, each directory's descendants
/// before the directory itself (the order in which they can be removed).
pub open spec fn deleted_node(t: FsTree, dir: Seq<char>) -> Seq<Seq<char>>
    decreases t, 0int,
{
    match t {
        FsTree::File { .. } => Seq::empty(),
        FsTree::Dir { name, entries } => {
            let below = deleted_entries(entries, join(dir, name));
            if prune_entries(entries).len() == 0 {
                below.push(join(dir, name))
            } else {
                below
            }
        },
    }
}

/// The full paths of the directories that pruning deletes under a
/// directory's entries, in traversal order.
pub open spec fn deleted_entries(es: Seq<FsTree>, dir: Seq<char>) -> Seq<Seq<char>>
    decreases es, 1int,
{
    if es.len() == 0 {
        Seq::empty()
    } else {
        deleted_node(es[0], dir) + deleted_entries(es.drop_first(), dir)
    }
}

/// Pruning distributes over appending one entry at the end.
pub proof fn lemma_prune_entries_push(es: Seq<FsTree>, e: FsTree)
    ensures
        prune_entries(es.push(e)) == prune_entries(es) + prune_one(e),
    decreases es.len(),
{
    if es.len() == 0 {
        assert(es.push(e)[0] == e);
        assert(es.push(e).drop_first() =~= es);
        assert(prune_entries(es.push(e)) =~= prune_entries(es) + prune_one(e));
    } else {
        assert(es.push(e)[0] == es[0]);
        assert(es.push(e).drop_first() =~= es.drop_first().push(e));
        lemma_prune_entries_push(es.drop_first(), e);
        assert(prune_entries(es.push(e)) =~= prune_entries(es) + prune_one(e));
    }
}

/// Deletion paths distribute over appending one entry at the end.
pub proof fn lemma_deleted_entries_push(es: Seq<FsTree>, e: FsTree, dir: Seq<char>)
    ensures
        deleted_entries(es.push(e), dir) == deleted_entries(es, dir) + deleted_node(e, dir),
    decreases es.len(),
{
    if es.len() == 0 {
        assert(es.push(e)[0] == e);
        assert(es.push(e).drop_first() =~= es);
        assert(deleted_entries(es.push(e), dir) =~= deleted_entries(es, dir) + deleted_node(
            e,
            dir,
        ));
    } else {
        assert(es.push(e)[0] == es[0]);
        assert(es.push(e).drop_first() =~= es.drop_first().push(e));
        lemma_deleted_entries_push(es.drop_first(), e, dir);
        assert(deleted_entries(es.push(e), dir) =~= deleted_entries(es, dir) + deleted_node(
            e,
            dir,
        ));
    }
}

/// Whether this entry is, or contains anywhere below it, an empty directory.
pub open spec fn has_empty_dir_node(t: FsTree) -> bool
    decreases t, 0int,
{
    match t {
        FsTree::File { .. } => false,
        FsTree::Dir { entries, .. } => entries.len() == 0 || has_empty_dir_entries(entries),
    }
}

/// Whether any entry of a directory is, or contains, an empty directory.
pub open spec fn has_empty_dir_entries(es: Seq<FsTree>) -> bool
    decreases es, 1int,
{
    if es.len() == 0 {
        false
    } else {
        has_empty_dir_node(es[0]) || has_empty_dir_entries(es.drop_first())
    }
}

/// Containing an empty directory distributes over concatenation.
pub proof fn lemma_has_empty_concat(a: Seq<FsTree>, b: Seq<FsTree>)
    ensures
        has_empty_dir_entries(a + b) == (has_empty_dir_entries(a) || has_empty_dir_entries(b)),
    decreases a.len(),
{
    if a.len() == 0 {
        assert(a + b =~= b);
    } else {
        assert((a + b)[0] == a[0]);
        assert((a + b).drop_first() =~= a.drop_first() + b);
        lemma_has_empty_concat(a.drop_first(), b);
    }
}

/// In a pruned entry, the only empty directory that can remain is the entry
/// itself (which its parent then drops).
pub proof fn lemma_prune_node_no_empty(t: FsTree)
    ensures
        has_empty_dir_node(prune_node(t)) ==> is_empty_dir(prune_node(t)),
    decreases t, 0int,
{
    match t {
        FsTree::File { .. } => {},
        FsTree::Dir { name, entries } => {
            lemma_prune_no_empty_dirs(entries);
        },
    }
}

/// Pruning leaves no empty directory anywhere among a directory's entries:
/// every directory that would be empty has itself been deleted.
pub proof fn lemma_prune_no_empty_dirs(es: Seq<FsTree>)
    ensures
        !has_empty_dir_entries(prune_entries(es)),
    decreases es, 1int,
{
    if es.len() > 0 {
        let pn = prune_node(es[0]);
        let rest = prune_entries(es.drop_first());
        lemma_prune_node_no_empty(es[0]);
        lemma_prune_no_empty_dirs(es.drop_first());
        if is_empty_dir(pn) {
            assert(prune_one(es[0]) =~= Seq::<FsTree>::empty());
            assert(Seq::<FsTree>::empty() + rest =~= rest);
        } else {
            assert(prune_one(es[0]) =~= seq![pn]);
            lemma_has_empty_concat(seq![pn], rest);
            assert(seq![pn][0] == pn);
            assert(seq![pn].drop_first() =~= Seq::<FsTree>::empty());
            assert(!has_empty_dir_entries(Seq::<FsTree>::empty()));
            assert(!has_empty_dir_entries(seq![pn]));
        }
    }
}

/// Pruning one entry twice is the same as pruning it once.
pub proof fn lemma_prune_node_idempotent(t: FsTree)
    ensures
        prune_node(prune_node(t)) == prune_node(t),
    decreases t, 0int,
{
    match t {
        FsTree::File { .. } => {},
        FsTree::Dir { name, entries } => {
            lemma_prune_idempotent(entries);
        },
    }
}

/// Pruning is idempotent: pruning already-pruned entries changes nothing.
pub proof fn lemma_prune_idempotent(es: Seq<FsTree>)
    ensures
        prune_entries(prune_entries(es)) == prune_entries(es),
    decreases es, 1int,
{
    if es.len() > 0 {
        let pn = prune_node(es[0]);
        let rest = prune_entries(es.drop_first());
        lemma_prune_node_idempotent(es[0]);
        lemma_prune_idempotent(es.drop_first());
        if is_empty_dir(pn) {
            assert(prune_one(es[0]) =~= Seq::<FsTree>::empty());
            assert(prune_entries(es) =~= rest);
        } else {
            assert(prune_one(es[0]) =~= seq![pn]);
            assert(prune_entries(es) =~= seq![pn] + rest);
            assert((seq![pn] + rest)[0] == pn);
            assert((seq![pn] + rest).drop_first() =~= rest);
            assert(prune_one(pn) =~= seq![pn]);
            assert(prune_entries(seq![pn] + rest) =~= seq![pn] + prune_entries(rest));
            assert(prune_entries(prune_entries(es)) =~= prune_entries(es));
        }
    }
}

/// Deletion paths distribute over concatenation.
pub proof fn lemma_deleted_concat(a: Seq<FsTree>, b: Seq<FsTree>, dir: Seq<char>)
    ensures
        deleted_entries(a + b, dir) == deleted_entries(a, dir) + deleted_entries(b, dir),
    decreases a.len(),
{
    if a.len() == 0 {
        assert(a + b =~= b);
        assert(deleted_entries(a, dir) + deleted_entries(b, dir) =~= deleted_entries(b, dir));
    } else {
        assert((a + b)[0] == a[0]);
        assert((a + b).drop_first() =~= a.drop_first() + b);
        lemma_deleted_concat(a.drop_first(), b, dir);
        assert(deleted_entries(a + b, dir) =~= deleted_entries(a, dir) + deleted_entries(b, dir));
    }
}

/// A pruned entry that is not itself an empty directory has nothing left for
/// a second prune to delete.
pub proof fn lemma_prune_node_deletes_once(t: FsTree, dir: Seq<char>)
    ensures
        !is_empty_dir(prune_node(t)) ==> deleted_node(prune_node(t), dir) == Seq::<
            Seq<char>,
        >::empty(),
    decreases t, 0int,
{
    match t {
        FsTree::File { .. } => {},
        FsTree::Dir { name, entries } => {
            let pe = prune_entries(entries);
            if pe.len() != 0 {
                lemma_prune_idempotent(entries);
                lemma_prune_deletes_once(entries, join(dir, name));
            }
        },
    }
}

/// A second run of the pruner deletes nothing: pruned entries contain no
/// directory that pruning would delete.
pub proof fn lemma_prune_deletes_once(es: Seq<FsTree>, dir: Seq<char>)
    ensures
        deleted_entries(prune_entries(es), dir) == Seq::<Seq<char>>::empty(),
    decreases es, 1int,
{
    if es.len() == 0 {
        assert(deleted_entries(prune_entries(es), dir) =~= Seq::<Seq<char>>::empty());
    } else {
        let pn = prune_node(es[0]);
        let rest = prune_entries(es.drop_first());
        lemma_prune_node_deletes_once(es[0], dir);
        lemma_prune_deletes_once(es.drop_first(), dir);
        lemma_deleted_concat(prune_one(es[0]), rest, dir);
        if is_empty_dir(pn) {
            assert(prune_one(es[0]) =~= Seq::<FsTree>::empty());
            assert(deleted_entries(prune_one(es[0]), dir) =~= Seq::<Seq<char>>::empty());
        } else {
            assert(prune_one(es[0]) =~= seq![pn]);
            assert(seq![pn][0] == pn);
            assert(seq![pn].drop_first() =~= Seq::<FsTree>::empty());
            assert(deleted_entries(Seq::<FsTree>::empty(), dir) =~= Seq::<Seq<char>>::empty());
            assert(deleted_entries(seq![pn], dir) =~= deleted_node(pn, dir));
            assert(deleted_entries(prune_one(es[0]), dir) =~= Seq::<Seq<char>>::empty());
        }
        assert(deleted_entries(prune_entries(es), dir) =~= Seq::<Seq<char>>::empty());
    }
}

/// Prunes the entries of the directory whose full path is `dir_path`,
/// bottom-up: a directory is deleted exactly when it is empty once its own
/// descendants have been pruned. Returns the entries that remain and the
/// full paths of the deleted directories, each directory's descendants
/// listed before the directory itself. The root directory itself is never
/// deleted.
pub fn delete_empty_dirs_recursively(entries: &Vec<Node>, dir_path: &String) -> (r: (
    Vec<Node>,
    Vec<String>,
))
    ensures
        Node::model_seq(r.0@) == prune_entries(Node::model_seq(entries@)),
        path_models(r.1@) == deleted_entries(Node::model_seq(entries@), dir_path@),
    decreases entries@,
{
    let ghost ms = Node::model_seq(entries@);
    proof {
        lemma_model_seq(entries@);
    }
    let mut kept: Vec<Node> = Vec::new();
    let mut deleted: Vec<String> = Vec::new();
    let mut i: usize = 0;
    while i < entries.len()
        invariant
            0 <= i <= entries.len(),
            ms == Node::model_seq(entries@),
            ms.len() == entries@.len(),
            forall|j: int| 0 <= j < entries@.len() ==> ms[j] == #[trigger] entries@[j].model(),
            Node::model_seq(kept@) == prune_entries(ms.take(i as int)),
            path_models(deleted@) == deleted_entries(ms.take(i as int), dir_path@),
        decreases entries@.len() - i,
    {
        let ghost kept_old = kept@;
        let ghost deleted_old = deleted@;
        let e = &entries[i];
        match e {
            Node::File { name } => {
                proof {
                    assert(*e == entries@[i as int]);
                    assert(ms[i as int] == entries@[i as int].model());
                    assert(ms[i as int] == FsTree::File { name: name@ });
                }
                let kn = Node::File { name: name.clone() };
                proof {
                    lemma_model_seq_push(kept_old, kn);
                    assert(prune_one(ms[i as int]) =~= seq![kn.model()]);
                }
                kept.push(kn);
                proof {
                    assert(deleted_node(ms[i as int], dir_path@) =~= Seq::<Seq<char>>::empty());
                    assert(path_models(deleted@) =~= path_models(deleted_old) + deleted_node(
                        ms[i as int],
                        dir_path@,
                    ));
                }
            },
            Node::Dir { name, entries: sub } => {
                proof {
                    assert(*e == entries@[i as int]);
                    assert(ms[i as int] == entries@[i as int].model());
                    assert(ms[i as int] == FsTree::Dir {
                        name: name@,
                        entries: Node::model_seq(sub@),
                    });
                    assert(decreases_to!(entries@ => entries@[i as int]));
                    assert(decreases_to!(entries@[i as int] => *sub));
                    assert(decreases_to!(*sub => sub@));
                }
                let p = join_path(dir_path, name);
                let (ksub, mut dsub) = delete_empty_dirs_recursively(sub, &p);
                let ghost dsub_old = dsub@;
                proof {
                    lemma_model_seq(ksub@);
                }
                deleted.append(&mut dsub);
                if ksub.len() == 0 {
                    proof {
                        assert(prune_entries(Node::model_seq(sub@)).len() == 0);
                        assert(is_empty_dir(prune_node(ms[i as int])));
                        assert(prune_one(ms[i as int]) =~= Seq::<FsTree>::empty());
                    }
                    deleted.push(p);
                    proof {
                        assert(deleted_node(ms[i as int], dir_path@) =~= deleted_entries(
                            Node::model_seq(sub@),
                            join(dir_path@, name@),
                        ).push(join(dir_path@, name@)));
                        assert(path_models(deleted@) =~= path_models(deleted_old) + deleted_node(
                            ms[i as int],
                            dir_path@,
                        ));
                        assert(Node::model_seq(kept@) =~= prune_entries(ms.take(i as int))
                            + prune_one(ms[i as int]));
                    }
                } else {
                    let kn = Node::Dir { name: name.clone(), entries: ksub };
                    proof {
                        assert(prune_entries(Node::model_seq(sub@)).len() != 0);
                        assert(!is_empty_dir(prune_node(ms[i as int])));
                        lemma_model_seq_push(kept_old, kn);
                        assert(prune_one(ms[i as int]) =~= seq![kn.model()]);
                    }
                    kept.push(kn);
                    proof {
                        assert(deleted_node(ms[i as int], dir_path@) =~= deleted_entries(
                            Node::model_seq(sub@),
                            join(dir_path@, name@),
                        ));
                        assert(path_models(deleted@) =~= path_models(deleted_old) + deleted_node(
                            ms[i as int],
                            dir_path@,
                        ));
                    }
                }
            },
        }
        proof {
            lemma_prune_entries_push(ms.take(i as int), ms[i as int]);
            lemma_deleted_entries_push(ms.take(i as int), ms[i as int], dir_path@);
            assert(ms.take(i as int + 1) =~= ms.take(i as int).push(ms[i as int]));
            assert(Node::model_seq(kept@) =~= prune_entries(ms.take(i as int + 1)));
            assert(path_models(deleted@) =~= deleted_entries(ms.take(i as int + 1), dir_path@));
        }
        i += 1;
    }
    proof {
        assert(ms.take(entries@.len() as int) =~= ms);
    }
    (kept, deleted)
}

} // verus!

