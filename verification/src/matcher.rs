//! The matcher: walks a directory tree depth-first and collects every file
//! whose full path string matches the pattern.

use vstd::prelude::*;

use crate::paths::join;
use crate::paths::ends_with_name;
use crate::paths::join_path;
use crate::paths::lemma_join_ends_with_name;
use crate::paths::lemma_join_rooted;
use crate::paths::lemma_rooted_disjoint;
use crate::paths::lemma_rooted_trans;
use crate::paths::rooted_at;
use crate::pattern::Pattern;
use crate::pattern::pattern_is_match;
use crate::pattern::regex_matches;
use crate::tree::FsTree;
use crate::tree::Node;
use crate::tree::lemma_model_seq;
use crate::tree::lemma_wf_node_valid_name;
use crate::tree::node_name;
use crate::tree::wf_entries;
use crate::tree::wf_node;

verus! {

/// A matched file: its full path, and its own name (its last component).
pub struct MatchedFile {
    pub path: String,
    pub name: String,
}

/// The model of a matched file.
pub struct FileRef {
    pub path: Seq<char>,
    pub name: Seq<char>,
}

impl MatchedFile {
    /// The model of this matched file.
    pub open spec fn model(self) -> FileRef {
        FileRef { path: self.path@, name: self.name@ }
    }
}

/// The models of a sequence of matched files, in order.
pub open spec fn file_models(s: Seq<MatchedFile>) -> Seq<FileRef> {
    Seq::new(s.len(), |i: int| s[i].model())
}

/// The matched files contributed by one entry of a directory whose full path
/// is `dir`: a file is kept exactly when its full path matches `pat`; a
/// directory contributes the matches found anywhere inside it.
pub open spec fn matched_node(t: FsTree, dir: Seq<char>, pat: Seq<char>) -> Seq<FileRef>
    decreases t, 0int,
{
    match t {
        FsTree::File { name } => if regex_matches(pat, join(dir, name)) {
            seq![FileRef { path: join(dir, name), name }]
        } else {
            Seq::empty()
        },
        FsTree::Dir { name, entries } => matched_entries(entries, join(dir, name), pat),
    }
}

/// The matched files of a directory's entries, in entry order.
pub open spec fn matched_entries(es: Seq<FsTree>, dir: Seq<char>, pat: Seq<char>) -> Seq<
    FileRef,
>
    decreases es, 1int,
{
    if es.len() == 0 {
        Seq::empty()
    } else {
        matched_node(es[0], dir, pat) + matched_entries(es.drop_first(), dir, pat)
    }
}

/// Matching distributes over appending one entry at the end.
pub proof fn lemma_matched_entries_push(es: Seq<FsTree>, e: FsTree, dir: Seq<char>, pat: Seq<char>)
    ensures
        matched_entries(es.push(e), dir, pat) == matched_entries(es, dir, pat) + matched_node(
            e,
            dir,
            pat,
        ),
    decreases es.len(),
{
    if es.len() == 0 {
        assert(es.push(e)[0] == e);
        assert(es.push(e).drop_first() =~= es);
        assert(matched_entries(es.push(e), dir, pat) =~= matched_entries(es, dir, pat)
            + matched_node(e, dir, pat));
    } else {
        assert(es.push(e)[0] == es[0]);
        assert(es.push(e).drop_first() =~= es.drop_first().push(e));
        lemma_matched_entries_push(es.drop_first(), e, dir, pat);
        assert(matched_entries(es.push(e), dir, pat) =~= matched_entries(es, dir, pat)
            + matched_node(e, dir, pat));
    }
}

/// The full paths of all files (directories excluded) contributed by one
/// entry of a directory whose full path is `dir`, in traversal order.
pub open spec fn file_paths_node(t: FsTree, dir: Seq<char>) -> Seq<Seq<char>>
    decreases t, 0int,
{
    match t {
        FsTree::File { name } => seq![join(dir, name)],
        FsTree::Dir { name, entries } => file_paths_entries(entries, join(dir, name)),
    }
}

/// The full paths of all files anywhere under a directory's entries.
pub open spec fn file_paths_entries(es: Seq<FsTree>, dir: Seq<char>) -> Seq<Seq<char>>
    decreases es, 1int,
{
    if es.len() == 0 {
        Seq::empty()
    } else {
        file_paths_node(es[0], dir) + file_paths_entries(es.drop_first(), dir)
    }
}

/// The matcher is exact: the paths of the files matched under one entry are
/// the file paths under that entry whose path matches the pattern, kept in
/// traversal order. So every matched path matches the pattern, and every
/// file whose path matches appears exactly once, at its position in the
/// enumeration of all files.
pub proof fn lemma_matcher_exact_node(t: FsTree, dir: Seq<char>, pat: Seq<char>)
    ensures
        matched_node(t, dir, pat).map_values(|f: FileRef| f.path) == file_paths_node(t, dir)
            .filter(|p: Seq<char>| regex_matches(pat, p)),
    decreases t, 0int,
{
    let keep = |p: Seq<char>| regex_matches(pat, p);
    match t {
        FsTree::File { name } => {
            reveal_with_fuel(Seq::<_>::filter, 2);
            assert(seq![join(dir, name)].drop_last() =~= Seq::<Seq<char>>::empty());
            if regex_matches(pat, join(dir, name)) {
                assert(matched_node(t, dir, pat).map_values(|f: FileRef| f.path) =~= seq![
                    join(dir, name),
                ]);
                assert(file_paths_node(t, dir).filter(keep) =~= seq![join(dir, name)]);
            } else {
                assert(matched_node(t, dir, pat).map_values(|f: FileRef| f.path) =~= Seq::<
                    Seq<char>,
                >::empty());
                assert(file_paths_node(t, dir).filter(keep) =~= Seq::<Seq<char>>::empty());
            }
        },
        FsTree::Dir { name, entries } => {
            lemma_matcher_exact_entries(entries, join(dir, name), pat);
        },
    }
}

/// The matcher is exact over a directory's entries: see
/// `lemma_matcher_exact_node`.
pub proof fn lemma_matcher_exact_entries(es: Seq<FsTree>, dir: Seq<char>, pat: Seq<char>)
    ensures
        matched_entries(es, dir, pat).map_values(|f: FileRef| f.path) == file_paths_entries(
            es,
            dir,
        ).filter(|p: Seq<char>| regex_matches(pat, p)),
    decreases es, 1int,
{
    let keep = |p: Seq<char>| regex_matches(pat, p);
    if es.len() == 0 {
        reveal_with_fuel(Seq::<_>::filter, 1);
        assert(matched_entries(es, dir, pat).map_values(|f: FileRef| f.path) =~= Seq::<
            Seq<char>,
        >::empty());
        assert(file_paths_entries(es, dir).filter(keep) =~= Seq::<Seq<char>>::empty());
    } else {
        broadcast use Seq::filter_distributes_over_add;

        lemma_matcher_exact_node(es[0], dir, pat);
        lemma_matcher_exact_entries(es.drop_first(), dir, pat);
        assert((file_paths_node(es[0], dir) + file_paths_entries(es.drop_first(), dir)).filter(
            keep,
        ) == file_paths_node(es[0], dir).filter(keep) + file_paths_entries(
            es.drop_first(),
            dir,
        ).filter(keep));
        assert(matched_entries(es, dir, pat).map_values(|f: FileRef| f.path) =~= matched_node(
            es[0],
            dir,
            pat,
        ).map_values(|f: FileRef| f.path) + matched_entries(es.drop_first(), dir, pat).map_values(
            |f: FileRef| f.path,
        ));
    }
}

/// Each matched file's name is the last component of its path: the path
/// ends with a separator followed by the name.
pub proof fn lemma_matched_name_is_basename(es: Seq<FsTree>, dir: Seq<char>, pat: Seq<char>)
    ensures
        forall|k: int|
            0 <= k < matched_entries(es, dir, pat).len() ==> ends_with_name(
                (#[trigger] matched_entries(es, dir, pat)[k]).path,
                matched_entries(es, dir, pat)[k].name,
            ),
    decreases es, 1int,
{
    if es.len() > 0 {
        let a = matched_node(es[0], dir, pat);
        let b = matched_entries(es.drop_first(), dir, pat);
        lemma_matched_name_is_basename_node(es[0], dir, pat);
        lemma_matched_name_is_basename(es.drop_first(), dir, pat);
        assert forall|k: int| 0 <= k < matched_entries(es, dir, pat).len() implies ends_with_name(
            (#[trigger] matched_entries(es, dir, pat)[k]).path,
            matched_entries(es, dir, pat)[k].name,
        ) by {
            if k < a.len() {
                assert(matched_entries(es, dir, pat)[k] == a[k]);
            } else {
                assert(matched_entries(es, dir, pat)[k] == b[k - a.len()]);
            }
        }
    }
}

/// See `lemma_matched_name_is_basename`, for one entry.
pub proof fn lemma_matched_name_is_basename_node(t: FsTree, dir: Seq<char>, pat: Seq<char>)
    ensures
        forall|k: int|
            0 <= k < matched_node(t, dir, pat).len() ==> ends_with_name(
                (#[trigger] matched_node(t, dir, pat)[k]).path,
                matched_node(t, dir, pat)[k].name,
            ),
    decreases t, 0int,
{
    match t {
        FsTree::File { name } => {
            if regex_matches(pat, join(dir, name)) {
                lemma_join_ends_with_name(dir, name);
                assert(matched_node(t, dir, pat) =~= seq![
                    FileRef { path: join(dir, name), name },
                ]);
                assert forall|k: int| 0 <= k < matched_node(t, dir, pat).len() implies
                    ends_with_name(
                    (#[trigger] matched_node(t, dir, pat)[k]).path,
                    matched_node(t, dir, pat)[k].name,
                ) by {
                    assert(matched_node(t, dir, pat)[k] == FileRef {
                        path: join(dir, name),
                        name,
                    });
                }
            } else {
                assert(matched_node(t, dir, pat) =~= Seq::<FileRef>::empty());
            }
        },
        FsTree::Dir { name, entries } => {
            lemma_matched_name_is_basename(entries, join(dir, name), pat);
            assert forall|k: int| 0 <= k < matched_node(t, dir, pat).len() implies ends_with_name(
                (#[trigger] matched_node(t, dir, pat)[k]).path,
                matched_node(t, dir, pat)[k].name,
            ) by {
                assert(matched_node(t, dir, pat) == matched_entries(
                    entries,
                    join(dir, name),
                    pat,
                ));
                assert(matched_node(t, dir, pat)[k] == matched_entries(
                    entries,
                    join(dir, name),
                    pat,
                )[k]);
            }
        },
    }
}

/// Every file path under one entry lies below that entry's own path.
pub proof fn lemma_file_paths_node_rooted(t: FsTree, dir: Seq<char>)
    ensures
        forall|k: int|
            0 <= k < file_paths_node(t, dir).len() ==> rooted_at(
                #[trigger] file_paths_node(t, dir)[k],
                join(dir, node_name(t)),
            ),
    decreases t, 0int,
{
    match t {
        FsTree::File { name } => {
            assert(join(dir, name).take(join(dir, name).len() as int) =~= join(dir, name));
        },
        FsTree::Dir { name, entries } => {
            let base = join(dir, name);
            lemma_file_paths_entries_rooted(entries, base);
            assert forall|k: int| 0 <= k < file_paths_node(t, dir).len() implies rooted_at(
                #[trigger] file_paths_node(t, dir)[k],
                base,
            ) by {
                let q = file_paths_node(t, dir)[k];
                assert(file_paths_node(t, dir) == file_paths_entries(entries, base));
                assert(q == file_paths_entries(entries, base)[k]);
                let i = choose|i: int|
                    0 <= i < entries.len() && rooted_at(q, join(base, node_name(entries[i])));
                lemma_join_rooted(base, node_name(entries[i]));
                lemma_rooted_trans(q, join(base, node_name(entries[i])), base);
            }
        },
    }
}

/// Every file path under a directory's entries lies below the path of one
/// of those entries.
pub proof fn lemma_file_paths_entries_rooted(es: Seq<FsTree>, dir: Seq<char>)
    ensures
        forall|k: int|
            0 <= k < file_paths_entries(es, dir).len() ==> exists|i: int|
                0 <= i < es.len() && rooted_at(
                    #[trigger] file_paths_entries(es, dir)[k],
                    join(dir, node_name(es[i])),
                ),
    decreases es, 1int,
{
    if es.len() > 0 {
        let a = file_paths_node(es[0], dir);
        let b = file_paths_entries(es.drop_first(), dir);
        lemma_file_paths_node_rooted(es[0], dir);
        lemma_file_paths_entries_rooted(es.drop_first(), dir);
        assert forall|k: int| 0 <= k < file_paths_entries(es, dir).len() implies exists|i: int|
            0 <= i < es.len() && rooted_at(
                #[trigger] file_paths_entries(es, dir)[k],
                join(dir, node_name(es[i])),
            ) by {
            let q = file_paths_entries(es, dir)[k];
            if k < a.len() {
                assert(q == a[k]);
                assert(rooted_at(q, join(dir, node_name(es[0]))));
            } else {
                assert(q == b[k - a.len()]);
                let i = choose|i: int|
                    0 <= i < es.drop_first().len() && rooted_at(
                        q,
                        join(dir, node_name(es.drop_first()[i])),
                    );
                assert(es.drop_first()[i] == es[i + 1]);
                assert(rooted_at(q, join(dir, node_name(es[i + 1]))));
            }
        }
    }
}

/// Every element a filter keeps comes from the sequence it was applied to.
proof fn lemma_filter_elem_in<A>(s: Seq<A>, pred: spec_fn(A) -> bool, k: int)
    requires
        0 <= k < s.filter(pred).len(),
    ensures
        s.contains(s.filter(pred)[k]),
    decreases s.len(),
{
    reveal(Seq::filter);
    if s.len() > 0 {
        let sub = s.drop_last().filter(pred);
        if k < sub.len() {
            lemma_filter_elem_in(s.drop_last(), pred, k);
            let j = choose|j: int| 0 <= j < s.drop_last().len() && s.drop_last()[j] == sub[k];
            assert(s[j] == s.filter(pred)[k]);
        } else {
            assert(s[s.len() - 1] == s.filter(pred)[k]);
        }
    }
}

/// Filtering a sequence of distinct elements keeps them distinct.
proof fn lemma_filter_distinct<A>(s: Seq<A>, pred: spec_fn(A) -> bool)
    requires
        forall|k1: int, k2: int| 0 <= k1 < k2 < s.len() ==> s[k1] != s[k2],
    ensures
        forall|k1: int, k2: int|
            0 <= k1 < k2 < s.filter(pred).len() ==> s.filter(pred)[k1] != s.filter(pred)[k2],
    decreases s.len(),
{
    reveal(Seq::filter);
    if s.len() > 0 {
        assert forall|k1: int, k2: int| 0 <= k1 < k2 < s.drop_last().len() implies s.drop_last()[k1]
            != s.drop_last()[k2] by {
            assert(s.drop_last()[k1] == s[k1]);
            assert(s.drop_last()[k2] == s[k2]);
        }
        lemma_filter_distinct(s.drop_last(), pred);
        let sub = s.drop_last().filter(pred);
        let out = s.filter(pred);
        assert forall|k1: int, k2: int| 0 <= k1 < k2 < out.len() implies out[k1] != out[k2] by {
            if pred(s.last()) && k2 == out.len() - 1 {
                if out[k1] == out[k2] {
                    assert(sub[k1] == s.last());
                    lemma_filter_elem_in(s.drop_last(), pred, k1);
                    let j = choose|j: int|
                        0 <= j < s.drop_last().len() && s.drop_last()[j] == sub[k1];
                    assert(s[j] == s[s.len() - 1]);
                    assert(false);
                }
            } else {
                assert(out[k1] == sub[k1]);
                assert(out[k2] == sub[k2]);
            }
        }
    }
}

/// In a well-formed tree the file paths under one entry are pairwise
/// distinct.
pub proof fn lemma_file_paths_node_distinct(t: FsTree, dir: Seq<char>)
    requires
        wf_node(t),
    ensures
        forall|k1: int, k2: int|
            0 <= k1 < k2 < file_paths_node(t, dir).len() ==> file_paths_node(t, dir)[k1]
                != file_paths_node(t, dir)[k2],
    decreases t, 0int,
{
    match t {
        FsTree::File { .. } => {
            assert(file_paths_node(t, dir).len() == 1);
        },
        FsTree::Dir { name, entries } => {
            lemma_file_paths_entries_distinct(entries, join(dir, name));
            assert forall|k1: int, k2: int|
                0 <= k1 < k2 < file_paths_node(t, dir).len() implies file_paths_node(t, dir)[k1]
                != file_paths_node(t, dir)[k2] by {
                assert(file_paths_node(t, dir) == file_paths_entries(entries, join(dir, name)));
                assert(file_paths_entries(entries, join(dir, name))[k1] != file_paths_entries(
                    entries,
                    join(dir, name),
                )[k2]);
            }
        },
    }
}

/// In a well-formed tree all file paths are pairwise distinct: different
/// files always have different paths.
pub proof fn lemma_file_paths_entries_distinct(es: Seq<FsTree>, dir: Seq<char>)
    requires
        wf_entries(es),
    ensures
        forall|k1: int, k2: int|
            0 <= k1 < k2 < file_paths_entries(es, dir).len() ==> file_paths_entries(es, dir)[k1]
                != file_paths_entries(es, dir)[k2],
    decreases es, 1int,
{
    if es.len() > 0 {
        let a = file_paths_node(es[0], dir);
        let b = file_paths_entries(es.drop_first(), dir);
        let out = file_paths_entries(es, dir);
        assert(wf_node(es[0]));
        assert forall|i: int| 0 <= i < es.drop_first().len() implies wf_node(
            #[trigger] es.drop_first()[i],
        ) by {
            assert(es.drop_first()[i] == es[i + 1]);
        }
        assert forall|i: int, j: int|
            0 <= i < es.drop_first().len() && 0 <= j < es.drop_first().len() && i != j implies
            node_name(#[trigger] es.drop_first()[i]) != node_name(
            #[trigger] es.drop_first()[j]) by {
            assert(es.drop_first()[i] == es[i + 1]);
            assert(es.drop_first()[j] == es[j + 1]);
        }
        lemma_file_paths_node_distinct(es[0], dir);
        lemma_file_paths_entries_distinct(es.drop_first(), dir);
        lemma_file_paths_node_rooted(es[0], dir);
        lemma_file_paths_entries_rooted(es.drop_first(), dir);
        assert forall|k1: int, k2: int| 0 <= k1 < k2 < out.len() implies out[k1] != out[k2] by {
            if k1 < a.len() && k2 >= a.len() {
                let p = out[k1];
                let q = out[k2];
                assert(p == a[k1]);
                assert(q == b[k2 - a.len()]);
                assert(rooted_at(p, join(dir, node_name(es[0]))));
                let i = choose|i: int|
                    0 <= i < es.drop_first().len() && rooted_at(
                        q,
                        join(dir, node_name(es.drop_first()[i])),
                    );
                assert(es.drop_first()[i] == es[i + 1]);
                lemma_wf_node_valid_name(es[0]);
                lemma_wf_node_valid_name(es[i + 1]);
                assert(node_name(es[0]) != node_name(es[i + 1]));
                lemma_rooted_disjoint(dir, node_name(es[0]), node_name(es[i + 1]), p);
                if p == q {
                    assert(false);
                }
            } else if k2 < a.len() {
                assert(out[k1] == a[k1]);
                assert(out[k2] == a[k2]);
            } else {
                assert(out[k1] == b[k1 - a.len()]);
                assert(out[k2] == b[k2 - a.len()]);
            }
        }
    }
}

/// In a well-formed tree the matcher returns each matching file exactly
/// once: with `lemma_matcher_exact_entries`, the matched paths are the
/// matching file paths in traversal order, and here no path occurs twice.
pub proof fn lemma_matched_paths_distinct(es: Seq<FsTree>, dir: Seq<char>, pat: Seq<char>)
    requires
        wf_entries(es),
    ensures
        forall|k1: int, k2: int|
            0 <= k1 < k2 < matched_entries(es, dir, pat).len() ==> matched_entries(
                es,
                dir,
                pat,
            )[k1].path != matched_entries(es, dir, pat)[k2].path,
{
    let keep = |p: Seq<char>| regex_matches(pat, p);
    let paths = matched_entries(es, dir, pat).map_values(|f: FileRef| f.path);
    lemma_matcher_exact_entries(es, dir, pat);
    lemma_file_paths_entries_distinct(es, dir);
    lemma_filter_distinct(file_paths_entries(es, dir), keep);
    assert forall|k1: int, k2: int|
        0 <= k1 < k2 < matched_entries(es, dir, pat).len() implies matched_entries(
        es,
        dir,
        pat,
    )[k1].path != matched_entries(es, dir, pat)[k2].path by {
        assert(paths[k1] == matched_entries(es, dir, pat)[k1].path);
        assert(paths[k2] == matched_entries(es, dir, pat)[k2].path);
    }
}

/// Walks the entries of the directory whose full path is `dir_path`,
/// depth-first in entry order, and returns every file in the subtree whose
/// full path matches the pattern, each with its path and its name.
pub fn find_files_matching_regex(entries: &Vec<Node>, dir_path: &String, pat: &Pattern) -> (r: Vec<
    MatchedFile,
>)
    ensures
        file_models(r@) == matched_entries(Node::model_seq(entries@), dir_path@, pat.pat()),
    decreases entries@,
{
    let ghost ms = Node::model_seq(entries@);
    proof {
        lemma_model_seq(entries@);
    }
    let mut r: Vec<MatchedFile> = Vec::new();
    let mut i: usize = 0;
    while i < entries.len()
        invariant
            0 <= i <= entries.len(),
            ms == Node::model_seq(entries@),
            ms.len() == entries@.len(),
            forall|j: int| 0 <= j < entries@.len() ==> ms[j] == #[trigger] entries@[j].model(),
            file_models(r@) == matched_entries(ms.take(i as int), dir_path@, pat.pat()),
        decreases entries@.len() - i,
    {
        let ghost r_old = r@;
        let e = &entries[i];
        match e {
            Node::File { name } => {
                proof {
                    assert(*e == entries@[i as int]);
                    assert(ms[i as int] == entries@[i as int].model());
                    assert(ms[i as int] == FsTree::File { name: name@ });
                }
                let p = join_path(dir_path, name);
                if pattern_is_match(pat, p.as_str()) {
                    let m = MatchedFile { path: p, name: name.clone() };
                    proof {
                        assert(matched_node(ms[i as int], dir_path@, pat.pat()) =~= seq![
                            m.model(),
                        ]);
                    }
                    r.push(m);
                    proof {
                        assert(file_models(r@) =~= file_models(r_old) + matched_node(
                            ms[i as int],
                            dir_path@,
                            pat.pat(),
                        ));
                    }
                } else {
                    proof {
                        assert(matched_node(ms[i as int], dir_path@, pat.pat()) =~= Seq::<
                            FileRef,
                        >::empty());
                        assert(file_models(r@) =~= file_models(r_old) + matched_node(
                            ms[i as int],
                            dir_path@,
                            pat.pat(),
                        ));
                    }
                }
            },
            Node::Dir { name, entries: sub } => {
                proof {
                    assert(*e == entries@[i as int]);
                    assert(ms[i as int] == entries@[i as int].model());
                    assert(ms[i as int] == FsTree::Dir {
                        name: name@,
                        entries: Node::model_seq(sub@),
                    });
                    assert(decreases_to!(entries@ => entries@[i as int]));
                    assert(decreases_to!(entries@[i as int] => *sub));
                    assert(decreases_to!(*sub => sub@));
                }
                let p = join_path(dir_path, name);
                let mut sub_r = find_files_matching_regex(sub, &p, pat);
                let ghost sub_old = sub_r@;
                proof {
                    assert(file_models(sub_old) == matched_node(
                        ms[i as int],
                        dir_path@,
                        pat.pat(),
                    ));
                }
                r.append(&mut sub_r);
                proof {
                    assert(file_models(r@) =~= file_models(r_old) + file_models(sub_old));
                }
            },
        }
        proof {
            lemma_matched_entries_push(
                ms.take(i as int),
                ms[i as int],
                dir_path@,
                pat.pat(),
            );
            assert(ms.take(i as int + 1) =~= ms.take(i as int).push(ms[i as int]));
            assert(file_models(r@) =~= matched_entries(ms.take(i as int + 1), dir_path@, pat.pat()));
        }
        i += 1;
    }
    proof {
        assert(ms.take(entries@.len() as int) =~= ms);
    }
    r
}

} // verus!
