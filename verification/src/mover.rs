//! The mover: plans one rename per matched file, into the destination
//! directory under the file's own name, in list order.

use vstd::prelude::*;

use crate::matcher::FileRef;
use crate::matcher::MatchedFile;
use crate::matcher::file_models;
use crate::matcher::lemma_matched_paths_distinct;
use crate::matcher::matched_entries;
use crate::paths::join;
use crate::paths::join_path;
use crate::tree::FsTree;
use crate::tree::wf_entries;

verus! {

/// One planned relocation: a source path and the destination path the file
/// is renamed to.
pub struct MoveOp {
    pub src: String,
    pub dest: String,
}

/// The model of a planned relocation.
pub struct MoveRef {
    pub src: Seq<char>,
    pub dest: Seq<char>,
}

impl MoveOp {
    /// The model of this relocation.
    pub open spec fn model(self) -> MoveRef {
        MoveRef { src: self.src@, dest: self.dest@ }
    }
}

/// The models of a sequence of relocations, in order.
pub open spec fn move_models(s: Seq<MoveOp>) -> Seq<MoveRef> {
    Seq::new(s.len(), |i: int| s[i].model())
}

/// The planned relocations for a matched file list: each file is renamed
/// from its own path to the destination directory joined with its name.
pub open spec fn move_plan(files: Seq<FileRef>, dest_dir: Seq<char>) -> Seq<MoveRef> {
    Seq::new(
        files.len(),
        |i: int| MoveRef { src: files[i].path, dest: join(dest_dir, files[i].name) },
    )
}

/// Plans the relocation of each matched file into the destination directory:
/// the file at `files[i].path` is renamed to `<dest_dir>/<files[i].name>`,
/// in list order. When two files share a name, both renames keep the same
/// destination, so the one moved last wins.
pub fn move_files_to_directory(files: &Vec<MatchedFile>, dest_dir: &String) -> (r: Vec<MoveOp>)
    ensures
        move_models(r@) == move_plan(file_models(files@), dest_dir@),
{
    let mut r: Vec<MoveOp> = Vec::new();
    let mut i: usize = 0;
    while i < files.len()
        invariant
            0 <= i <= files.len(),
            r@.len() == i,
            forall|j: int|
                0 <= j < i ==> #[trigger] r@[j].model() == move_plan(
                    file_models(files@),
                    dest_dir@,
                )[j],
        decreases files@.len() - i,
    {
        let f = &files[i];
        let d = join_path(dest_dir, &f.name);
        let s = f.path.clone();
        r.push(MoveOp { src: s, dest: d });
        i += 1;
    }
    proof {
        assert(move_models(r@) =~= move_plan(file_models(files@), dest_dir@));
    }
    r
}

/// The renames planned for a matcher's result in a well-formed tree have
/// pairwise distinct sources: each file is moved away at most once. This
/// discharges one hypothesis of `lemma_mover_effect` for such plans.
pub proof fn lemma_matched_move_sources_distinct(
    es: Seq<FsTree>,
    dir: Seq<char>,
    pat: Seq<char>,
    dest_dir: Seq<char>,
)
    requires
        wf_entries(es),
    ensures
        forall|i: int, j: int|
            0 <= i < move_plan(matched_entries(es, dir, pat), dest_dir).len() && 0 <= j
                < move_plan(matched_entries(es, dir, pat), dest_dir).len() && i != j ==> (
            #[trigger] move_plan(matched_entries(es, dir, pat), dest_dir)[i]).src != (
            #[trigger] move_plan(matched_entries(es, dir, pat), dest_dir)[j]).src,
{
    lemma_matched_paths_distinct(es, dir, pat);
    let plan = move_plan(matched_entries(es, dir, pat), dest_dir);
    assert forall|i: int, j: int|
        0 <= i < plan.len() && 0 <= j < plan.len() && i != j implies (#[trigger] plan[i]).src != (
    #[trigger] plan[j]).src by {
        assert(plan[i].src == matched_entries(es, dir, pat)[i].path);
        assert(plan[j].src == matched_entries(es, dir, pat)[j].path);
    }
}

/// The files on disk after one rename: if the source exists, it disappears
/// and its content now sits at the destination (overwriting whatever was
/// there); if it does not, nothing changes. The disk is modelled as a map
/// from each existing file's full path to its content.
pub open spec fn apply_move(fs: Map<Seq<char>, Seq<u8>>, m: MoveRef) -> Map<Seq<char>, Seq<u8>> {
    if fs.contains_key(m.src) {
        fs.remove(m.src).insert(m.dest, fs[m.src])
    } else {
        fs
    }
}

/// The files on disk after the planned renames are carried out in order.
pub open spec fn apply_moves(fs: Map<Seq<char>, Seq<u8>>, ms: Seq<MoveRef>) -> Map<
    Seq<char>,
    Seq<u8>,
>
    decreases ms.len(),
{
    if ms.len() == 0 {
        fs
    } else {
        apply_moves(apply_move(fs, ms[0]), ms.drop_first())
    }
}

/// A path that is absent and is no rename's destination stays absent.
pub proof fn lemma_apply_moves_absent(fs: Map<Seq<char>, Seq<u8>>, ms: Seq<MoveRef>, k: Seq<char>)
    requires
        !fs.contains_key(k),
        forall|i: int| 0 <= i < ms.len() ==> (#[trigger] ms[i]).dest != k,
    ensures
        !apply_moves(fs, ms).contains_key(k),
    decreases ms.len(),
{
    if ms.len() > 0 {
        lemma_apply_moves_absent(apply_move(fs, ms[0]), ms.drop_first(), k);
    }
}

/// A path that exists and is no rename's source stays present.
pub proof fn lemma_apply_moves_present(fs: Map<Seq<char>, Seq<u8>>, ms: Seq<MoveRef>, k: Seq<char>)
    requires
        fs.contains_key(k),
        forall|i: int| 0 <= i < ms.len() ==> (#[trigger] ms[i]).src != k,
    ensures
        apply_moves(fs, ms).contains_key(k),
    decreases ms.len(),
{
    if ms.len() > 0 {
        lemma_apply_moves_present(apply_move(fs, ms[0]), ms.drop_first(), k);
    }
}

/// After the mover runs, every listed source file is gone from its original
/// path and a file stands at its destination path — provided every source
/// existed, the sources are pairwise distinct, and no source path is itself
/// a destination path (the destination directory holds none of the sources).
pub proof fn lemma_mover_effect(fs: Map<Seq<char>, Seq<u8>>, ms: Seq<MoveRef>)
    requires
        forall|i: int| 0 <= i < ms.len() ==> fs.contains_key((#[trigger] ms[i]).src),
        forall|i: int, j: int|
            0 <= i < ms.len() && 0 <= j < ms.len() && i != j ==> (#[trigger] ms[i]).src != (
            #[trigger] ms[j]).src,
        forall|i: int, j: int|
            0 <= i < ms.len() && 0 <= j < ms.len() ==> (#[trigger] ms[i]).src != (
            #[trigger] ms[j]).dest,
    ensures
        forall|i: int|
            0 <= i < ms.len() ==> !apply_moves(fs, ms).contains_key((#[trigger] ms[i]).src),
        forall|i: int|
            0 <= i < ms.len() ==> apply_moves(fs, ms).contains_key((#[trigger] ms[i]).dest),
    decreases ms.len(),
{
    if ms.len() > 0 {
        let m0 = ms[0];
        let fs1 = apply_move(fs, m0);
        let rest = ms.drop_first();
        assert(fs1 == fs.remove(m0.src).insert(m0.dest, fs[m0.src]));
        assert forall|i: int| 0 <= i < rest.len() implies fs1.contains_key(
            (#[trigger] rest[i]).src,
        ) by {
            assert(rest[i] == ms[i + 1]);
            assert(ms[i + 1].src != m0.src);
        }
        assert forall|i: int, j: int|
            0 <= i < rest.len() && 0 <= j < rest.len() && i != j implies (
        #[trigger] rest[i]).src != (#[trigger] rest[j]).src by {
            assert(rest[i] == ms[i + 1]);
            assert(rest[j] == ms[j + 1]);
        }
        assert forall|i: int, j: int|
            0 <= i < rest.len() && 0 <= j < rest.len() implies (#[trigger] rest[i]).src != (
        #[trigger] rest[j]).dest by {
            assert(rest[i] == ms[i + 1]);
            assert(rest[j] == ms[j + 1]);
        }
        lemma_mover_effect(fs1, rest);
        assert(!fs1.contains_key(m0.src));
        assert forall|i: int| 0 <= i < rest.len() implies (#[trigger] rest[i]).dest != m0.src by {
            assert(rest[i] == ms[i + 1]);
        }
        lemma_apply_moves_absent(fs1, rest, m0.src);
        if (forall|i: int| 0 <= i < rest.len() ==> (#[trigger] rest[i]).src != m0.dest) {
            lemma_apply_moves_present(fs1, rest, m0.dest);
        } else {
            let i = choose|i: int|
                0 <= i < rest.len() && (#[trigger] rest[i]).src == m0.dest;
            assert(rest[i] == ms[i + 1]);
            assert(ms[i + 1].src != ms[0].dest);
            assert(false);
        }
        assert forall|i: int|
            0 <= i < ms.len() implies !apply_moves(fs, ms).contains_key(
            (#[trigger] ms[i]).src,
        ) by {
            if i > 0 {
                assert(ms[i] == rest[i - 1]);
            }
        }
        assert forall|i: int|
            0 <= i < ms.len() implies apply_moves(fs, ms).contains_key(
            (#[trigger] ms[i]).dest,
        ) by {
            if i > 0 {
                assert(ms[i] == rest[i - 1]);
            }
        }
    }
}

} // verus!
