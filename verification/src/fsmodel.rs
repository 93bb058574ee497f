//! A model of what running a copy plan does to a filesystem: files as
//! a map from path to bytes, directories as a set of paths.  Running
//! the same plan twice leaves the same state as running it once, which
//! is why extracting a package a second time over the same destination
//! only overwrites what the first run wrote.

use vstd::prelude::*;

use crate::payload::OpModel;

verus! {

/// The filesystem as a plan's writes see it: regular files with their
/// bytes, and the set of directories that exist.
#[verifier::ext_equal]
pub struct FsState {
    pub files: Map<Seq<Seq<char>>, Seq<u8>>,
    pub dirs: Set<Seq<Seq<char>>>,
}

/// A path and every ancestor of it, the empty path included: what a
/// make-directories write brings into being.
pub open spec fn ancestors_of(path: Seq<Seq<char>>) -> Set<Seq<Seq<char>>> {
    Set::new(|d: Seq<Seq<char>>| exists|k: int| 0 <= k <= path.len() && d == path.subrange(0, k))
}

/// One write applied to a state: making directories adds the path and
/// its ancestors, writing a file binds the path to the bytes, replacing
/// whatever the path held.
pub open spec fn apply_op(s: FsState, op: OpModel) -> FsState {
    match op {
        OpModel::MkDirs { path } => FsState { files: s.files, dirs: s.dirs.union(ancestors_of(path)) },
        OpModel::WriteFile { path, bytes } => FsState {
            files: s.files.insert(path, bytes),
            dirs: s.dirs,
        },
    }
}

/// A plan's writes applied in order.
pub open spec fn apply_ops(s: FsState, ops: Seq<OpModel>) -> FsState
    decreases ops.len(),
{
    if ops.len() == 0 {
        s
    } else {
        apply_ops(apply_op(s, ops[0]), ops.drop_first())
    }
}

/// The file bindings a plan makes, later writes winning.
pub open spec fn writes_of(ops: Seq<OpModel>) -> Map<Seq<Seq<char>>, Seq<u8>>
    decreases ops.len(),
{
    if ops.len() == 0 {
        Map::empty()
    } else {
        write_of(ops[0]).union_prefer_right(writes_of(ops.drop_first()))
    }
}

/// The file binding of one write, if it makes one.
pub open spec fn write_of(op: OpModel) -> Map<Seq<Seq<char>>, Seq<u8>> {
    match op {
        OpModel::MkDirs { .. } => Map::empty(),
        OpModel::WriteFile { path, bytes } => Map::empty().insert(path, bytes),
    }
}

/// The directories a plan brings into being.
pub open spec fn dirs_of(ops: Seq<OpModel>) -> Set<Seq<Seq<char>>>
    decreases ops.len(),
{
    if ops.len() == 0 {
        Set::empty()
    } else {
        dir_of(ops[0]).union(dirs_of(ops.drop_first()))
    }
}

/// The directories one write brings into being.
pub open spec fn dir_of(op: OpModel) -> Set<Seq<Seq<char>>> {
    match op {
        OpModel::MkDirs { path } => ancestors_of(path),
        OpModel::WriteFile { .. } => Set::empty(),
    }
}

/// What a plan leaves behind depends on the starting state only where
/// the plan does not write: the final files are the starting files
/// overridden by the plan's bindings, the final directories are the
/// starting ones joined with the plan's.
pub proof fn lemma_apply_ops_effect(s: FsState, ops: Seq<OpModel>)
    ensures
        apply_ops(s, ops).files =~= s.files.union_prefer_right(writes_of(ops)),
        apply_ops(s, ops).dirs =~= s.dirs.union(dirs_of(ops)),
    decreases ops.len(),
{
    if ops.len() == 0 {
        assert(s.files.union_prefer_right(Map::empty()) =~= s.files);
        assert(s.dirs.union(Set::empty()) =~= s.dirs);
    } else {
        let s1 = apply_op(s, ops[0]);
        lemma_apply_ops_effect(s1, ops.drop_first());
        assert(s1.files =~= s.files.union_prefer_right(write_of(ops[0])));
        assert(s1.dirs =~= s.dirs.union(dir_of(ops[0])));
        assert(s.files.union_prefer_right(write_of(ops[0])).union_prefer_right(
            writes_of(ops.drop_first()),
        ) =~= s.files.union_prefer_right(
            write_of(ops[0]).union_prefer_right(writes_of(ops.drop_first())),
        ));
        assert(s.dirs.union(dir_of(ops[0])).union(dirs_of(ops.drop_first())) =~= s.dirs.union(
            dir_of(ops[0]).union(dirs_of(ops.drop_first())),
        ));
    }
}

/// Running a plan a second time changes nothing: the second run binds
/// every file to the bytes it already has and re-makes directories
/// that already exist.
pub proof fn lemma_apply_ops_idempotent(s: FsState, ops: Seq<OpModel>)
    ensures
        apply_ops(apply_ops(s, ops), ops) == apply_ops(s, ops),
{
    let once = apply_ops(s, ops);
    let twice = apply_ops(once, ops);
    lemma_apply_ops_effect(s, ops);
    lemma_apply_ops_effect(once, ops);
    assert(twice.files =~= once.files);
    assert(twice.dirs =~= once.dirs);
    assert(twice =~= once);
}

} // verus!
