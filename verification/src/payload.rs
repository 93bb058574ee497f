//! Payload trees and the copy plan that materializes one under its
//! resolved target: a file payload becomes one file write, a directory
//! payload is copied recursively, preserving its nested structure.

use vstd::prelude::*;

verus! {

/// An entry's payload as staged on disk: a regular file with its
/// bytes, a directory with named children, or something else (a broken
/// link, a device), which extraction refuses as a structural failure.
#[derive(Debug)]
pub enum FsNode {
    File { bytes: Vec<u8> },
    Dir { children: Vec<DirChild> },
    Other,
}

/// One named child of a directory payload.
#[derive(Debug)]
pub struct DirChild {
    pub name: String,
    pub node: FsNode,
}

/// Whether a payload tree consists of files and directories only.
pub open spec fn node_supported(node: FsNode) -> bool
    decreases node, 0int,
{
    match node {
        FsNode::File { .. } => true,
        FsNode::Dir { children } => children_supported(children@, children@.len() as int),
        FsNode::Other => false,
    }
}

/// Whether the first `n` children are all supported payload trees.
pub open spec fn children_supported(cs: Seq<DirChild>, n: int) -> bool
    decreases cs, n,
{
    if n <= 0 || n > cs.len() {
        true
    } else {
        children_supported(cs, n - 1) && node_supported(cs[n - 1].node)
    }
}

/// One filesystem write, with a path relative to the destination root:
/// make a directory chain (with all missing ancestors), or write a
/// file's bytes, replacing whatever the path held.
#[derive(Debug, PartialEq, Eq)]
pub enum CopyOp {
    MakeDirs { path: Vec<String> },
    PutFile { path: Vec<String>, bytes: Vec<u8> },
}

/// The mathematical form of a [`CopyOp`]: paths as sequences of
/// component character sequences, contents as byte sequences.
pub enum OpModel {
    MkDirs { path: Seq<Seq<char>> },
    WriteFile { path: Seq<Seq<char>>, bytes: Seq<u8> },
}

impl View for CopyOp {
    type V = OpModel;

    open spec fn view(&self) -> OpModel {
        match self {
            CopyOp::MakeDirs { path } => OpModel::MkDirs { path: path.deep_view() },
            CopyOp::PutFile { path, bytes } => OpModel::WriteFile {
                path: path.deep_view(),
                bytes: bytes@,
            },
        }
    }
}

impl DeepView for CopyOp {
    type V = OpModel;

    open spec fn deep_view(&self) -> OpModel {
        self.view()
    }
}

/// The parent of a relative path; the empty path is its own parent.
pub open spec fn parent_of(target: Seq<Seq<char>>) -> Seq<Seq<char>> {
    if target.len() > 0 {
        target.drop_last()
    } else {
        target
    }
}

/// The writes that materialize a payload tree at `target`: a file
/// payload writes its bytes at `target` after making the parent
/// directories; a directory payload makes `target` itself and then
/// materializes each child under `target` extended by the child's
/// name, in order.
pub open spec fn plan_model(node: FsNode, target: Seq<Seq<char>>) -> Seq<OpModel>
    decreases node, 0int,
{
    match node {
        FsNode::File { bytes } => seq![
            OpModel::MkDirs { path: parent_of(target) },
            OpModel::WriteFile { path: target, bytes: bytes@ },
        ],
        FsNode::Dir { children } => seq![OpModel::MkDirs { path: target }] + children_plans(
            children@,
            children@.len() as int,
            target,
        ),
        FsNode::Other => Seq::empty(),
    }
}

/// The writes of the first `n` children of a directory payload at
/// `target`, in order.
pub open spec fn children_plans(cs: Seq<DirChild>, n: int, target: Seq<Seq<char>>) -> Seq<OpModel>
    decreases cs, n,
{
    if n <= 0 || n > cs.len() {
        Seq::empty()
    } else {
        children_plans(cs, n - 1, target) + plan_model(
            cs[n - 1].node,
            target.push(cs[n - 1].name@),
        )
    }
}

/// Copies a byte vector.
fn clone_bytes(b: &Vec<u8>) -> (r: Vec<u8>)
    ensures
        r@ == b@,
{
    let mut r: Vec<u8> = Vec::new();
    let mut i: usize = 0;
    while i < b.len()
        invariant
            i <= b@.len(),
            r@ == b@.subrange(0, i as int),
        decreases b@.len() - i,
    {
        r.push(b[i]);
        proof {
            assert(r@ =~= b@.subrange(0, i + 1));
        }
        i = i + 1;
    }
    proof {
        assert(b@.subrange(0, b@.len() as int) =~= b@);
    }
    r
}

/// Copies a component path.
fn clone_path(p: &Vec<String>) -> (r: Vec<String>)
    ensures
        r.deep_view() == p.deep_view(),
{
    let mut r: Vec<String> = Vec::new();
    proof {
        assert(r.deep_view() =~= p.deep_view().subrange(0, 0));
    }
    let mut i: usize = 0;
    while i < p.len()
        invariant
            i <= p@.len(),
            p.deep_view().len() == p@.len(),
            r.deep_view() == p.deep_view().subrange(0, i as int),
        decreases p@.len() - i,
    {
        let ghost before = r.deep_view();
        let piece = p[i].clone();
        r.push(piece);
        proof {
            assert(r.deep_view() =~= before.push(piece@));
            assert(r.deep_view() =~= p.deep_view().subrange(0, i + 1));
        }
        i = i + 1;
    }
    proof {
        assert(p.deep_view().subrange(0, p.deep_view().len() as int) =~= p.deep_view());
    }
    r
}

/// Whether the payload tree holds files and directories only; a `true`
/// answer is what lets extraction plan its writes.
#[verifier::loop_isolation(false)]
pub fn check_supported(node: &FsNode) -> (r: bool)
    ensures
        r == node_supported(*node),
    decreases *node,
{
    match node {
        FsNode::File { .. } => true,
        FsNode::Other => false,
        FsNode::Dir { children } => {
            let mut j: usize = 0;
            let mut ok = true;
            while j < children.len()
                invariant
                    j <= children@.len(),
                    ok == children_supported(children@, j as int),
                decreases children@.len() - j,
            {
                let child_ok = check_supported(&children[j].node);
                ok = ok && child_ok;
                j = j + 1;
            }
            ok
        },
    }
}

/// Appends the writes that materialize `node` at `target` (a path
/// relative to the destination root), in the order they must run.
#[verifier::loop_isolation(false)]
pub fn plan_copy(node: &FsNode, target: &Vec<String>, out: &mut Vec<CopyOp>)
    requires
        node_supported(*node),
    ensures
        final(out).deep_view() == old(out).deep_view() + plan_model(*node, target.deep_view()),
    decreases *node,
{
    let ghost base = out.deep_view();
    match node {
        FsNode::File { bytes } => {
            let mut parent = clone_path(target);
            if parent.len() > 0 {
                parent.pop();
            }
            proof {
                assert(parent.deep_view() =~= parent_of(target.deep_view()));
            }
            out.push(CopyOp::MakeDirs { path: parent });
            out.push(CopyOp::PutFile { path: clone_path(target), bytes: clone_bytes(bytes) });
            proof {
                assert(out.deep_view() =~= base + plan_model(*node, target.deep_view()));
            }
        },
        FsNode::Dir { children } => {
            out.push(CopyOp::MakeDirs { path: clone_path(target) });
            proof {
                assert(out.deep_view() =~= base + seq![
                    OpModel::MkDirs { path: target.deep_view() },
                ]);
            }
            let mut j: usize = 0;
            while j < children.len()
                invariant
                    j <= children@.len(),
                    children_supported(children@, children@.len() as int),
                    out.deep_view() == base + seq![
                        OpModel::MkDirs { path: target.deep_view() },
                    ] + children_plans(children@, j as int, target.deep_view()),
                decreases children@.len() - j,
            {
                proof {
                    lemma_children_supported_prefix(children@, children@.len() as int, j + 1);
                }
                let mut child_target = clone_path(target);
                child_target.push(children[j].name.clone());
                proof {
                    assert(child_target.deep_view() =~= target.deep_view().push(
                        children@[j as int].name@,
                    ));
                }
                plan_copy(&children[j].node, &child_target, out);
                proof {
                    assert(out.deep_view() =~= base + seq![
                        OpModel::MkDirs { path: target.deep_view() },
                    ] + children_plans(children@, j + 1, target.deep_view()));
                }
                j = j + 1;
            }
            proof {
                assert(out.deep_view() =~= base + plan_model(*node, target.deep_view()));
            }
        },
        FsNode::Other => {
            proof {
                assert(false);
            }
        },
    }
}

/// The files a payload tree holds, each as the path of names leading
/// to it inside the tree, with its bytes.
pub open spec fn files_in(node: FsNode) -> Set<(Seq<Seq<char>>, Seq<u8>)>
    decreases node, 0int,
{
    match node {
        FsNode::File { bytes } => Set::empty().insert((Seq::empty(), bytes@)),
        FsNode::Dir { children } => children_files(children@, children@.len() as int),
        FsNode::Other => Set::empty(),
    }
}

/// The files of the first `n` children of a directory, each child's
/// files placed behind the child's name.
pub open spec fn children_files(cs: Seq<DirChild>, n: int) -> Set<(Seq<Seq<char>>, Seq<u8>)>
    decreases cs, n,
{
    if n <= 0 || n > cs.len() {
        Set::empty()
    } else {
        children_files(cs, n - 1).union(
            Set::new(
                |q: (Seq<Seq<char>>, Seq<u8>)|
                    exists|p: (Seq<Seq<char>>, Seq<u8>)|
                        #[trigger] files_in(cs[n - 1].node).contains(p) && q == (
                            seq![cs[n - 1].name@] + p.0,
                            p.1,
                        ),
            ),
        )
    }
}

/// An element is in a concatenation exactly when it is in one part.
proof fn lemma_concat_contains<T>(a: Seq<T>, b: Seq<T>, x: T)
    ensures
        (a + b).contains(x) <==> a.contains(x) || b.contains(x),
{
    if (a + b).contains(x) {
        let i = choose|i: int| 0 <= i < (a + b).len() && (a + b)[i] == x;
        if i < a.len() {
            assert(a[i] == x);
        } else {
            assert(b[i - a.len()] == x);
        }
    }
    if a.contains(x) {
        let i = choose|i: int| 0 <= i < a.len() && a[i] == x;
        assert((a + b)[i] == x);
    }
    if b.contains(x) {
        let i = choose|i: int| 0 <= i < b.len() && b[i] == x;
        assert((a + b)[a.len() + i] == x);
    }
}

/// Every write a plan holds lies at or under the plan's target: a
/// materialized entry can only touch paths that extend its resolved
/// target, never a path beside or above it.
pub proof fn lemma_plan_paths_prefixed(node: FsNode, t: Seq<Seq<char>>)
    ensures
        forall|path: Seq<Seq<char>>, bytes: Seq<u8>|
            #[trigger] plan_model(node, t).contains(OpModel::WriteFile { path, bytes })
                ==> path.len() >= t.len() && path.subrange(0, t.len() as int) == t,
    decreases node, 0int,
{
    match node {
        FsNode::File { bytes } => {
            assert forall|path: Seq<Seq<char>>, b: Seq<u8>|
                #[trigger] plan_model(node, t).contains(
                    OpModel::WriteFile { path, bytes: b },
                ) implies path.len() >= t.len() && path.subrange(0, t.len() as int) == t by {
                let ops = plan_model(node, t);
                let i = choose|i: int|
                    0 <= i < ops.len() && ops[i] == (OpModel::WriteFile { path, bytes: b });
                assert(path == t);
                assert(t.subrange(0, t.len() as int) =~= t);
            }
        },
        FsNode::Dir { children } => {
            lemma_children_paths_prefixed(children@, children@.len() as int, t);
            assert forall|path: Seq<Seq<char>>, b: Seq<u8>|
                #[trigger] plan_model(node, t).contains(
                    OpModel::WriteFile { path, bytes: b },
                ) implies path.len() >= t.len() && path.subrange(0, t.len() as int) == t by {
                let op = OpModel::WriteFile { path, bytes: b };
                lemma_concat_contains(
                    seq![OpModel::MkDirs { path: t }],
                    children_plans(children@, children@.len() as int, t),
                    op,
                );
                assert(!seq![OpModel::MkDirs { path: t }].contains(op)) by {
                    if seq![OpModel::MkDirs { path: t }].contains(op) {
                        let i = choose|i: int|
                            0 <= i < 1 && seq![OpModel::MkDirs { path: t }][i] == op;
                    }
                }
            }
        },
        FsNode::Other => {
        },
    }
}

/// Every write of the first `n` children's plans lies at or under the
/// target.
proof fn lemma_children_paths_prefixed(cs: Seq<DirChild>, n: int, t: Seq<Seq<char>>)
    requires
        n <= cs.len(),
    ensures
        forall|path: Seq<Seq<char>>, bytes: Seq<u8>|
            #[trigger] children_plans(cs, n, t).contains(OpModel::WriteFile { path, bytes })
                ==> path.len() >= t.len() && path.subrange(0, t.len() as int) == t,
    decreases cs, n,
{
    if n > 0 {
        lemma_children_paths_prefixed(cs, n - 1, t);
        let t2 = t.push(cs[n - 1].name@);
        lemma_plan_paths_prefixed(cs[n - 1].node, t2);
        assert forall|path: Seq<Seq<char>>, b: Seq<u8>|
            #[trigger] children_plans(cs, n, t).contains(
                OpModel::WriteFile { path, bytes: b },
            ) implies path.len() >= t.len() && path.subrange(0, t.len() as int) == t by {
            let op = OpModel::WriteFile { path, bytes: b };
            lemma_concat_contains(
                children_plans(cs, n - 1, t),
                plan_model(cs[n - 1].node, t2),
                op,
            );
            if plan_model(cs[n - 1].node, t2).contains(op) {
                assert(path.subrange(0, t2.len() as int) == t2);
                assert(path.subrange(0, t.len() as int) =~= t2.subrange(0, t.len() as int));
                assert(t2.subrange(0, t.len() as int) =~= t);
            }
        }
    }
}

/// What a plan writes is exactly the payload's files, each placed at
/// the target extended by its path inside the payload: a directory
/// payload is copied recursively with its nested structure preserved,
/// and a file payload's bytes land at the target itself.
pub proof fn lemma_plan_writes_files(node: FsNode, target: Seq<Seq<char>>)
    ensures
        forall|rel: Seq<Seq<char>>, b: Seq<u8>|
            #[trigger] files_in(node).contains((rel, b)) <==> plan_model(node, target).contains(
                OpModel::WriteFile { path: target + rel, bytes: b },
            ),
    decreases node, 0int,
{
    match node {
        FsNode::File { bytes } => {
            assert forall|rel: Seq<Seq<char>>, b: Seq<u8>|
                #[trigger] files_in(node).contains((rel, b)) implies plan_model(
                node,
                target,
            ).contains(OpModel::WriteFile { path: target + rel, bytes: b }) by {
                assert(rel == Seq::<Seq<char>>::empty() && b == bytes@);
                assert(target + rel =~= target);
                assert(plan_model(node, target)[1] == (OpModel::WriteFile {
                    path: target + rel,
                    bytes: b,
                }));
            }
            assert forall|rel: Seq<Seq<char>>, b: Seq<u8>|
                #[trigger] plan_model(node, target).contains(
                    OpModel::WriteFile { path: target + rel, bytes: b },
                ) implies files_in(node).contains((rel, b)) by {
                let ops = plan_model(node, target);
                let op = OpModel::WriteFile { path: target + rel, bytes: b };
                let i = choose|i: int| 0 <= i < ops.len() && ops[i] == op;
                assert(target + rel == target && b == bytes@);
                assert(rel =~= Seq::<Seq<char>>::empty()) by {
                    assert((target + rel).len() == target.len());
                }
                assert(files_in(node).contains((rel, b)));
            }
        },
        FsNode::Dir { children } => {
            let cs = children@;
            let nn = cs.len() as int;
            lemma_children_writes_files(cs, nn, target);
            assert forall|rel: Seq<Seq<char>>, b: Seq<u8>|
                #[trigger] files_in(node).contains((rel, b)) implies plan_model(
                node,
                target,
            ).contains(OpModel::WriteFile { path: target + rel, bytes: b }) by {
                let op = OpModel::WriteFile { path: target + rel, bytes: b };
                assert(children_files(cs, nn).contains((rel, b)));
                assert(children_plans(cs, nn, target).contains(op));
                lemma_concat_contains(
                    seq![OpModel::MkDirs { path: target }],
                    children_plans(cs, nn, target),
                    op,
                );
            }
            assert forall|rel: Seq<Seq<char>>, b: Seq<u8>|
                #[trigger] plan_model(node, target).contains(
                    OpModel::WriteFile { path: target + rel, bytes: b },
                ) implies files_in(node).contains((rel, b)) by {
                let op = OpModel::WriteFile { path: target + rel, bytes: b };
                lemma_concat_contains(
                    seq![OpModel::MkDirs { path: target }],
                    children_plans(cs, nn, target),
                    op,
                );
                assert(!seq![OpModel::MkDirs { path: target }].contains(op)) by {
                    if seq![OpModel::MkDirs { path: target }].contains(op) {
                        let i = choose|i: int|
                            0 <= i < 1 && seq![OpModel::MkDirs { path: target }][i] == op;
                    }
                }
                assert(children_plans(cs, nn, target).contains(op));
                assert(children_files(cs, nn).contains((rel, b)));
            }
        },
        FsNode::Other => {
            assert forall|rel: Seq<Seq<char>>, b: Seq<u8>|
                !(#[trigger] plan_model(node, target).contains(
                    OpModel::WriteFile { path: target + rel, bytes: b },
                )) by {
                if plan_model(node, target).contains(
                    OpModel::WriteFile { path: target + rel, bytes: b },
                ) {
                    let ops = plan_model(node, target);
                    let i = choose|i: int|
                        0 <= i < ops.len() && ops[i] == (OpModel::WriteFile {
                            path: target + rel,
                            bytes: b,
                        });
                }
            }
        },
    }
}

/// The correspondence of `lemma_plan_writes_files`, child by child.
proof fn lemma_children_writes_files(cs: Seq<DirChild>, n: int, target: Seq<Seq<char>>)
    requires
        n <= cs.len(),
    ensures
        forall|rel: Seq<Seq<char>>, b: Seq<u8>|
            #[trigger] children_files(cs, n).contains((rel, b)) <==> children_plans(
                cs,
                n,
                target,
            ).contains(OpModel::WriteFile { path: target + rel, bytes: b }),
    decreases cs, n,
{
    if n > 0 {
        lemma_children_writes_files(cs, n - 1, target);
        let name = cs[n - 1].name@;
        let child = cs[n - 1].node;
        let t2 = target.push(name);
        lemma_plan_writes_files(child, t2);
        lemma_plan_paths_prefixed(child, t2);
        let shifted = Set::new(
            |q: (Seq<Seq<char>>, Seq<u8>)|
                exists|p: (Seq<Seq<char>>, Seq<u8>)|
                    #[trigger] files_in(child).contains(p) && q == (seq![name] + p.0, p.1),
        );
        assert forall|rel: Seq<Seq<char>>, b: Seq<u8>|
            #[trigger] children_files(cs, n).contains((rel, b)) implies children_plans(
            cs,
            n,
            target,
        ).contains(OpModel::WriteFile { path: target + rel, bytes: b }) by {
            let op = OpModel::WriteFile { path: target + rel, bytes: b };
            if children_files(cs, n - 1).contains((rel, b)) {
                lemma_concat_contains(
                    children_plans(cs, n - 1, target),
                    plan_model(child, t2),
                    op,
                );
            } else {
                assert(shifted.contains((rel, b)));
                let p = choose|p: (Seq<Seq<char>>, Seq<u8>)|
                    #[trigger] files_in(child).contains(p) && (rel, b) == (
                        seq![name] + p.0,
                        p.1,
                    );
                assert(plan_model(child, t2).contains(OpModel::WriteFile {
                    path: t2 + p.0,
                    bytes: p.1,
                }));
                assert(t2 + p.0 =~= target + rel);
                lemma_concat_contains(
                    children_plans(cs, n - 1, target),
                    plan_model(child, t2),
                    op,
                );
            }
        }
        assert forall|rel: Seq<Seq<char>>, b: Seq<u8>|
            #[trigger] children_plans(cs, n, target).contains(
                OpModel::WriteFile { path: target + rel, bytes: b },
            ) implies children_files(cs, n).contains((rel, b)) by {
            let op = OpModel::WriteFile { path: target + rel, bytes: b };
            lemma_concat_contains(children_plans(cs, n - 1, target), plan_model(child, t2), op);
            if children_plans(cs, n - 1, target).contains(op) {
                assert(children_files(cs, n - 1).contains((rel, b)));
            } else {
                assert(plan_model(child, t2).contains(op));
                assert((target + rel).len() >= t2.len() && (target + rel).subrange(
                    0,
                    t2.len() as int,
                ) == t2);
                let relc = rel.drop_first();
                assert(rel.len() >= 1) by {
                    assert((target + rel).len() >= target.len() + 1);
                }
                assert(rel[0] == name) by {
                    assert((target + rel)[target.len() as int] == t2[target.len() as int]);
                }
                assert(t2 + relc =~= target + rel);
                assert(plan_model(child, t2).contains(OpModel::WriteFile {
                    path: t2 + relc,
                    bytes: b,
                }));
                assert(files_in(child).contains((relc, b)));
                assert(shifted.contains((rel, b))) by {
                    assert(rel =~= seq![name] + relc);
                    assert((rel, b) == (seq![name] + relc, b));
                }
            }
        }
    }
}

/// A supported prefix bound carries down to shorter prefixes, and in
/// particular certifies each child it covers.
proof fn lemma_children_supported_prefix(cs: Seq<DirChild>, n: int, m: int)
    requires
        children_supported(cs, n),
        0 <= m <= n <= cs.len(),
    ensures
        children_supported(cs, m),
        m > 0 ==> node_supported(cs[m - 1].node),
    decreases n - m,
{
    if m < n {
        lemma_children_supported_prefix(cs, n - 1, m);
    }
}

} // verus!
