//! Planning: the copies that bring the artifacts of a catalog to each target.
use vstd::prelude::*;

use crate::model::{views, Artifact, ArtifactView, Catalog, FileOp, FileOpView, Kind, SyncPlan, SyncPlanView, Target};
use crate::path::{parse_path, path_join, path_strip_prefix, FsPath, PathView};

verus! {

/// The views of the walked file lists, one list per artifact.
pub open spec fn tree_views(trees: Seq<Vec<FsPath>>) -> Seq<Seq<PathView>> {
    Seq::new(trees.len(), |i: int| views(trees[i]@))
}

/// Where the artifact named `id` goes under `output`: `output` joined with `id`.
pub open spec fn dest_root(output: PathView, id: Seq<char>) -> PathView {
    path_join(output, parse_path(id))
}

/// One copy per walked file under the skill directory, to the same relative
/// place under `{output}/{id}`, in walk order.
pub open spec fn skill_copy_ops(a: ArtifactView, files: Seq<PathView>, output: PathView) -> Seq<
    FileOpView,
>
    decreases files.len(),
{
    if files.len() == 0 {
        seq![]
    } else {
        let before = skill_copy_ops(a, files.drop_last(), output);
        match path_strip_prefix(files.last(), a.source) {
            Some(rel) => before.push(
                FileOpView::Copy {
                    from: files.last(),
                    to: path_join(dest_root(output, a.id), rel),
                },
            ),
            None => before,
        }
    }
}

/// The copies of one artifact: per file for a skill, one copy of the file to
/// `{output}/{id}` for a command or an agent.
pub open spec fn artifact_ops(a: ArtifactView, files: Seq<PathView>, output: PathView) -> Seq<
    FileOpView,
> {
    match a.kind {
        Kind::Skill => skill_copy_ops(a, files, output),
        _ => seq![FileOpView::Copy { from: a.source, to: dest_root(output, a.id) }],
    }
}

/// The copies of the artifacts, in artifact order.
pub open spec fn plan_ops(arts: Seq<ArtifactView>, trees: Seq<Seq<PathView>>, output: PathView) -> Seq<
    FileOpView,
>
    decreases arts.len(),
{
    if arts.len() == 0 {
        seq![]
    } else {
        plan_ops(arts.drop_last(), trees.drop_last(), output) + artifact_ops(
            arts.last(),
            trees.last(),
            output,
        )
    }
}

/// A planner of copies for one target.
pub trait Adapter {
    /// The operations that bring `artifacts` to `target`; `trees[i]` holds the
    /// files found by walking the source of `artifacts[i]`.
    fn plan(&self, artifacts: &[Artifact], trees: &[Vec<FsPath>], target: &Target) -> (ops: Vec<
        FileOp,
    >)
        requires
            trees@.len() == artifacts@.len(),
    ;
}

/// The adapter that copies artifacts as they are.
pub struct CopyAdapter;

/// One copy per file under the skill directory, to `{output}/{id}/{relpath}`.
pub fn skill_copies(artifact: &Artifact, target: &Target, files: &[FsPath]) -> (ops: Vec<FileOp>)
    ensures
        views(ops@) == skill_copy_ops(artifact@, views(files@), target@.output),
{
    let ghost fs = views(files@);
    let id_path = FsPath::parse(artifact.id.as_str());
    let root = target.output.join(&id_path);
    let mut ops: Vec<FileOp> = Vec::new();
    let n = files.len();
    let mut k: usize = 0;
    assert(fs.take(0) =~= Seq::<PathView>::empty());
    while k < n
        invariant
            n == fs.len(),
            fs == views(files@),
            root@ == dest_root(target@.output, artifact@.id),
            k <= n,
            views(ops@) == skill_copy_ops(artifact@, fs.take(k as int), target@.output),
        decreases n - k,
    {
        assert(fs[k as int] == files@[k as int]@);
        assert(fs.take(k + 1).drop_last() =~= fs.take(k as int));
        assert(fs.take(k + 1).last() == fs[k as int]);
        match files[k].strip_prefix(&artifact.source) {
            Some(rel) => {
                let op = FileOp::Copy { from: files[k].clone(), to: root.join(&rel) };
                let ghost before = views(ops@);
                ops.push(op);
                assert(views(ops@) =~= before.push(op@));
            },
            None => {},
        }
        k += 1;
    }
    assert(fs.take(n as int) =~= fs);
    ops
}

impl Adapter for CopyAdapter {
    fn plan(&self, artifacts: &[Artifact], trees: &[Vec<FsPath>], target: &Target) -> (ops: Vec<
        FileOp,
    >)
        ensures
            views(ops@) == plan_ops(views(artifacts@), tree_views(trees@), target@.output),
    {
        let ghost arts = views(artifacts@);
        let ghost tv = tree_views(trees@);
        let mut ops: Vec<FileOp> = Vec::new();
        let n = artifacts.len();
        let mut k: usize = 0;
        assert(arts.take(0) =~= Seq::<ArtifactView>::empty());
        while k < n
            invariant
                n == arts.len(),
                n == tv.len(),
                arts == views(artifacts@),
                tv == tree_views(trees@),
                k <= n,
                views(ops@) == plan_ops(arts.take(k as int), tv.take(k as int), target@.output),
            decreases n - k,
        {
            assert(arts[k as int] == artifacts@[k as int]@);
            assert(tv[k as int] == views(trees@[k as int]@));
            assert(arts.take(k + 1).drop_last() =~= arts.take(k as int));
            assert(tv.take(k + 1).drop_last() =~= tv.take(k as int));
            assert(arts.take(k + 1).last() == arts[k as int]);
            assert(tv.take(k + 1).last() == tv[k as int]);
            let ghost before = views(ops@);
            match artifacts[k].kind {
                Kind::Skill => {
                    let mut more = skill_copies(&artifacts[k], target, trees[k].as_slice());
                    let ghost m = views(more@);
                    let ghost o = ops@;
                    let ghost mo = more@;
                    ops.append(&mut more);
                    assert(views(ops@) =~= views(o) + views(mo));
                },
                _ => {
                    let id_path = FsPath::parse(artifacts[k].id.as_str());
                    let op = FileOp::Copy {
                        from: artifacts[k].source.clone(),
                        to: target.output.join(&id_path),
                    };
                    ops.push(op);
                    assert(views(ops@) =~= before + seq![op@]);
                },
            }
            k += 1;
        }
        assert(arts.take(n as int) =~= arts);
        assert(tv.take(n as int) =~= tv);
        ops
    }
}

/// One plan per target, in target order: the target and the copies that bring
/// the catalog's artifacts to it; `trees[i]` holds the files found by walking
/// the source of the catalog's `i`-th artifact.
pub fn plan(catalog: &Catalog, targets: &[Target], trees: &[Vec<FsPath>]) -> (plans: Vec<SyncPlan>)
    requires
        trees@.len() == catalog.artifacts@.len(),
    ensures
        plans@.len() == targets@.len(),
        forall|i: int|
            0 <= i < targets@.len() ==> #[trigger] plans@[i]@ == (SyncPlanView {
                target: targets@[i]@,
                ops: plan_ops(catalog@.artifacts, tree_views(trees@), targets@[i]@.output),
            }),
{
    let adapter = CopyAdapter;
    let mut plans: Vec<SyncPlan> = Vec::new();
    let n = targets.len();
    let mut k: usize = 0;
    while k < n
        invariant
            n == targets@.len(),
            trees@.len() == catalog.artifacts@.len(),
            k <= n,
            plans@.len() == k,
            forall|i: int|
                0 <= i < k ==> #[trigger] plans@[i]@ == (SyncPlanView {
                    target: targets@[i]@,
                    ops: plan_ops(catalog@.artifacts, tree_views(trees@), targets@[i]@.output),
                }),
        decreases n - k,
    {
        let ops = adapter.plan(catalog.artifacts.as_slice(), trees, &targets[k]);
        let p = SyncPlan { target: targets[k].clone(), ops };
        plans.push(p);
        k += 1;
    }
    plans
}

} // verus!
