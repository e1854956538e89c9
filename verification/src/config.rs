//! Building a sync job from command-line flags.
use vstd::prelude::*;

use crate::model::{Distribution, Kind, Target, TargetView};
use crate::path::FsPath;

verus! {

/// The job that the flags `--src`, `--dst` and `--kind` describe: one
/// unlabelled target writing to `dst`.
pub fn from_flags(src: FsPath, dst: FsPath, kind: Kind) -> (d: Distribution)
    ensures
        d@.kind == kind,
        d@.root == src@,
        d@.targets == seq![TargetView { tool: None, output: dst@ }],
{
    let ghost dv = dst@;
    let mut targets: Vec<Target> = Vec::new();
    targets.push(Target { tool: None, output: dst });
    let d = Distribution { kind, root: src, targets };
    assert(d@.targets =~= seq![TargetView { tool: None, output: dv }]);
    d
}

} // verus!
