use vstd::prelude::*;

use crate::path::{opt_chars, FsPath, PathView};

verus! {

/// The agent harness a target directory belongs to.
#[derive(Clone, Copy, Debug, PartialEq, Eq, Hash, Structural)]
pub enum Tool {
    Claude,
    Cursor,
    Codex,
    OpenCode,
}

/// The category of an artifact: it decides how discovery finds it and how it
/// is copied.
#[derive(Clone, Copy, Debug, PartialEq, Eq, Hash, Structural)]
pub enum Kind {
    Skill,
    Command,
    Agent,
}

/// The string form of a kind.
pub open spec fn kind_name(kind: Kind) -> Seq<char> {
    match kind {
        Kind::Skill => "skill"@,
        Kind::Command => "command"@,
        Kind::Agent => "agent"@,
    }
}

/// The discovery marker of a kind, as a glob for messages.
pub open spec fn kind_marker(kind: Kind) -> Seq<char> {
    match kind {
        Kind::Skill => "**/skills/*/SKILL.md"@,
        Kind::Command => "**/commands/*.md"@,
        Kind::Agent => "**/agents/*.md"@,
    }
}

impl Kind {
    pub fn as_str(self) -> (s: &'static str)
        ensures
            s@ == kind_name(self),
    {
        match self {
            Kind::Skill => "skill",
            Kind::Command => "command",
            Kind::Agent => "agent",
        }
    }

    pub fn marker(self) -> (s: &'static str)
        ensures
            s@ == kind_marker(self),
    {
        match self {
            Kind::Skill => "**/skills/*/SKILL.md",
            Kind::Command => "**/commands/*.md",
            Kind::Agent => "**/agents/*.md",
        }
    }
}

/// The views of the elements of a sequence.
pub open spec fn views<T: View>(s: Seq<T>) -> Seq<T::V> {
    Seq::new(s.len(), |i: int| s[i]@)
}

/// The view of `ArtifactMeta`.
pub struct MetaView {
    pub name: Option<Seq<char>>,
    pub description: Option<Seq<char>>,
}

/// Name and description read from an artifact's frontmatter.
#[derive(Debug, PartialEq, Eq)]
pub struct ArtifactMeta {
    pub name: Option<String>,
    pub description: Option<String>,
}

impl View for ArtifactMeta {
    type V = MetaView;

    open spec fn view(&self) -> MetaView {
        MetaView { name: opt_chars(self.name), description: opt_chars(self.description) }
    }
}

impl Default for ArtifactMeta {
    fn default() -> (r: ArtifactMeta)
        ensures
            r@ == (MetaView { name: None, description: None }),
    {
        ArtifactMeta { name: None, description: None }
    }
}

/// The view of `Artifact`.
pub struct ArtifactView {
    pub kind: Kind,
    pub id: Seq<char>,
    pub source: PathView,
    pub meta: MetaView,
}

/// One discovered capability: a skill directory, or a command or agent file.
#[derive(Debug, PartialEq, Eq)]
pub struct Artifact {
    pub kind: Kind,
    pub id: String,
    pub source: FsPath,
    pub meta: ArtifactMeta,
}

impl View for Artifact {
    type V = ArtifactView;

    open spec fn view(&self) -> ArtifactView {
        ArtifactView { kind: self.kind, id: self.id@, source: self.source@, meta: self.meta@ }
    }
}

/// The view of `Catalog`.
pub struct CatalogView {
    pub kind: Kind,
    pub root: PathView,
    pub artifacts: Seq<ArtifactView>,
}

/// The artifacts of one kind found under one root.
#[derive(Debug, PartialEq, Eq)]
pub struct Catalog {
    pub kind: Kind,
    pub root: FsPath,
    pub artifacts: Vec<Artifact>,
}

impl View for Catalog {
    type V = CatalogView;

    open spec fn view(&self) -> CatalogView {
        CatalogView { kind: self.kind, root: self.root@, artifacts: views(self.artifacts@) }
    }
}

/// The view of `Target`.
pub struct TargetView {
    pub tool: Option<Tool>,
    pub output: PathView,
}

/// One output directory, optionally labelled with its harness.
#[derive(Debug, PartialEq, Eq)]
pub struct Target {
    pub tool: Option<Tool>,
    pub output: FsPath,
}

impl View for Target {
    type V = TargetView;

    open spec fn view(&self) -> TargetView {
        TargetView { tool: self.tool, output: self.output@ }
    }
}

impl Clone for Target {
    fn clone(&self) -> (r: Target)
        ensures
            r@ == self@,
    {
        Target { tool: self.tool, output: self.output.clone() }
    }
}

/// The view of `Distribution`.
pub struct DistributionView {
    pub kind: Kind,
    pub root: PathView,
    pub targets: Seq<TargetView>,
}

/// One sync job: a kind under a root, fanned out to targets.
#[derive(Debug, PartialEq, Eq)]
pub struct Distribution {
    pub kind: Kind,
    pub root: FsPath,
    pub targets: Vec<Target>,
}

impl View for Distribution {
    type V = DistributionView;

    open spec fn view(&self) -> DistributionView {
        DistributionView { kind: self.kind, root: self.root@, targets: views(self.targets@) }
    }
}

/// The view of `FileOp`.
pub enum FileOpView {
    Copy { from: PathView, to: PathView },
}

/// One filesystem operation of a plan.
#[derive(Debug, PartialEq, Eq)]
pub enum FileOp {
    Copy { from: FsPath, to: FsPath },
}

impl View for FileOp {
    type V = FileOpView;

    open spec fn view(&self) -> FileOpView {
        match self {
            FileOp::Copy { from, to } => FileOpView::Copy { from: from@, to: to@ },
        }
    }
}

/// The view of `SyncPlan`.
pub struct SyncPlanView {
    pub target: TargetView,
    pub ops: Seq<FileOpView>,
}

/// The operations computed for one target.
#[derive(Debug, PartialEq, Eq)]
pub struct SyncPlan {
    pub target: Target,
    pub ops: Vec<FileOp>,
}

impl View for SyncPlan {
    type V = SyncPlanView;

    open spec fn view(&self) -> SyncPlanView {
        SyncPlanView { target: self.target@, ops: views(self.ops@) }
    }
}

} // verus!
