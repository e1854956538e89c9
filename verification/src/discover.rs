//! Discovery: the artifacts of one kind in a walked source tree, as a sorted
//! catalog with unique ids.
use vstd::prelude::*;

use crate::frontmatter::{meta_of, read_frontmatter};
use crate::laws::{derived_from_walk, law_catalog_artifacts_derived};
use crate::model::{
    kind_marker, kind_name, views, Artifact, ArtifactMeta, ArtifactView, Catalog, Kind, MetaView,
};
use crate::path::{
    has_hidden_dir, lemma_path_lt_order, path_extension, path_file_name, path_lt, path_parent,
    path_starts_with, path_strip_prefix, opt_chars, FsPath, PathView,
};
use crate::text::{chars_eq, chars_less, chars_lt, chars_of, lemma_chars_lt_order, lemma_chars_lt_total};

verus! {

/// The view of `WalkedFile`.
pub struct WalkedView {
    pub path: PathView,
    pub text: Option<Seq<char>>,
}

/// One file met by the walk of the source tree, with its text when the
/// caller read it (the caller reads the files that may be primary files of an
/// artifact, see `may_be_primary`).
#[derive(Debug)]
pub struct WalkedFile {
    pub path: FsPath,
    pub text: Option<String>,
}

impl View for WalkedFile {
    type V = WalkedView;

    open spec fn view(&self) -> WalkedView {
        WalkedView { path: self.path@, text: opt_chars(self.text) }
    }
}

/// The view of `DiscoverError`.
pub enum DiscoverErrorView {
    NoArtifacts { kind: Kind },
    NestedSkill { path: PathView, skill_id: Seq<char>, skill_dir: PathView },
    DuplicateId { kind: Kind, id: Seq<char>, first: PathView, second: PathView },
}

/// Why a discovery fails.
#[derive(Debug)]
pub enum DiscoverError {
    /// The tree holds no artifact of the kind.
    NoArtifacts { kind: Kind },
    /// A `SKILL.md` that is not a skill marker lies beneath a skill directory.
    NestedSkill { path: FsPath, skill_id: String, skill_dir: FsPath },
    /// Two artifacts share an id; `first` and `second` are their sources in
    /// catalog order.
    DuplicateId { kind: Kind, id: String, first: FsPath, second: FsPath },
}

impl View for DiscoverError {
    type V = DiscoverErrorView;

    open spec fn view(&self) -> DiscoverErrorView {
        match self {
            DiscoverError::NoArtifacts { kind } => DiscoverErrorView::NoArtifacts { kind: *kind },
            DiscoverError::NestedSkill { path, skill_id, skill_dir } =>
                DiscoverErrorView::NestedSkill {
                path: path@,
                skill_id: skill_id@,
                skill_dir: skill_dir@,
            },
            DiscoverError::DuplicateId { kind, id, first, second } =>
                DiscoverErrorView::DuplicateId {
                kind: *kind,
                id: id@,
                first: first@,
                second: second@,
            },
        }
    }
}

/// The message of a discovery error.
pub open spec fn error_message(e: DiscoverErrorView) -> Seq<char> {
    match e {
        DiscoverErrorView::NoArtifacts { kind } => "no "@ + kind_name(kind) + " artifacts found (marker "@
            + kind_marker(kind)
            + "); search root should be ai-coding or ai-coding/plugins, not ai-coding/skills"@,
        DiscoverErrorView::NestedSkill { path, skill_id, skill_dir } => "nested SKILL.md at "@
            + crate::path::written(path) + " beneath skill `"@ + skill_id + "` ("@
            + crate::path::written(skill_dir) + ")"@,
        DiscoverErrorView::DuplicateId { kind, id, first, second } => "duplicate "@ + kind_name(
            kind,
        ) + " id `"@ + id + "`: "@ + crate::path::written(first) + " and "@
            + crate::path::written(second),
    }
}

impl DiscoverError {
    /// The text of the error.
    pub fn message(&self) -> (s: String)
        ensures
            s@ == error_message(self@),
    {
        let mut s = String::new();
        match self {
            DiscoverError::NoArtifacts { kind } => {
                s.append("no ");
                s.append(kind.as_str());
                s.append(" artifacts found (marker ");
                s.append(kind.marker());
                s.append(
                    "); search root should be ai-coding or ai-coding/plugins, not ai-coding/skills",
                );
            },
            DiscoverError::NestedSkill { path, skill_id, skill_dir } => {
                s.append("nested SKILL.md at ");
                let p = path.display();
                s.append(p.as_str());
                s.append(" beneath skill `");
                s.append(skill_id.as_str());
                s.append("` (");
                let d = skill_dir.display();
                s.append(d.as_str());
                s.append(")");
            },
            DiscoverError::DuplicateId { kind, id, first, second } => {
                s.append("duplicate ");
                s.append(kind.as_str());
                s.append(" id `");
                s.append(id.as_str());
                s.append("`: ");
                let f = first.display();
                s.append(f.as_str());
                s.append(" and ");
                let g = second.display();
                s.append(g.as_str());
            },
        }
        s
    }
}

/// The file name of `p` is `name`.
pub open spec fn name_is(p: PathView, name: Seq<char>) -> bool {
    path_file_name(p) == Some(name)
}

/// `p` is `.../skills/<dir>/SKILL.md`.
pub open spec fn skill_marker(p: PathView) -> bool {
    &&& name_is(p, "SKILL.md"@)
    &&& path_parent(p) is Some
    &&& path_parent(path_parent(p).unwrap()) is Some
    &&& name_is(path_parent(path_parent(p).unwrap()).unwrap(), "skills"@)
}

/// `p` is a `.md` file directly in a directory named `dir_name`.
pub open spec fn direct_kind_file(p: PathView, dir_name: Seq<char>) -> bool {
    &&& path_extension(p) == Some("md"@)
    &&& path_parent(p) is Some
    &&& name_is(path_parent(p).unwrap(), dir_name)
}

/// The metadata of an artifact whose primary file has text `t`.
pub open spec fn meta_from(t: Option<Seq<char>>) -> MetaView {
    match t {
        Some(x) => meta_of(x),
        None => MetaView { name: None, description: None },
    }
}

/// The skill whose marker is `w`: its directory, named by the directory.
pub open spec fn skill_artifact(w: WalkedView) -> ArtifactView {
    let dir = path_parent(w.path).unwrap();
    ArtifactView {
        kind: Kind::Skill,
        id: path_file_name(dir).unwrap(),
        source: dir,
        meta: meta_from(w.text),
    }
}

/// The skills of the walked files, in walk order.
pub open spec fn skill_artifacts(fs: Seq<WalkedView>) -> Seq<ArtifactView>
    decreases fs.len(),
{
    if fs.len() == 0 {
        seq![]
    } else if skill_marker(fs.last().path) {
        skill_artifacts(fs.drop_last()).push(skill_artifact(fs.last()))
    } else {
        skill_artifacts(fs.drop_last())
    }
}

/// The command or agent file `w`, named by its file name.
pub open spec fn file_artifact(kind: Kind, w: WalkedView) -> ArtifactView {
    ArtifactView {
        kind,
        id: path_file_name(w.path).unwrap(),
        source: w.path,
        meta: meta_from(w.text),
    }
}

/// The `.md` files directly in a directory named `dir_name`, in walk order.
pub open spec fn file_artifacts(kind: Kind, fs: Seq<WalkedView>, dir_name: Seq<char>) -> Seq<
    ArtifactView,
>
    decreases fs.len(),
{
    if fs.len() == 0 {
        seq![]
    } else if direct_kind_file(fs.last().path, dir_name) {
        file_artifacts(kind, fs.drop_last(), dir_name).push(file_artifact(kind, fs.last()))
    } else {
        file_artifacts(kind, fs.drop_last(), dir_name)
    }
}

/// The artifacts of `kind` among the walked files, in walk order.
pub open spec fn found_artifacts(kind: Kind, fs: Seq<WalkedView>) -> Seq<ArtifactView> {
    match kind {
        Kind::Skill => skill_artifacts(fs),
        Kind::Command => file_artifacts(kind, fs, "commands"@),
        Kind::Agent => file_artifacts(kind, fs, "agents"@),
    }
}

/// `p` lies, below `root`, inside a directory whose name starts with `.`.
pub open spec fn in_hidden_dir(root: PathView, p: PathView) -> bool {
    match path_strip_prefix(p, root) {
        Some(rel) => has_hidden_dir(rel),
        None => false,
    }
}

/// The walked files that lie in no hidden directory below `root`, in walk
/// order.
pub open spec fn visible(root: PathView, fs: Seq<WalkedView>) -> Seq<WalkedView>
    decreases fs.len(),
{
    if fs.len() == 0 {
        seq![]
    } else if in_hidden_dir(root, fs.last().path) {
        visible(root, fs.drop_last())
    } else {
        visible(root, fs.drop_last()).push(fs.last())
    }
}

/// Every skill marker among the walked files lies in a directory with a name.
pub open spec fn skill_dirs_named(fs: Seq<WalkedView>) -> bool {
    forall|i: int|
        0 <= i < fs.len() && skill_marker(#[trigger] fs[i].path) ==> path_file_name(
            path_parent(fs[i].path).unwrap(),
        ) is Some
}

/// Every skill directory whose name discovery reads has one: that of the
/// first nested pair when there is one, else that of every marker.
pub open spec fn skill_names_read(fs: Seq<WalkedView>) -> bool {
    if has_nested(fs) {
        forall|i: int, j: int|
            #[trigger] first_nested(fs, i, j) ==> path_file_name(path_parent(fs[j].path).unwrap())
                is Some
    } else {
        skill_dirs_named(fs)
    }
}

/// File `i` is a `SKILL.md` that is no marker and lies beneath the directory of
/// the marker `j`.
pub open spec fn nested_at(fs: Seq<WalkedView>, i: int, j: int) -> bool {
    &&& 0 <= i < fs.len()
    &&& 0 <= j < fs.len()
    &&& name_is(fs[i].path, "SKILL.md"@)
    &&& !skill_marker(fs[i].path)
    &&& skill_marker(fs[j].path)
    &&& path_starts_with(fs[i].path, path_parent(fs[j].path).unwrap())
}

/// Some walked `SKILL.md` lies beneath a skill directory.
pub open spec fn has_nested(fs: Seq<WalkedView>) -> bool {
    exists|i: int, j: int| nested_at(fs, i, j)
}

/// `(i, j)` is the first nested pair, by file then by marker.
pub open spec fn first_nested(fs: Seq<WalkedView>, i: int, j: int) -> bool {
    &&& nested_at(fs, i, j)
    &&& forall|i2: int, j2: int| 0 <= i2 < i ==> !nested_at(fs, i2, j2)
    &&& forall|j2: int| 0 <= j2 < j ==> !nested_at(fs, i, j2)
}

/// The error for the nested pair `(i, j)`.
pub open spec fn nested_error(fs: Seq<WalkedView>, i: int, j: int) -> DiscoverErrorView {
    let dir = path_parent(fs[j].path).unwrap();
    DiscoverErrorView::NestedSkill {
        path: fs[i].path,
        skill_id: path_file_name(dir).unwrap(),
        skill_dir: dir,
    }
}

/// The catalog order: by id, then by source.
pub open spec fn artifact_lt(a: ArtifactView, b: ArtifactView) -> bool {
    chars_lt(a.id, b.id) || (a.id == b.id && path_lt(a.source, b.source))
}

/// `s` is in catalog order.
pub open spec fn is_sorted(s: Seq<ArtifactView>) -> bool {
    forall|i: int, j: int| 0 <= i < j < s.len() ==> !artifact_lt(#[trigger] s[j], #[trigger] s[i])
}

/// The ids of the artifacts.
pub open spec fn ids(s: Seq<ArtifactView>) -> Seq<Seq<char>> {
    Seq::new(s.len(), |i: int| s[i].id)
}

/// `s` and `t` hold the same artifacts.
pub open spec fn same_artifacts(s: Seq<ArtifactView>, t: Seq<ArtifactView>) -> bool {
    s.to_multiset() == t.to_multiset() && ids(s).to_multiset() == ids(t).to_multiset()
}

/// `j` is the first artifact whose id occurs earlier, and `i` the first with
/// that id.
pub open spec fn first_duplicate(s: Seq<ArtifactView>, i: int, j: int) -> bool {
    &&& 0 <= i < j < s.len()
    &&& s[i].id == s[j].id
    &&& forall|i2: int, j2: int| 0 <= i2 < j2 < j ==> s[i2].id != s[j2].id
    &&& forall|i2: int| 0 <= i2 < i ==> s[i2].id != s[j].id
}

/// The error for the duplicate pair `(i, j)`.
pub open spec fn duplicate_error(kind: Kind, s: Seq<ArtifactView>, i: int, j: int) -> DiscoverErrorView {
    DiscoverErrorView::DuplicateId { kind, id: s[j].id, first: s[i].source, second: s[j].source }
}

pub proof fn lemma_artifact_lt_order(a: ArtifactView, b: ArtifactView, c: ArtifactView)
    ensures
        !artifact_lt(a, a),
        artifact_lt(a, b) && artifact_lt(b, c) ==> artifact_lt(a, c),
{
    lemma_chars_lt_order(a.id, b.id, c.id);
    lemma_chars_lt_order(a.id, c.id, b.id);
    lemma_chars_lt_order(b.id, a.id, c.id);
    lemma_chars_lt_order(a.id, a.id, a.id);
    lemma_chars_lt_order(b.id, b.id, b.id);
    lemma_path_lt_order(a.source, b.source, c.source);
}

/// Whether the file name of `path` is `name`.
pub fn file_name_is(path: &FsPath, name: &str) -> (r: bool)
    ensures
        r == name_is(path@, name@),
{
    path.file_name_is(name)
}

/// Whether `path` lies, below `root`, inside a directory whose name starts
/// with `.`.
pub fn is_in_hidden_dir(root: &FsPath, path: &FsPath) -> (r: bool)
    ensures
        r == in_hidden_dir(root@, path@),
{
    match path.strip_prefix(root) {
        Some(rel) => rel.has_hidden_dir(),
        None => false,
    }
}

/// The walked files that lie in no hidden directory below `root`, in walk
/// order.
pub fn visible_files(root: &FsPath, files: &[WalkedFile]) -> (r: Vec<WalkedFile>)
    ensures
        views(r@) == visible(root@, views(files@)),
{
    let ghost fs = views(files@);
    let n = files.len();
    let mut out: Vec<WalkedFile> = Vec::new();
    let mut k: usize = 0;
    assert(fs.take(0) =~= Seq::<WalkedView>::empty());
    while k < n
        invariant
            n == fs.len(),
            fs == views(files@),
            k <= n,
            views(out@) == visible(root@, fs.take(k as int)),
        decreases n - k,
    {
        assert(fs[k as int] == files@[k as int]@);
        assert(fs.take(k + 1).drop_last() =~= fs.take(k as int));
        assert(fs.take(k + 1).last() == fs[k as int]);
        if !is_in_hidden_dir(root, &files[k].path) {
            let text = match &files[k].text {
                Some(t) => Some(t.clone()),
                None => None,
            };
            let w = WalkedFile { path: files[k].path.clone(), text };
            let ghost before = views(out@);
            out.push(w);
            assert(views(out@) =~= before.push(w@));
        }
        k += 1;
    }
    assert(fs.take(n as int) =~= fs);
    out
}

/// Whether `path` is a skill marker, `.../skills/<dir>/SKILL.md`.
pub fn is_skill_marker(path: &FsPath) -> (r: bool)
    ensures
        r == skill_marker(path@),
{
    if !file_name_is(path, "SKILL.md") {
        return false;
    }
    match path.parent() {
        Some(dir) => match dir.parent() {
            Some(skills) => file_name_is(&skills, "skills"),
            None => false,
        },
        None => false,
    }
}

/// Whether `path` is a `.md` file directly in a directory named `dir_name`.
pub fn is_direct_kind_file(path: &FsPath, dir_name: &str) -> (r: bool)
    ensures
        r == direct_kind_file(path@, dir_name@),
{
    let md = match path.extension() {
        Some(ext) => {
            let e = chars_of(ext.as_str());
            let m = chars_of("md");
            chars_eq(&e, &m)
        },
        None => false,
    };
    if !md {
        return false;
    }
    match path.parent() {
        Some(dir) => file_name_is(&dir, dir_name),
        None => false,
    }
}

/// Whether the file at `path` may be the primary file of an artifact of
/// `kind`, so that its text is needed.
pub fn may_be_primary(kind: Kind, path: &FsPath) -> (r: bool)
    ensures
        r == match kind {
            Kind::Skill => skill_marker(path@),
            Kind::Command => direct_kind_file(path@, "commands"@),
            Kind::Agent => direct_kind_file(path@, "agents"@),
        },
{
    match kind {
        Kind::Skill => is_skill_marker(path),
        Kind::Command => is_direct_kind_file(path, "commands"),
        Kind::Agent => is_direct_kind_file(path, "agents"),
    }
}

/// The metadata from the text of a primary file, if it was read.
fn primary_meta(text: &Option<String>) -> (r: ArtifactMeta)
    ensures
        r@ == meta_from(opt_chars(*text)),
{
    match text {
        Some(t) => read_frontmatter(t.as_str()),
        None => ArtifactMeta { name: None, description: None },
    }
}

/// The first `SKILL.md` that is no marker and lies beneath the directory of a
/// marker, with the first such marker, if any.
pub fn first_nested_pair(files: &[WalkedFile]) -> (r: Option<(usize, usize)>)
    ensures
        match r {
            Some((i, j)) => first_nested(views(files@), i as int, j as int),
            None => !has_nested(views(files@)),
        },
{
    let ghost fs = views(files@);
    let n = files.len();
    let mut i: usize = 0;
    while i < n
        invariant
            n == fs.len(),
            fs == views(files@),
            i <= n,
            forall|i2: int, j2: int| 0 <= i2 < i ==> !nested_at(fs, i2, j2),
        decreases n - i,
    {
        assert(fs[i as int] == files@[i as int]@);
        if file_name_is(&files[i].path, "SKILL.md") && !is_skill_marker(&files[i].path) {
            let mut j: usize = 0;
            while j < n
                invariant
                    n == fs.len(),
                    fs == views(files@),
                    i < n,
                    j <= n,
                    name_is(fs[i as int].path, "SKILL.md"@),
                    !skill_marker(fs[i as int].path),
                    forall|i2: int, j2: int| 0 <= i2 < i ==> !nested_at(fs, i2, j2),
                    forall|j2: int| 0 <= j2 < j ==> !nested_at(fs, i as int, j2),
                decreases n - j,
            {
                assert(fs[j as int] == files@[j as int]@);
                if is_skill_marker(&files[j].path) {
                    let dir = files[j].path.parent().unwrap();
                    if files[i].path.starts_with(&dir) {
                        assert(nested_at(fs, i as int, j as int));
                        assert(first_nested(fs, i as int, j as int));
                        return Some((i, j));
                    }
                }
                j += 1;
            }
        } else {
            assert forall|j2: int| !nested_at(fs, i as int, j2) by {}
        }
        i += 1;
    }
    None
}

/// Whether discovery of skills would read the name of a skill directory that
/// has none: that of the first nested pair, or else that of any marker.
pub fn skill_name_missing(files: &[WalkedFile]) -> (r: bool)
    ensures
        r == !skill_names_read(views(files@)),
{
    let ghost fs = views(files@);
    match first_nested_pair(files) {
        Some((i, j)) => {
            let dir = files[j].path.parent().unwrap();
            assert(fs[j as int] == files@[j as int]@);
            let r = dir.file_name().is_none();
            proof {
                lemma_first_nested_unique(fs, i as int, j as int);
            }
            r
        },
        None => {
            let n = files.len();
            let mut k: usize = 0;
            while k < n
                invariant
                    n == fs.len(),
                    fs == views(files@),
                    !has_nested(fs),
                    k <= n,
                    forall|k2: int|
                        0 <= k2 < k && skill_marker(#[trigger] fs[k2].path) ==> path_file_name(
                            path_parent(fs[k2].path).unwrap(),
                        ) is Some,
                decreases n - k,
            {
                assert(fs[k as int] == files@[k as int]@);
                if is_skill_marker(&files[k].path) {
                    let dir = files[k].path.parent().unwrap();
                    if dir.file_name().is_none() {
                        assert(skill_marker(fs[k as int].path));
                        assert(!skill_dirs_named(fs));
                        return true;
                    }
                }
                k += 1;
            }
            false
        },
    }
}

/// The first nested pair is the only one.
pub proof fn lemma_first_nested_unique(fs: Seq<WalkedView>, i: int, j: int)
    requires
        first_nested(fs, i, j),
    ensures
        forall|i2: int, j2: int| #[trigger] first_nested(fs, i2, j2) ==> i2 == i && j2 == j,
{
    assert forall|i2: int, j2: int| #[trigger] first_nested(fs, i2, j2) implies i2 == i && j2
        == j by {
        if i2 < i {
            assert(!nested_at(fs, i2, j2));
        } else if i < i2 {
            assert(!nested_at(fs, i, j));
        } else if j2 < j {
            assert(!nested_at(fs, i, j2));
        } else if j < j2 {
            assert(!nested_at(fs, i2, j));
        }
    }
}

/// The skills of the walked files in walk order, or the error for the first
/// `SKILL.md` that lies beneath a skill directory without being a marker.
pub fn discover_skills(files: &[WalkedFile]) -> (r: Result<Vec<Artifact>, DiscoverError>)
    requires
        skill_names_read(views(files@)),
    ensures
        match r {
            Ok(v) => !has_nested(views(files@)) && views(v@) == skill_artifacts(views(files@)),
            Err(e) => exists|i: int, j: int|
                first_nested(views(files@), i, j) && e@ == nested_error(views(files@), i, j),
        },
{
    let ghost fs = views(files@);
    let n = files.len();
    match first_nested_pair(files) {
        Some((i, j)) => {
            assert(fs[i as int] == files@[i as int]@);
            assert(fs[j as int] == files@[j as int]@);
            let dir = files[j].path.parent().unwrap();
            assert(path_file_name(dir@) is Some);
            let skill_id = dir.file_name().unwrap();
            let e = DiscoverError::NestedSkill {
                path: files[i].path.clone(),
                skill_id,
                skill_dir: dir,
            };
            return Err(e);
        },
        None => {},
    }
    assert(skill_dirs_named(fs));
    let mut out: Vec<Artifact> = Vec::new();
    let mut k: usize = 0;
    assert(fs.take(0) =~= Seq::<WalkedView>::empty());
    while k < n
        invariant
            n == fs.len(),
            fs == views(files@),
            skill_dirs_named(fs),
            k <= n,
            views(out@) == skill_artifacts(fs.take(k as int)),
        decreases n - k,
    {
        assert(fs[k as int] == files@[k as int]@);
        assert(fs.take(k + 1).drop_last() =~= fs.take(k as int));
        assert(fs.take(k + 1).last() == fs[k as int]);
        if is_skill_marker(&files[k].path) {
            let dir = files[k].path.parent().unwrap();
            assert(path_file_name(dir@) is Some);
            let id = dir.file_name().unwrap();
            let meta = primary_meta(&files[k].text);
            let a = Artifact { kind: Kind::Skill, id, source: dir, meta };
            let ghost before = views(out@);
            out.push(a);
            assert(views(out@) =~= before.push(a@));
            assert(a@ == skill_artifact(fs[k as int]));
        }
        k += 1;
    }
    assert(fs.take(n as int) =~= fs);
    Ok(out)
}

/// The `.md` files directly in a directory named `dir_name`, as artifacts of
/// `kind` named by their file names, in walk order.
pub fn discover_files(kind: Kind, files: &[WalkedFile], dir_name: &str) -> (r: Vec<Artifact>)
    ensures
        views(r@) == file_artifacts(kind, views(files@), dir_name@),
{
    let ghost fs = views(files@);
    let n = files.len();
    let mut out: Vec<Artifact> = Vec::new();
    let mut k: usize = 0;
    assert(fs.take(0) =~= Seq::<WalkedView>::empty());
    while k < n
        invariant
            n == fs.len(),
            fs == views(files@),
            k <= n,
            views(out@) == file_artifacts(kind, fs.take(k as int), dir_name@),
        decreases n - k,
    {
        assert(fs[k as int] == files@[k as int]@);
        assert(fs.take(k + 1).drop_last() =~= fs.take(k as int));
        assert(fs.take(k + 1).last() == fs[k as int]);
        if is_direct_kind_file(&files[k].path, dir_name) {
            let id = files[k].path.file_name().unwrap();
            let meta = primary_meta(&files[k].text);
            let a = Artifact { kind, id, source: files[k].path.clone(), meta };
            let ghost before = views(out@);
            out.push(a);
            assert(views(out@) =~= before.push(a@));
        }
        k += 1;
    }
    assert(fs.take(n as int) =~= fs);
    out
}

/// Whether `a` comes before `b` in catalog order.
fn artifact_less(a: &Artifact, b: &Artifact) -> (r: bool)
    ensures
        r == artifact_lt(a@, b@),
{
    let x = chars_of(a.id.as_str());
    let y = chars_of(b.id.as_str());
    if chars_less(&x, &y) {
        true
    } else if chars_eq(&x, &y) {
        a.source.less(&b.source)
    } else {
        false
    }
}

/// The artifacts in catalog order (by id, then by source).
pub fn sort_artifacts(v: Vec<Artifact>) -> (r: Vec<Artifact>)
    ensures
        is_sorted(views(r@)),
        same_artifacts(views(r@), views(v@)),
{
    let ghost orig = views(v@);
    let mut rest = v;
    let mut res: Vec<Artifact> = Vec::new();
    assert(orig.take(orig.len() as int) =~= orig);
    proof {
        broadcast use vstd::seq_lib::group_to_multiset_ensures;

        let e1 = views(res@);
        let e2 = ids(views(res@));
        assert(e1 =~= Seq::<ArtifactView>::empty());
        assert(e2 =~= Seq::<Seq<char>>::empty());
        assert(e1.to_multiset().len() == 0);
        assert(e2.to_multiset().len() == 0);
        assert(e1.to_multiset().add(views(rest@).to_multiset()) =~= orig.to_multiset());
        assert(e2.to_multiset().add(ids(views(rest@)).to_multiset()) =~= ids(orig).to_multiset());
    }
    while rest.len() > 0
        invariant
            is_sorted(views(res@)),
            views(rest@) == orig.take(rest@.len() as int),
            rest@.len() <= orig.len(),
            views(res@).to_multiset().add(views(rest@).to_multiset()) == orig.to_multiset(),
            ids(views(res@)).to_multiset().add(ids(views(rest@)).to_multiset()) == ids(
                orig,
            ).to_multiset(),
        decreases rest@.len(),
    {
        let ghost rest0 = views(rest@);
        let ghost res0 = views(res@);
        let x = rest.pop().unwrap();
        proof {
            assert(views(rest@) =~= rest0.drop_last());
            assert(rest0 =~= views(rest@).push(x@));
            assert(ids(rest0) =~= ids(views(rest@)).push(x@.id));
            assert(orig.take(rest@.len() as int) =~= rest0.drop_last());
            vstd::seq_lib::to_multiset_build(views(rest@), x@);
            vstd::seq_lib::to_multiset_build(ids(views(rest@)), x@.id);
        }
        let mut p: usize = 0;
        while p < res.len() && !artifact_less(&x, &res[p])
            invariant
                p <= res@.len(),
                res0 == views(res@),
                forall|q: int| 0 <= q < p ==> !artifact_lt(x@, #[trigger] res0[q]),
            decreases res@.len() - p,
        {
            assert(res0[p as int] == res@[p as int]@);
            p += 1;
        }
        proof {
            if p < res@.len() {
                assert(res0[p as int] == res@[p as int]@);
            }
        }
        let ghost xv = x@;
        res.insert(p, x);
        proof {
            let s = views(res@);
            assert(s =~= res0.insert(p as int, xv));
            assert(ids(s) =~= ids(res0).insert(p as int, xv.id));
            vstd::seq_lib::to_multiset_insert(res0, p as int, xv);
            vstd::seq_lib::to_multiset_insert(ids(res0), p as int, xv.id);
            assert forall|i: int, j: int| 0 <= i < j < s.len() implies !artifact_lt(
                #[trigger] s[j],
                #[trigger] s[i],
            ) by {
                if j < p {
                    assert(s[i] == res0[i] && s[j] == res0[j]);
                } else if j == p {
                    assert(s[j] == xv && s[i] == res0[i]);
                } else if i == p {
                    assert(s[i] == xv && s[j] == res0[j - 1]);
                    lemma_artifact_lt_order(res0[j - 1], xv, res0[p as int]);
                    lemma_artifact_lt_order(xv, res0[p as int], res0[j - 1]);
                    if j - 1 > p {
                        assert(!artifact_lt(res0[j - 1], res0[p as int]));
                    }
                } else if i < p {
                    assert(s[i] == res0[i] && s[j] == res0[j - 1]);
                } else {
                    assert(s[i] == res0[i - 1] && s[j] == res0[j - 1]);
                }
            }
            assert(s.to_multiset().add(views(rest@).to_multiset()) =~= orig.to_multiset());
            assert(ids(s).to_multiset().add(ids(views(rest@)).to_multiset()) =~= ids(
                orig,
            ).to_multiset());
        }
    }
    proof {
        assert(views(rest@) =~= Seq::<ArtifactView>::empty());
        assert(ids(views(rest@)) =~= Seq::<Seq<char>>::empty());
        assert(views(res@).to_multiset() =~= orig.to_multiset());
        assert(ids(views(res@)).to_multiset() =~= ids(orig).to_multiset());
    }
    res
}

/// The error for the first artifact whose id occurs earlier, if any.
pub fn check_duplicate_ids(kind: Kind, artifacts: &[Artifact]) -> (r: Result<(), DiscoverError>)
    ensures
        match r {
            Ok(()) => ids(views(artifacts@)).no_duplicates(),
            Err(e) => exists|i: int, j: int|
                first_duplicate(views(artifacts@), i, j) && e@ == duplicate_error(
                    kind,
                    views(artifacts@),
                    i,
                    j,
                ),
        },
{
    let ghost s = views(artifacts@);
    let n = artifacts.len();
    let mut j: usize = 0;
    while j < n
        invariant
            n == s.len(),
            s == views(artifacts@),
            j <= n,
            forall|i2: int, j2: int| 0 <= i2 < j2 < j ==> s[i2].id != s[j2].id,
        decreases n - j,
    {
        let mut i: usize = 0;
        while i < j
            invariant
                n == s.len(),
                s == views(artifacts@),
                i <= j < n,
                forall|i2: int, j2: int| 0 <= i2 < j2 < j ==> s[i2].id != s[j2].id,
                forall|i2: int| 0 <= i2 < i ==> s[i2].id != s[j as int].id,
            decreases j - i,
        {
            assert(s[i as int] == artifacts@[i as int]@);
            assert(s[j as int] == artifacts@[j as int]@);
            if artifacts[i].id == artifacts[j].id {
                let e = DiscoverError::DuplicateId {
                    kind,
                    id: artifacts[j].id.clone(),
                    first: artifacts[i].source.clone(),
                    second: artifacts[j].source.clone(),
                };
                assert(first_duplicate(s, i as int, j as int));
                return Err(e);
            }
            i += 1;
        }
        j += 1;
    }
    assert(ids(s).no_duplicates()) by {
        assert forall|a: int, b: int|
            0 <= a < ids(s).len() && 0 <= b < ids(s).len() && a != b implies ids(s)[a] != ids(
            s,
        )[b] by {
            if a < b {
                assert(s[a].id != s[b].id);
            } else {
                assert(s[b].id != s[a].id);
            }
        }
    }
    Ok(())
}

/// Sequences holding the same ids both have, or both lack, a repeated id.
pub proof fn lemma_same_ids_no_duplicates(s: Seq<ArtifactView>, t: Seq<ArtifactView>)
    requires
        ids(s).to_multiset() == ids(t).to_multiset(),
    ensures
        ids(s).no_duplicates() <==> ids(t).no_duplicates(),
{
    if ids(s).no_duplicates() {
        ids(s).lemma_multiset_has_no_duplicates();
        ids(t).lemma_multiset_has_no_duplicates_conv();
    }
    if ids(t).no_duplicates() {
        ids(t).lemma_multiset_has_no_duplicates();
        ids(s).lemma_multiset_has_no_duplicates_conv();
    }
}

/// The artifacts of `kind` in the walked tree under `root`, as a catalog in
/// catalog order (by id, then by source). Files inside a directory whose name
/// starts with `.` below `root` are skipped.
///
/// It fails, in this order of precedence: for skills, when a `SKILL.md` that
/// is no marker lies beneath a skill directory; when no artifact is found;
/// when two artifacts share an id.
pub fn discover(root: &FsPath, kind: Kind, files: &[WalkedFile]) -> (r: Result<Catalog, DiscoverError>)
    requires
        kind == Kind::Skill ==> skill_names_read(visible(root@, views(files@))),
    ensures
        r is Ok <==> (!(kind == Kind::Skill && has_nested(visible(root@, views(files@)))) && found_artifacts(
            kind,
            visible(root@, views(files@)),
        ).len() > 0 && ids(found_artifacts(kind, visible(root@, views(files@)))).no_duplicates()),
        match r {
            Ok(c) => {
                &&& c@.kind == kind
                &&& c@.root == root@
                &&& is_sorted(c@.artifacts)
                &&& same_artifacts(c@.artifacts, found_artifacts(kind, visible(root@, views(files@))))
                &&& ids(c@.artifacts).no_duplicates()
                &&& forall|i: int, j: int|
                    0 <= i < j < c@.artifacts.len() ==> chars_lt(
                        #[trigger] c@.artifacts[i].id,
                        #[trigger] c@.artifacts[j].id,
                    )
                &&& c@.artifacts.len() > 0
                &&& forall|k: int|
                    0 <= k < c@.artifacts.len() ==> derived_from_walk(
                        kind,
                        visible(root@, views(files@)),
                        #[trigger] c@.artifacts[k],
                    )
            },
            Err(e) => match e@ {
                DiscoverErrorView::NestedSkill { .. } => kind == Kind::Skill && exists|i: int, j: int|
                    first_nested(visible(root@, views(files@)), i, j) && e@ == nested_error(visible(root@, views(files@)), i, j),
                DiscoverErrorView::NoArtifacts { kind: k } => k == kind && !(kind == Kind::Skill
                    && has_nested(visible(root@, views(files@)))) && found_artifacts(kind, visible(root@, views(files@))).len()
                    == 0,
                DiscoverErrorView::DuplicateId { .. } => !(kind == Kind::Skill && has_nested(
                    visible(root@, views(files@)),
                )) && exists|s: Seq<ArtifactView>, i: int, j: int|
                    is_sorted(s) && same_artifacts(s, found_artifacts(kind, visible(root@, views(files@))))
                        && first_duplicate(s, i, j) && e@ == duplicate_error(kind, s, i, j),
            },
        },
{
    let shown = visible_files(root, files);
    let ghost fs = views(shown@);
    let found = match kind {
        Kind::Skill => match discover_skills(shown.as_slice()) {
            Ok(v) => v,
            Err(e) => {
                return Err(e);
            },
        },
        Kind::Command => discover_files(kind, shown.as_slice(), "commands"),
        Kind::Agent => discover_files(kind, shown.as_slice(), "agents"),
    };
    let ghost fv = views(found@);
    assert(fv == found_artifacts(kind, fs));
    if found.len() == 0 {
        return Err(DiscoverError::NoArtifacts { kind });
    }
    let sorted = sort_artifacts(found);
    proof {
        lemma_same_ids_no_duplicates(views(sorted@), fv);
    }
    match check_duplicate_ids(kind, sorted.as_slice()) {
        Ok(()) => {},
        Err(e) => {
            proof {
                let ghost (i, j) = choose|i: int, j: int|
                    first_duplicate(views(sorted@), i, j) && e@ == duplicate_error(
                        kind,
                        views(sorted@),
                        i,
                        j,
                    );
                assert(ids(views(sorted@))[i] == ids(views(sorted@))[j]);
            }
            return Err(e);
        },
    }
    proof {
        law_catalog_artifacts_derived(kind, fs, views(sorted@));
        let sv = views(sorted@);
        assert forall|i: int, j: int| 0 <= i < j < sv.len() implies chars_lt(
            #[trigger] sv[i].id,
            #[trigger] sv[j].id,
        ) by {
            assert(ids(sv)[i] == sv[i].id && ids(sv)[j] == sv[j].id);
            lemma_chars_lt_total(sv[i].id, sv[j].id);
            assert(!artifact_lt(sv[j], sv[i]));
        }
    }
    Ok(Catalog { kind, root: root.clone(), artifacts: sorted })
}

} // verus!
