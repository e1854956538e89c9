//! Properties that span the functions of the library.
use vstd::prelude::*;

use crate::adapter::{artifact_ops, dest_root, plan_ops, skill_copy_ops};
use crate::discover::{
    direct_kind_file, file_artifact, file_artifacts, found_artifacts, meta_from, skill_artifact,
    has_nested, nested_at, skill_artifacts, skill_dirs_named, skill_marker, WalkedView,
};
use crate::frontmatter::{dashes, frontmatter, meta_of, nl_dashes, scalar_from, unescape, unquoted};
use crate::model::{ArtifactView, FileOpView, Kind, MetaView, TargetView};
use crate::text::{
    is_ws, lemma_find_first, lemma_line_end_at, lemma_trim_after_space, lemma_trim_drops_cr,
    lemma_trim_unchanged, matches_at, strip_prefix, trim,
};
use crate::path::{path_starts_with, ends_open, lemma_join_lengths, lemma_parse_lengths, parse_path, is_normal, path_file_name, path_parent, path_strip_prefix, path_join, path_wf, cur_comp, root_comp, up_comp, PathView};

verus! {

/// The directory that holds the files of `kind`.
pub open spec fn kind_dir(kind: Kind) -> Seq<char> {
    match kind {
        Kind::Skill => "skills"@,
        Kind::Command => "commands"@,
        Kind::Agent => "agents"@,
    }
}

/// `a` is what discovery makes of the walked file `w`: its source is the
/// directory of the skill marker `w` (skills) or the `.md` file `w` directly
/// in the kind's directory (commands, agents), and its metadata is read from
/// `w`.
pub open spec fn made_from(kind: Kind, w: WalkedView, a: ArtifactView) -> bool {
    &&& a.meta == meta_from(w.text)
    &&& if kind == Kind::Skill {
        skill_marker(w.path) && path_parent(w.path) == Some(a.source)
    } else {
        w.path == a.source && direct_kind_file(w.path, kind_dir(kind))
    }
}

/// `a` is what discovery makes of a walked file of `fs`: of kind `kind`, with
/// the file name of its source as id, made from one of the walked files.
pub open spec fn derived_from_walk(kind: Kind, fs: Seq<WalkedView>, a: ArtifactView) -> bool {
    &&& a.kind == kind
    &&& path_file_name(a.source) == Some(a.id)
    &&& exists|i: int| 0 <= i < fs.len() && made_from(kind, #[trigger] fs[i], a)
}

proof fn lemma_derived_extends(kind: Kind, fs: Seq<WalkedView>, a: ArtifactView)
    requires
        fs.len() > 0,
        derived_from_walk(kind, fs.drop_last(), a),
    ensures
        derived_from_walk(kind, fs, a),
{
    let i = choose|i: int| 0 <= i < fs.drop_last().len() && made_from(kind, #[trigger] fs.drop_last()[i], a);
    assert(fs.drop_last()[i] == fs[i]);
    assert(made_from(kind, fs[i], a));
}

proof fn lemma_skills_derived(fs: Seq<WalkedView>)
    requires
        skill_dirs_named(fs),
    ensures
        forall|k: int|
            0 <= k < skill_artifacts(fs).len() ==> derived_from_walk(
                Kind::Skill,
                fs,
                #[trigger] skill_artifacts(fs)[k],
            ),
    decreases fs.len(),
{
    if fs.len() > 0 {
        let pre = fs.drop_last();
        assert(skill_dirs_named(pre)) by {
            assert forall|i: int| 0 <= i < pre.len() && skill_marker(#[trigger] pre[i].path) implies path_file_name(
                path_parent(pre[i].path).unwrap(),
            ) is Some by {
                assert(pre[i] == fs[i]);
            }
        }
        lemma_skills_derived(pre);
        let r = skill_artifacts(pre);
        assert forall|k: int|
            0 <= k < skill_artifacts(fs).len() implies derived_from_walk(
            Kind::Skill,
            fs,
            #[trigger] skill_artifacts(fs)[k],
        ) by {
            if k < r.len() {
                assert(skill_artifacts(fs)[k] == r[k]);
                lemma_derived_extends(Kind::Skill, fs, r[k]);
            } else {
                let last = fs.len() - 1;
                assert(skill_artifacts(fs)[k] == skill_artifact(fs[last]));
                assert(made_from(Kind::Skill, fs[last], skill_artifacts(fs)[k]));
            }
        }
    }
}

proof fn lemma_files_derived(kind: Kind, fs: Seq<WalkedView>)
    requires
        kind != Kind::Skill,
    ensures
        forall|k: int|
            0 <= k < file_artifacts(kind, fs, kind_dir(kind)).len() ==> derived_from_walk(
                kind,
                fs,
                #[trigger] file_artifacts(kind, fs, kind_dir(kind))[k],
            ),
    decreases fs.len(),
{
    if fs.len() > 0 {
        let pre = fs.drop_last();
        lemma_files_derived(kind, pre);
        let r = file_artifacts(kind, pre, kind_dir(kind));
        assert forall|k: int|
            0 <= k < file_artifacts(kind, fs, kind_dir(kind)).len() implies derived_from_walk(
            kind,
            fs,
            #[trigger] file_artifacts(kind, fs, kind_dir(kind))[k],
        ) by {
            if k < r.len() {
                assert(file_artifacts(kind, fs, kind_dir(kind))[k] == r[k]);
                lemma_derived_extends(kind, fs, r[k]);
            } else {
                let last = fs.len() - 1;
                assert(file_artifacts(kind, fs, kind_dir(kind))[k] == file_artifact(kind, fs[last]));
                assert(made_from(kind, fs[last], file_artifacts(kind, fs, kind_dir(kind))[k]));
            }
        }
    }
}

/// Every artifact that discovery finds is derived from the walk: it has the
/// kind searched for, its id is the file name of its source, and its source and
/// metadata come from a walked primary file of that kind.
pub proof fn law_found_artifacts_derived(kind: Kind, fs: Seq<WalkedView>)
    requires
        kind == Kind::Skill ==> skill_dirs_named(fs),
    ensures
        forall|k: int|
            0 <= k < found_artifacts(kind, fs).len() ==> derived_from_walk(
                kind,
                fs,
                #[trigger] found_artifacts(kind, fs)[k],
            ),
{
    let f = found_artifacts(kind, fs);
    if kind == Kind::Skill {
        lemma_skills_derived(fs);
        assert(f == skill_artifacts(fs));
        assert forall|k: int| 0 <= k < f.len() implies derived_from_walk(kind, fs, #[trigger] f[k]) by {
            assert(f[k] == skill_artifacts(fs)[k]);
        }
    } else {
        lemma_files_derived(kind, fs);
        assert(f == file_artifacts(kind, fs, kind_dir(kind)));
        assert forall|k: int| 0 <= k < f.len() implies derived_from_walk(kind, fs, #[trigger] f[k]) by {
            assert(f[k] == file_artifacts(kind, fs, kind_dir(kind))[k]);
        }
    }
}

/// A sequence holding the same artifacts as the found ones (such as the
/// artifacts of a catalog that discovery returns) holds only artifacts derived
/// from the walk, and as many as were found.
pub proof fn law_catalog_artifacts_derived(kind: Kind, fs: Seq<WalkedView>, s: Seq<ArtifactView>)
    requires
        kind == Kind::Skill ==> skill_dirs_named(fs),
        s.to_multiset() == found_artifacts(kind, fs).to_multiset(),
    ensures
        s.len() == found_artifacts(kind, fs).len(),
        forall|k: int| 0 <= k < s.len() ==> derived_from_walk(kind, fs, #[trigger] s[k]),
{
    broadcast use vstd::seq_lib::group_to_multiset_ensures;

    let f = found_artifacts(kind, fs);
    law_found_artifacts_derived(kind, fs);
    vstd::seq_lib::to_multiset_len(s);
    vstd::seq_lib::to_multiset_len(f);
    assert forall|k: int| 0 <= k < s.len() implies derived_from_walk(kind, fs, #[trigger] s[k]) by {
        assert(s.to_multiset().count(s[k]) > 0);
        assert(f.to_multiset().count(s[k]) > 0);
        assert(f.contains(s[k]));
        let j = choose|j: int| 0 <= j < f.len() && f[j] == s[k];
        assert(derived_from_walk(kind, fs, f[j]));
    }
}

/// An artifact gives at least one copy: a command or an agent always, a
/// skill when the walk of its directory holds a file under it.
pub proof fn law_artifact_has_work(a: ArtifactView, files: Seq<PathView>, output: PathView)
    requires
        a.kind == Kind::Skill ==> exists|p: PathView|
            files.contains(p) && path_strip_prefix(p, a.source) is Some,
    ensures
        artifact_ops(a, files, output).len() > 0,
{
    if a.kind == Kind::Skill {
        let p = choose|p: PathView| files.contains(p) && path_strip_prefix(p, a.source) is Some;
        let j = choose|j: int| 0 <= j < files.len() && files[j] == p;
        lemma_skill_ops_grow(a, files, output, j);
    }
}

/// The copies of a run of artifacts are those of its first part followed by
/// those of the rest, and no artifacts give no copies.
pub proof fn law_plan_ops_concat(
    a: Seq<ArtifactView>,
    ta: Seq<Seq<PathView>>,
    b: Seq<ArtifactView>,
    tb: Seq<Seq<PathView>>,
    output: PathView,
)
    requires
        ta.len() == a.len(),
        tb.len() == b.len(),
    ensures
        plan_ops(a + b, ta + tb, output) == plan_ops(a, ta, output) + plan_ops(b, tb, output),
        plan_ops(Seq::empty(), Seq::empty(), output) == Seq::<FileOpView>::empty(),
    decreases b.len(),
{
    if b.len() == 0 {
        assert(a + b =~= a);
        assert(ta + tb =~= ta);
        assert(plan_ops(a, ta, output) + plan_ops(b, tb, output) =~= plan_ops(a, ta, output));
    } else {
        law_plan_ops_concat(a, ta, b.drop_last(), tb.drop_last(), output);
        assert((a + b).drop_last() =~= a + b.drop_last());
        assert((ta + tb).drop_last() =~= ta + tb.drop_last());
        assert((a + b).last() == b.last());
        assert((ta + tb).last() == tb.last());
        assert(plan_ops(a + b, ta + tb, output) =~= plan_ops(a, ta, output) + plan_ops(
            b,
            tb,
            output,
        ));
    }
}

/// The copies for a target depend on its output directory alone: two targets
/// that differ only in their harness label get the same copies.
pub proof fn law_plan_ignores_tool(
    arts: Seq<ArtifactView>,
    trees: Seq<Seq<PathView>>,
    t1: TargetView,
    t2: TargetView,
)
    requires
        t1.output == t2.output,
    ensures
        plan_ops(arts, trees, t1.output) == plan_ops(arts, trees, t2.output),
{
}

/// Every artifact gives at least one copy when the walk of each skill holds
/// a file under its directory, so a plan for a non-empty catalog has work.
pub proof fn law_plan_has_work(arts: Seq<ArtifactView>, trees: Seq<Seq<PathView>>, output: PathView)
    requires
        arts.len() > 0,
        trees.len() == arts.len(),
        forall|i: int|
            0 <= i < arts.len() && (#[trigger] arts[i]).kind == Kind::Skill ==> exists|p: PathView|
                trees[i].contains(p) && path_strip_prefix(p, arts[i].source) is Some,
    ensures
        plan_ops(arts, trees, output).len() > 0,
{
    let last = arts.len() - 1;
    assert(arts.last() == arts[last]);
    law_artifact_has_work(arts[last], trees[last], output);
}

proof fn lemma_skill_ops_grow(a: ArtifactView, files: Seq<PathView>, output: PathView, j: int)
    requires
        0 <= j < files.len(),
        path_strip_prefix(files[j], a.source) is Some,
    ensures
        skill_copy_ops(a, files, output).len() > 0,
    decreases files.len(),
{
    if j < files.len() - 1 {
        assert(files.drop_last()[j] == files[j]);
        lemma_skill_ops_grow(a, files.drop_last(), output, j);
    }
}

/// Each copy of a skill file goes under `{output}/{id}` to the place that the
/// file has under the skill directory, and copies a walked file.
pub proof fn law_skill_copy_mirrors_source(
    a: ArtifactView,
    files: Seq<PathView>,
    output: PathView,
    k: int,
)
    requires
        a.source.comps.len() > 0,
        path_wf(output),
        forall|i: int| 0 <= i < files.len() ==> path_wf(#[trigger] files[i]),
        0 <= k < skill_copy_ops(a, files, output).len(),
    ensures
        match skill_copy_ops(a, files, output)[k] {
            FileOpView::Copy { from, to } => {
                &&& files.contains(from)
                &&& path_strip_prefix(from, a.source) is Some
                &&& path_strip_prefix(to, dest_root(output, a.id)) == path_strip_prefix(from, a.source)
            },
        },
    decreases files.len(),
{
    let pre = files.drop_last();
    let before = skill_copy_ops(a, pre, output);
    if k < before.len() {
        assert forall|i: int| 0 <= i < pre.len() implies path_wf(#[trigger] pre[i]) by {
            assert(pre[i] == files[i]);
        }
        law_skill_copy_mirrors_source(a, pre, output, k);
        assert(skill_copy_ops(a, files, output)[k] == before[k]);
        match before[k] {
            FileOpView::Copy { from, to } => {
                let i = choose|i: int| 0 <= i < pre.len() && pre[i] == from;
                assert(files[i] == from);
            },
        }
    } else {
        let from = files.last();
        assert(files[files.len() - 1] == from);
        assert(path_wf(from));
        let m = a.source.comps.len() as int;
        let rel = path_strip_prefix(from, a.source).unwrap();
        let root = dest_root(output, a.id);
        let to = path_join(root, rel);
        let kk = rel.comps.len() as int;
        assert(rel.comps =~= from.comps.skip(m));
        assert(rel.seps.len() == kk + 1);
        assert(rel.seps[0] =~= Seq::<char>::empty());
        assert(rel.seps[kk] =~= Seq::<char>::empty());
        if kk > 0 {
            let c = from.comps[m];
            assert(rel.comps[0] == c);
            assert(is_normal(c) || c == up_comp());
            assert(root_comp()[0] == '/');
            assert(root_comp().contains('/'));
            assert(up_comp().len() == 2 && root_comp().len() == 1 && cur_comp().len() == 1);
            assert(rel.comps[0] != root_comp() && rel.comps[0] != cur_comp());
        }
        let r = root.comps.len() as int;
        lemma_parse_lengths(a.id);
        lemma_join_lengths(output, parse_path(a.id));
        assert(root.seps.len() == r + 1);
        if r == 0 {
            assert(to == rel);
            assert(rel.comps.subrange(0, 0) =~= root.comps);
            assert(rel.comps.skip(0) =~= rel.comps);
            if kk > 0 {
                assert(rel.seps.take(kk).push(seq![]) =~= rel.seps);
            } else {
                assert(rel.seps =~= seq![Seq::<char>::empty()]);
            }
            assert(path_strip_prefix(to, root).unwrap() =~= rel);
        } else {
            assert(to.comps =~= root.comps + rel.comps);
            assert(to.comps.subrange(0, r) =~= root.comps);
            assert(to.comps.skip(r) =~= rel.comps);
            if kk > 0 {
                let slash = if ends_open(root) {
                    Seq::<char>::empty()
                } else {
                    seq!['/']
                };
                assert(to.seps == root.seps.drop_last() + seq![root.seps.last() + slash + rel.seps[0]]
                    + rel.seps.skip(1));
                assert(to.seps.subrange(r + 1, r + kk) =~= rel.seps.subrange(1, kk));
                assert(seq![Seq::<char>::empty()] + rel.seps.subrange(1, kk) + seq![Seq::<char>::empty()]
                    =~= rel.seps);
            } else {
                assert(rel.seps =~= seq![Seq::<char>::empty()]);
            }
            assert(path_strip_prefix(to, root).unwrap() =~= rel);
        }
    }
}

/// The double-quoted form of `s`, with `\`, `"` and line breaks escaped.
pub open spec fn escape(s: Seq<char>) -> Seq<char>
    decreases s.len(),
{
    if s.len() == 0 {
        seq![]
    } else {
        let c = s[0];
        let head = if c == '\\' {
            seq!['\\', '\\']
        } else if c == '"' {
            seq!['\\', '"']
        } else if c == '\n' {
            seq!['\\', 'n']
        } else {
            seq![c]
        };
        head + escape(s.drop_first())
    }
}

proof fn lemma_unescape_escape(s: Seq<char>)
    ensures
        unescape(escape(s)) == s,
    decreases s.len(),
{
    if s.len() > 0 {
        lemma_unescape_escape(s.drop_first());
        let e = escape(s);
        let rest = escape(s.drop_first());
        let c = s[0];
        if c == '\\' || c == '"' || c == '\n' {
            assert(e.skip(2) =~= rest);
            assert(e[0] == '\\');
        } else {
            assert(e.drop_first() =~= rest);
        }
        assert(s =~= seq![c] + s.drop_first());
    }
}

/// A value written between double quotes with `\`, `"` and line breaks
/// escaped reads back as written.
pub proof fn law_quoted_roundtrip(s: Seq<char>)
    ensures
        unquoted(seq!['"'] + escape(s) + seq!['"']) == s,
{
    let q = seq!['"'] + escape(s) + seq!['"'];
    assert(q.subrange(1, q.len() - 1) =~= escape(s));
    lemma_unescape_escape(s);
}

/// A character of an artifact name: a lowercase ASCII letter, a digit or `-`.
pub open spec fn is_name_char(c: char) -> bool {
    ('a' <= c && c <= 'z') || ('0' <= c && c <= '9') || c == '-'
}

/// An artifact name, `^[a-z0-9]([a-z0-9-]*[a-z0-9])?$`.
pub open spec fn is_artifact_name(n: Seq<char>) -> bool {
    &&& n.len() > 0
    &&& forall|i: int| 0 <= i < n.len() ==> is_name_char(#[trigger] n[i])
    &&& n[0] != '-'
    &&& n.last() != '-'
}

/// `d` written as a double-quoted scalar.
pub open spec fn quoted(d: Seq<char>) -> Seq<char> {
    seq!['"'] + escape(d) + seq!['"']
}

/// `name:`
pub open spec fn name_key() -> Seq<char> {
    seq!['n', 'a', 'm', 'e', ':']
}

/// `description:`
pub open spec fn description_key() -> Seq<char> {
    seq!['d', 'e', 's', 'c', 'r', 'i', 'p', 't', 'i', 'o', 'n', ':']
}

/// The line `name: {n}`.
pub open spec fn name_line(n: Seq<char>) -> Seq<char> {
    name_key() + seq![' '] + n
}

/// The line `description: "{d}"`, with `d` escaped.
pub open spec fn description_line(d: Seq<char>) -> Seq<char> {
    description_key() + seq![' '] + quoted(d)
}

/// The frontmatter of the skill and agent templates, up to its closing `---`.
pub open spec fn named_head(n: Seq<char>, d: Seq<char>) -> Seq<char> {
    seq!['-', '-', '-', '\n'] + name_line(n) + seq!['\n'] + description_line(d) + seq![
        '\n',
        '-',
        '-',
        '-',
    ]
}

/// The frontmatter of the command template, up to its closing `---`.
pub open spec fn described_head(d: Seq<char>) -> Seq<char> {
    seq!['-', '-', '-', '\n'] + description_line(d) + seq!['\n', '-', '-', '-']
}

proof fn lemma_escape_single_line(s: Seq<char>)
    ensures
        forall|i: int| 0 <= i < escape(s).len() ==> escape(s)[i] != '\n',
    decreases s.len(),
{
    if s.len() > 0 {
        lemma_escape_single_line(s.drop_first());
        let e = escape(s);
        let rest = escape(s.drop_first());
        let h = e.len() - rest.len();
        assert forall|i: int| 0 <= i < e.len() implies e[i] != '\n' by {
            if i >= h {
                assert(e[i] == rest[i - h]);
            }
        }
    }
}

proof fn lemma_description_line_single(d: Seq<char>)
    ensures
        forall|i: int| 0 <= i < description_line(d).len() ==> description_line(d)[i] != '\n',
        description_line(d)[0] == 'd',
        description_line(d).last() == '"',
{
    lemma_escape_single_line(d);
    let l = description_line(d);
    assert forall|i: int| 0 <= i < l.len() implies l[i] != '\n' by {
        if 14 <= i < l.len() - 1 {
            assert(l[i] == escape(d)[i - 14]);
        }
    }
}

/// A text made of `---`, a line break, `block`, a line break and `---` has
/// `block` as its frontmatter, when no line of `block` after the first
/// starts with `-`.
proof fn lemma_frontmatter_is(block: Seq<char>, rest: Seq<char>)
    requires
        forall|j: int|
            0 <= j < block.len() && #[trigger] block[j] == '\n' ==> j + 1 < block.len() && block[j
                + 1] != '-',
    ensures
        frontmatter(seq!['-', '-', '-', '\n'] + block + seq!['\n', '-', '-', '-'] + rest) == Some(
            block,
        ),
{
    let text = seq!['-', '-', '-', '\n'] + block + seq!['\n', '-', '-', '-'] + rest;
    assert(text.subrange(0, 3) =~= dashes());
    lemma_find_first(text, dashes(), 0, 0);
    let after = text.skip(3);
    assert(after.subrange(0, 1) =~= seq!['\n']);
    let body = after.skip(1);
    assert(body =~= block + seq!['\n', '-', '-', '-'] + rest);
    let l = block.len() as int;
    assert(body.subrange(l, l + 4) =~= nl_dashes());
    assert forall|j: int| 0 <= j < l implies !#[trigger] matches_at(body, nl_dashes(), j) by {
        if matches_at(body, nl_dashes(), j) {
            assert(body.subrange(j, j + 4)[0] == body[j]);
            assert(body.subrange(j, j + 4)[1] == body[j + 1]);
            assert(body[j] == block[j]);
            if j + 1 < l {
                assert(body[j + 1] == block[j + 1]);
            }
        }
    }
    lemma_find_first(body, nl_dashes(), 0, l);
    assert(body.take(l) =~= block);
}

/// The scalar of `key` read from a line at `i` that reads `key`, a space and
/// `v`.
proof fn lemma_scalar_line(s: Seq<char>, key: Seq<char>, i: int, v: Seq<char>)
    requires
        0 <= i,
        key.len() > 0,
        !is_ws(key[0]),
        v.len() > 0,
        !is_ws(v[0]),
        !is_ws(v.last()),
        forall|j: int| 0 <= j < key.len() ==> key[j] != '\n',
        forall|j: int| 0 <= j < v.len() ==> v[j] != '\n',
        i + key.len() + 1 + v.len() <= s.len(),
        s.subrange(i, i + key.len() + 1 + v.len()) == key + seq![' '] + v,
        i + key.len() + 1 + v.len() == s.len() || s[i + key.len() + 1 + v.len()] == '\n',
    ensures
        scalar_from(s, key, i) == Some(unquoted(v)),
{
    let line = key + seq![' '] + v;
    let e = i + line.len();
    assert forall|j: int| i <= j < e implies s[j] != '\n' by {
        assert(s[j] == s.subrange(i, e)[j - i]);
        if j - i > key.len() {
            assert(line[j - i] == v[j - i - key.len() - 1]);
        }
    }
    lemma_line_end_at(s, i, e);
    assert(line.last() == v.last());
    lemma_trim_unchanged(line);
    assert(line.subrange(0, key.len() as int) =~= key);
    assert(line.skip(key.len() as int) =~= seq![' '] + v);
    assert(strip_prefix(trim(s.subrange(i, e)), key) == Some(seq![' '] + v));
    lemma_trim_after_space(v);
}

/// A line at `i` that does not start with `key` and ends in a line break:
/// the search for `key` goes on with the next line.
proof fn lemma_scalar_skip(s: Seq<char>, key: Seq<char>, i: int, e: int)
    requires
        0 <= i <= e < s.len(),
        forall|j: int| i <= j < e ==> s[j] != '\n',
        s[e] == '\n',
        strip_prefix(trim(s.subrange(i, e)), key) is None,
    ensures
        scalar_from(s, key, i) == scalar_from(s, key, e + 1),
{
    lemma_line_end_at(s, i, e);
}

/// A text that starts with the frontmatter the skill and agent templates
/// write reads back the name and the description written into it, whatever
/// follows the closing `---`.
pub proof fn law_named_template_roundtrip(n: Seq<char>, d: Seq<char>, rest: Seq<char>)
    requires
        is_artifact_name(n),
    ensures
        meta_of(named_head(n, d) + rest) == (MetaView { name: Some(n), description: Some(d) }),
{
    let nl = name_line(n);
    let dl = description_line(d);
    let block = nl + seq!['\n'] + dl;
    lemma_description_line_single(d);
    assert(is_name_char(n[0]) && is_name_char(n.last()));
    assert forall|j: int| 0 <= j < nl.len() implies nl[j] != '\n' by {
        if j >= 6 {
            assert(nl[j] == n[j - 6]);
            assert(is_name_char(n[j - 6]));
        }
    }
    assert forall|j: int|
        0 <= j < block.len() && #[trigger] block[j] == '\n' implies j + 1 < block.len()
            && block[j + 1] != '-' by {
        if j < nl.len() {
            assert(block[j] == nl[j]);
        } else if j > nl.len() {
            assert(block[j] == dl[j - nl.len() - 1]);
        } else {
            assert(block[j + 1] == dl[0]);
        }
    }
    lemma_frontmatter_is(block, rest);
    assert(named_head(n, d) + rest =~= seq!['-', '-', '-', '\n'] + block + seq!['\n', '-', '-', '-']
        + rest);
    reveal_strlit("name");
    reveal_strlit("description");
    assert("name"@.push(':') =~= name_key());
    assert("description"@.push(':') =~= description_key());
    assert forall|j: int| 0 <= j < n.len() implies n[j] != '\n' by {
        assert(is_name_char(n[j]));
    }
    assert(block.subrange(0, nl.len() as int) =~= nl);
    lemma_scalar_line(block, name_key(), 0, n);
    assert(unquoted(n) == n);
    let q = quoted(d);
    let start: int = nl.len() as int + 1;
    assert(block.subrange(start, block.len() as int) =~= dl);
    assert forall|j: int| 0 <= j < q.len() implies q[j] != '\n' by {
        assert(q[j] == dl[j + 13]);
    }
    lemma_scalar_line(block, description_key(), start, q);
    assert(nl.subrange(0, nl.len() as int) =~= nl);
    assert(trim(nl) == nl) by {
        lemma_trim_unchanged(nl);
    }
    assert(!description_key().is_prefix_of(nl)) by {
        if description_key().len() <= nl.len() {
            assert(nl.subrange(0, 12)[0] == 'n');
        }
    }
    lemma_scalar_skip(block, description_key(), 0, nl.len() as int);
    law_quoted_roundtrip(d);
}

/// A text that starts with the frontmatter the command template writes reads
/// back the description written into it and no name.
pub proof fn law_described_template_roundtrip(d: Seq<char>, rest: Seq<char>)
    ensures
        meta_of(described_head(d) + rest) == (MetaView { name: None, description: Some(d) }),
{
    let dl = description_line(d);
    lemma_description_line_single(d);
    lemma_frontmatter_is(dl, rest);
    assert(described_head(d) + rest =~= seq!['-', '-', '-', '\n'] + dl + seq!['\n', '-', '-', '-']
        + rest);
    reveal_strlit("name");
    reveal_strlit("description");
    assert("name"@.push(':') =~= name_key());
    assert("description"@.push(':') =~= description_key());
    let q = quoted(d);
    assert(dl.subrange(0, dl.len() as int) =~= dl);
    assert forall|j: int| 0 <= j < q.len() implies q[j] != '\n' by {
        assert(q[j] == dl[j + 13]);
    }
    lemma_scalar_line(dl, description_key(), 0, q);
    law_quoted_roundtrip(d);
    lemma_line_end_at(dl, 0, dl.len() as int);
    lemma_trim_unchanged(dl);
    assert(!name_key().is_prefix_of(dl)) by {
        assert(dl.subrange(0, 5)[0] == 'd');
    }
}

/// A value written without quotes is read whole: a `description:` line whose
/// value starts and ends with a non-blank, holds no line break and does not
/// start with a quote reads back as exactly that value, spaces included.
pub proof fn law_plain_value_read_whole(v: Seq<char>, rest: Seq<char>)
    requires
        v.len() > 0,
        !is_ws(v[0]),
        !is_ws(v.last()),
        v[0] != '"',
        v[0] != '\'',
        forall|i: int| 0 <= i < v.len() ==> v[i] != '\n',
    ensures
        unquoted(v) == v,
        meta_of(
            seq!['-', '-', '-', '\n'] + description_key() + seq![' '] + v + seq!['\n', '-', '-', '-']
                + rest,
        ) == (MetaView { name: None, description: Some(v) }),
{
    let dl = description_key() + seq![' '] + v;
    assert forall|j: int| 0 <= j < dl.len() implies dl[j] != '\n' by {
        if j > 12 {
            assert(dl[j] == v[j - 13]);
        }
    }
    lemma_frontmatter_is(dl, rest);
    assert(seq!['-', '-', '-', '\n'] + description_key() + seq![' '] + v + seq!['\n', '-', '-', '-']
        + rest =~= seq!['-', '-', '-', '\n'] + dl + seq!['\n', '-', '-', '-'] + rest);
    reveal_strlit("name");
    reveal_strlit("description");
    assert("name"@.push(':') =~= name_key());
    assert("description"@.push(':') =~= description_key());
    assert(dl.subrange(0, dl.len() as int) =~= dl);
    lemma_scalar_line(dl, description_key(), 0, v);
    lemma_line_end_at(dl, 0, dl.len() as int);
    assert(dl.last() == v.last());
    lemma_trim_unchanged(dl);
    assert(!name_key().is_prefix_of(dl)) by {
        assert(dl.subrange(0, 5)[0] == 'd');
    }
}

/// The frontmatter of the skill and agent templates written with `\r\n`
/// line breaks, up to its closing `---`.
pub open spec fn named_head_crlf(n: Seq<char>, d: Seq<char>) -> Seq<char> {
    seq!['-', '-', '-', '\r', '\n'] + name_line(n) + seq!['\r', '\n'] + description_line(d) + seq![
        '\r',
        '\n',
        '-',
        '-',
        '-',
    ]
}

/// The scalar of `key` read from a line at `i` that reads `key`, a space,
/// `v` and a carriage return.
proof fn lemma_scalar_line_cr(s: Seq<char>, key: Seq<char>, i: int, v: Seq<char>)
    requires
        0 <= i,
        key.len() > 0,
        !is_ws(key[0]),
        v.len() > 0,
        !is_ws(v[0]),
        !is_ws(v.last()),
        forall|j: int| 0 <= j < key.len() ==> key[j] != '\n',
        forall|j: int| 0 <= j < v.len() ==> v[j] != '\n',
        i + key.len() + 2 + v.len() <= s.len(),
        s.subrange(i, i + key.len() + 2 + v.len()) == (key + seq![' '] + v).push('\r'),
        i + key.len() + 2 + v.len() == s.len() || s[i + key.len() + 2 + v.len()] == '\n',
    ensures
        scalar_from(s, key, i) == Some(unquoted(v)),
{
    let body = key + seq![' '] + v;
    let line = body.push('\r');
    let e = i + line.len();
    assert forall|j: int| i <= j < e implies s[j] != '\n' by {
        assert(s[j] == s.subrange(i, e)[j - i]);
        if j - i > key.len() && j - i < e - i - 1 {
            assert(line[j - i] == v[j - i - key.len() - 1]);
        }
    }
    lemma_line_end_at(s, i, e);
    assert(body.last() == v.last());
    lemma_trim_drops_cr(body);
    assert(body.subrange(0, key.len() as int) =~= key);
    assert(body.skip(key.len() as int) =~= seq![' '] + v);
    assert(strip_prefix(trim(s.subrange(i, e)), key) == Some(seq![' '] + v));
    lemma_trim_after_space(v);
}

/// The frontmatter block of the `\r\n` templates.
pub open spec fn crlf_block(n: Seq<char>, d: Seq<char>) -> Seq<char> {
    name_line(n) + seq!['\r', '\n'] + description_line(d) + seq!['\r']
}

proof fn lemma_name_line_single(n: Seq<char>)
    requires
        is_artifact_name(n),
    ensures
        forall|j: int| 0 <= j < name_line(n).len() ==> name_line(n)[j] != '\n',
        forall|j: int| 0 <= j < n.len() ==> n[j] != '\n',
        !is_ws(n[0]),
        !is_ws(n.last()),
        n[0] != '"' && n[0] != '\'',
{
    let nl = name_line(n);
    assert(is_name_char(n[0]) && is_name_char(n.last()));
    assert forall|j: int| 0 <= j < nl.len() implies nl[j] != '\n' by {
        if j >= 6 {
            assert(nl[j] == n[j - 6]);
            assert(is_name_char(n[j - 6]));
        }
    }
    assert forall|j: int| 0 <= j < n.len() implies n[j] != '\n' by {
        assert(is_name_char(n[j]));
    }
}

proof fn lemma_crlf_frontmatter(n: Seq<char>, d: Seq<char>, rest: Seq<char>)
    requires
        is_artifact_name(n),
    ensures
        frontmatter(named_head_crlf(n, d) + rest) == Some(crlf_block(n, d)),
{
    let nl = name_line(n);
    let dl = description_line(d);
    let block = crlf_block(n, d);
    let text = named_head_crlf(n, d) + rest;
    lemma_description_line_single(d);
    lemma_name_line_single(n);
    assert(text =~= seq!['-', '-', '-', '\r', '\n'] + block + seq!['\n', '-', '-', '-'] + rest);
    assert(text.subrange(0, 3) =~= dashes());
    lemma_find_first(text, dashes(), 0, 0);
    let after = text.skip(3);
    assert(!seq!['\n'].is_prefix_of(after)) by {
        assert(after.subrange(0, 1)[0] == '\r');
    }
    assert(after.subrange(0, 2) =~= seq!['\r', '\n']);
    let body = after.skip(2);
    assert(body =~= block + seq!['\n', '-', '-', '-'] + rest);
    let l = block.len() as int;
    let nn = nl.len() as int;
    assert(body.subrange(l, l + 4) =~= nl_dashes());
    assert forall|j: int| 0 <= j < l implies !#[trigger] matches_at(body, nl_dashes(), j) by {
        if matches_at(body, nl_dashes(), j) {
            assert(body.subrange(j, j + 4)[0] == body[j]);
            assert(body.subrange(j, j + 4)[1] == body[j + 1]);
            assert(body[j] == block[j]);
            if j < nn {
                assert(block[j] == nl[j]);
            } else if j == nn {
                assert(block[j] == '\r');
            } else if j == nn + 1 {
                assert(body[j + 1] == dl[0]);
            } else if j < l - 1 {
                assert(block[j] == dl[j - nn - 2]);
            } else {
                assert(block[j] == '\r');
            }
        }
    }
    lemma_find_first(body, nl_dashes(), 0, l);
    assert(body.take(l) =~= block);
}

proof fn lemma_crlf_name(n: Seq<char>, d: Seq<char>)
    requires
        is_artifact_name(n),
    ensures
        scalar_from(crlf_block(n, d), name_key(), 0) == Some(n),
{
    let nl = name_line(n);
    let block = crlf_block(n, d);
    lemma_name_line_single(n);
    assert(block.subrange(0, nl.len() as int + 1) =~= (name_key() + seq![' '] + n).push('\r'));
    lemma_scalar_line_cr(block, name_key(), 0, n);
}

proof fn lemma_crlf_description(n: Seq<char>, d: Seq<char>)
    requires
        is_artifact_name(n),
    ensures
        scalar_from(crlf_block(n, d), description_key(), 0) == Some(d),
{
    let nl = name_line(n);
    let dl = description_line(d);
    let block = crlf_block(n, d);
    let nn = nl.len() as int;
    let l = block.len() as int;
    lemma_name_line_single(n);
    lemma_description_line_single(d);
    let q = quoted(d);
    let start: int = nn + 2;
    assert(block.subrange(start, l) =~= (description_key() + seq![' '] + q).push('\r'));
    assert forall|j: int| 0 <= j < q.len() implies q[j] != '\n' by {
        assert(q[j] == dl[j + 13]);
    }
    lemma_scalar_line_cr(block, description_key(), start, q);
    assert forall|j: int| 0 <= j < nn + 1 implies block[j] != '\n' by {
        if j < nn {
            assert(block[j] == nl[j]);
        }
    }
    assert(block.subrange(0, nn + 1) =~= nl.push('\r'));
    lemma_trim_drops_cr(nl);
    assert(!description_key().is_prefix_of(nl)) by {
        if description_key().len() <= nl.len() {
            assert(nl.subrange(0, 12)[0] == 'n');
        }
    }
    lemma_scalar_skip(block, description_key(), 0, nn + 1);
    law_quoted_roundtrip(d);
}

/// Line breaks written as `\r\n` read the same as `\n`: the frontmatter of
/// the skill and agent templates written with `\r\n` reads back the name and
/// the description written into it, whatever follows the closing `---`.
pub proof fn law_crlf_template_roundtrip(n: Seq<char>, d: Seq<char>, rest: Seq<char>)
    requires
        is_artifact_name(n),
    ensures
        meta_of(named_head_crlf(n, d) + rest) == (MetaView { name: Some(n), description: Some(d) }),
        meta_of(named_head_crlf(n, d) + rest) == meta_of(named_head(n, d) + rest),
{
    law_named_template_roundtrip(n, d, rest);
    lemma_crlf_frontmatter(n, d, rest);
    lemma_crlf_name(n, d);
    lemma_crlf_description(n, d);
    reveal_strlit("name");
    reveal_strlit("description");
    assert("name"@.push(':') =~= name_key());
    assert("description"@.push(':') =~= description_key());
}

/// A `SKILL.md` that is no marker and lies beneath the directory of a marker
/// at any depth makes a nested skill, and a nested skill is exactly that:
/// discovery of skills fails whenever such a pair is walked.
pub proof fn law_nested_at_any_depth(fs: Seq<WalkedView>)
    ensures
        has_nested(fs) <==> exists|i: int, j: int|
            0 <= i < fs.len() && 0 <= j < fs.len() && path_file_name(#[trigger] fs[i].path) == Some(
                "SKILL.md"@,
            ) && !skill_marker(fs[i].path) && skill_marker(#[trigger] fs[j].path)
                && path_starts_with(fs[i].path, path_parent(fs[j].path).unwrap()),
{
    if has_nested(fs) {
        let (i, j) = choose|i: int, j: int| nested_at(fs, i, j);
        assert(path_file_name(fs[i].path) == Some("SKILL.md"@) && skill_marker(fs[j].path));
    }
    if exists|i: int, j: int|
        0 <= i < fs.len() && 0 <= j < fs.len() && path_file_name(#[trigger] fs[i].path) == Some(
            "SKILL.md"@,
        ) && !skill_marker(fs[i].path) && skill_marker(#[trigger] fs[j].path) && path_starts_with(
            fs[i].path,
            path_parent(fs[j].path).unwrap(),
        ) {
        let (i, j) = choose|i: int, j: int|
            0 <= i < fs.len() && 0 <= j < fs.len() && path_file_name(#[trigger] fs[i].path)
                == Some("SKILL.md"@) && !skill_marker(fs[i].path) && skill_marker(
                #[trigger] fs[j].path,
            ) && path_starts_with(fs[i].path, path_parent(fs[j].path).unwrap());
        assert(nested_at(fs, i, j));
    }
}

/// Every walked file under a skill's directory is copied, to the place it
/// has under the directory, below `{output}/{id}`.
pub proof fn law_skill_copies_complete(a: ArtifactView, files: Seq<PathView>, output: PathView, j: int)
    requires
        0 <= j < files.len(),
        path_strip_prefix(files[j], a.source) is Some,
    ensures
        skill_copy_ops(a, files, output).contains(
            FileOpView::Copy {
                from: files[j],
                to: path_join(dest_root(output, a.id), path_strip_prefix(files[j], a.source).unwrap()),
            },
        ),
    decreases files.len(),
{
    let op = FileOpView::Copy {
        from: files[j],
        to: path_join(dest_root(output, a.id), path_strip_prefix(files[j], a.source).unwrap()),
    };
    let ops = skill_copy_ops(a, files, output);
    let before = skill_copy_ops(a, files.drop_last(), output);
    if j < files.len() - 1 {
        assert(files.drop_last()[j] == files[j]);
        law_skill_copies_complete(a, files.drop_last(), output, j);
        let k = choose|k: int| 0 <= k < before.len() && before[k] == op;
        match path_strip_prefix(files.last(), a.source) {
            Some(rel) => {
                assert(ops == before.push(
                    FileOpView::Copy { from: files.last(), to: path_join(dest_root(output, a.id), rel) },
                ));
                assert(ops[k] == op);
            },
            None => {
                assert(ops[k] == op);
            },
        }
    } else {
        assert(files.last() == files[j]);
        assert(ops[ops.len() - 1] == op);
    }
}

} // verus!
