use agent_tool_box::{discover, plan, Catalog, FileOp, FsPath, Kind, SyncPlan, Target, WalkedFile};

fn p(s: &str) -> FsPath {
    FsPath::parse(s)
}

/// The walk of `root` holding the files `(relative path, contents)`.
fn walk(root: &str, files: &[(&str, &str)]) -> Vec<WalkedFile> {
    files
        .iter()
        .map(|(rel, text)| WalkedFile {
            path: p(&format!("{root}/{rel}")),
            text: Some(text.to_string()),
        })
        .collect()
}

/// The files of `walked` that lie under the source of each artifact.
fn trees(catalog: &Catalog, walked: &[WalkedFile]) -> Vec<Vec<FsPath>> {
    catalog
        .artifacts
        .iter()
        .map(|a| {
            walked
                .iter()
                .filter(|w| w.path.starts_with(&a.source))
                .map(|w| w.path.clone())
                .collect()
        })
        .collect()
}

fn dests(plans: &[SyncPlan]) -> Vec<FsPath> {
    plans
        .iter()
        .flat_map(|p| &p.ops)
        .map(|FileOp::Copy { to, .. }| to.clone())
        .collect()
}

const ALPHA: &str = "---\nname: alpha\ndescription: \"Alpha skill\"\n---\n\n# Alpha\n";
const BETA: &str = "---\nname: beta\ndescription: \"Beta skill\"\n---\n\n# Beta\n";

fn skill_tree(root: &str) -> Vec<WalkedFile> {
    walk(
        root,
        &[
            ("plugins/core/skills/alpha/SKILL.md", ALPHA),
            ("plugins/extra/skills/beta/SKILL.md", BETA),
            ("plugins/extra/skills/beta/references/note.md", "# note\n"),
        ],
    )
}

#[test]
fn discover_plan_apply_two_skills() {
    let root = "/tmp/atb/src";
    let dst = p("/tmp/atb/dst");
    let walked = skill_tree(root);

    let catalog = discover(&p(root), Kind::Skill, &walked).unwrap();
    let ids: Vec<&str> = catalog.artifacts.iter().map(|a| a.id.as_str()).collect();
    assert_eq!(ids, ["alpha", "beta"]);

    let plans = plan(
        &catalog,
        &[Target {
            tool: None,
            output: dst.clone(),
        }],
        &trees(&catalog, &walked),
    );
    let to = dests(&plans);
    assert!(to.contains(&dst.join(&p("alpha/SKILL.md"))));
    assert!(to.contains(&dst.join(&p("beta/SKILL.md"))));
    assert!(to.contains(&dst.join(&p("beta/references/note.md"))));
    assert_eq!(to.len(), 3);
}

#[test]
fn discover_and_plan_command() {
    let root = "/tmp/atb/src";
    let dst = p("/tmp/atb/dst");
    let walked = walk(
        root,
        &[(
            "plugins/writing/commands/critique.md",
            "---\ndescription: \"Critique a thing\"\n---\n\nDo the critique.\n",
        )],
    );

    let catalog = discover(&p(root), Kind::Command, &walked).unwrap();
    let ids: Vec<&str> = catalog.artifacts.iter().map(|a| a.id.as_str()).collect();
    assert_eq!(ids, ["critique.md"]);

    let plans = plan(
        &catalog,
        &[Target {
            tool: None,
            output: dst.clone(),
        }],
        &trees(&catalog, &walked),
    );
    assert!(dests(&plans).contains(&dst.join(&p("critique.md"))));
}

#[test]
fn discover_zero_matches_names_marker_and_search_root() {
    let root = "/tmp/atb/empty";
    let walked = walk(root, &[("readme.md", "nothing here\n")]);

    let err = discover(&p(root), Kind::Skill, &walked).unwrap_err();
    let msg = err.message();
    assert!(msg.contains("**/skills/*/SKILL.md"), "{msg}");
    assert!(
        msg.contains("ai-coding") && msg.contains("ai-coding/plugins"),
        "{msg}"
    );
    assert!(msg.contains("not ai-coding/skills"), "{msg}");
}

#[test]
fn discover_duplicate_ids_fails() {
    let root = "/tmp/atb/src";
    let walked = walk(
        root,
        &[
            ("plugins/a/skills/foo/SKILL.md", "---\nname: foo\n---\n\n# A\n"),
            ("plugins/b/skills/foo/SKILL.md", "---\nname: foo\n---\n\n# B\n"),
        ],
    );

    let err = discover(&p(root), Kind::Skill, &walked).unwrap_err();
    let msg = err.message();
    assert!(msg.contains("duplicate"), "{msg}");
    assert!(msg.contains("foo"), "{msg}");
}

#[test]
fn discover_nested_skill_md_fails() {
    let root = "/tmp/atb/src";
    let walked = walk(
        root,
        &[
            ("skills/foo/SKILL.md", "---\nname: foo\n---\n\n# Foo\n"),
            ("skills/foo/nested/SKILL.md", "---\nname: nested\n---\n\n# Nested\n"),
        ],
    );

    let err = discover(&p(root), Kind::Skill, &walked).unwrap_err();
    let msg = err.message();
    assert!(msg.contains("nested"), "{msg}");
    assert!(msg.contains("SKILL.md"), "{msg}");
}
