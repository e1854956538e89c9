use agent_tool_box::config::from_flags;
use agent_tool_box::discover::{
    check_duplicate_ids, discover_files, discover_skills, file_name_is, is_direct_kind_file,
    is_skill_marker, may_be_primary, sort_artifacts,
};
use agent_tool_box::frontmatter::{
    extract_frontmatter, read_frontmatter, unescape_double, unquote, yaml_scalar,
};
use agent_tool_box::adapter::skill_copies;
use agent_tool_box::{
    discover, plan, Adapter, Artifact, ArtifactMeta, CopyAdapter, DiscoverError, FileOp, FsPath,
    Kind, Target, Tool, WalkedFile,
};

fn p(s: &str) -> FsPath {
    FsPath::parse(s)
}

fn file(path: &str, text: &str) -> WalkedFile {
    WalkedFile {
        path: p(path),
        text: Some(text.to_string()),
    }
}

fn artifact(kind: Kind, id: &str, source: &str) -> Artifact {
    Artifact {
        kind,
        id: id.to_string(),
        source: p(source),
        meta: ArtifactMeta::default(),
    }
}

#[test]
fn kind_strings() {
    assert_eq!(Kind::Skill.as_str(), "skill");
    assert_eq!(Kind::Command.as_str(), "command");
    assert_eq!(Kind::Agent.as_str(), "agent");
    assert_eq!(Kind::Skill.marker(), "**/skills/*/SKILL.md");
    assert_eq!(Kind::Command.marker(), "**/commands/*.md");
    assert_eq!(Kind::Agent.marker(), "**/agents/*.md");
}

#[test]
fn path_parse_and_display() {
    assert_eq!(p("/tmp/a//b/./c/").display(), "/tmp/a//b/./c/");
    assert_eq!(p("./x").display(), "./x");
    assert_eq!(p(".").display(), ".");
    assert_eq!(p("").display(), "");
    assert_eq!(p("a/..").display(), "a/..");
    assert_eq!(p("/").display(), "/");
    assert_eq!(p("/tmp/a").len(), 3);
    assert!(p("a/./b").same(&p("a/b")));
    assert_eq!(p("a//b/./c/").parent().unwrap().display(), "a//b");
    assert_eq!(p("./a").parent().unwrap().display(), ".");
    assert_eq!(p("//a").parent().unwrap().display(), "/");
}

#[test]
fn path_file_name_and_parent() {
    assert_eq!(p("a/b.md").file_name(), Some("b.md".to_string()));
    assert_eq!(p("/").file_name(), None);
    assert_eq!(p("a/..").file_name(), None);
    assert_eq!(p(".").file_name(), None);
    assert_eq!(p("/a").parent(), Some(p("/")));
    assert_eq!(p("/").parent(), None);
    assert_eq!(p("a").parent(), Some(p("")));
    assert_eq!(p("").parent(), None);
    assert!(p("x/SKILL.md").file_name_is("SKILL.md"));
    assert!(!p("x/SKILL.md/").file_name_is("skill.md"));
}

#[test]
fn path_extension() {
    assert_eq!(p("a/b.md").extension(), Some("md".to_string()));
    assert_eq!(p("a/.md").extension(), None);
    assert_eq!(p("a.b.c").extension(), Some("c".to_string()));
    assert_eq!(p("foo.").extension(), Some("".to_string()));
    assert_eq!(p("foo").extension(), None);
    assert_eq!(p("/").extension(), None);
}

#[test]
fn path_prefix_and_join() {
    assert!(p("/a/b/c").starts_with(&p("/a/b")));
    assert!(!p("/a/bc").starts_with(&p("/a/b")));
    assert!(p("/a").starts_with(&p("")));
    assert_eq!(p("/a/b/c").strip_prefix(&p("/a")), Some(p("b/c")));
    assert_eq!(p("/a/b/c").strip_prefix(&p("/x")), None);
    assert_eq!(p("/a/b").strip_prefix(&p("/a/b")), Some(p("")));
    assert_eq!(p("/a").join(&p("/b")), p("/b"));
    assert_eq!(p("a").join(&p("./b")).display(), "a/./b");
    assert!(p("a").join(&p("./b")).same(&p("a/b")));
    assert_eq!(p("a/").join(&p("b")).display(), "a/b");
    assert_eq!(p("a").join(&p(".")).display(), "a/.");
    assert_eq!(p("/x//y/./z/").strip_prefix(&p("/x")).unwrap().display(), "y/./z");
    assert_eq!(p("a/b/").strip_prefix(&p("")).unwrap().display(), "a/b");
    assert_eq!(p("").join(&p("./b")), p("./b"));
    assert_eq!(p("/a").join(&p("b/c")).display(), "/a/b/c");
    assert_eq!(p("/a").join(&p("")).display(), "/a/");
    assert!(p("/a").same(&p("/a/")));
    assert!(!p("/a").same(&p("a")));
}

#[test]
fn path_order() {
    assert!(p("/a").less(&p("a")));
    assert!(p("a").less(&p("a/b")));
    assert!(p("a/b").less(&p("a/c")));
    assert!(!p("a/c").less(&p("a/b")));
    assert!(!p("a").less(&p("a")));
    assert!(p("./a").less(&p("../a")));
    assert!(p("../a").less(&p("a")));
    assert!(p("a/B").less(&p("a/a")));
}

#[test]
fn frontmatter_block() {
    assert_eq!(
        extract_frontmatter("---\nname: x\n---\nbody"),
        Some("name: x".to_string())
    );
    assert_eq!(
        extract_frontmatter("---\r\nname: x\r\n---\r\nbody"),
        Some("name: x\r".to_string())
    );
    assert_eq!(
        extract_frontmatter("intro\n---name: y\n---"),
        Some("name: y".to_string())
    );
    assert_eq!(extract_frontmatter("---\nname: x\n"), None);
    assert_eq!(extract_frontmatter("no block here"), None);
    assert_eq!(extract_frontmatter("---\n---"), None);
    assert_eq!(extract_frontmatter("---\n\n---"), Some("".to_string()));
}

#[test]
fn yaml_scalars() {
    let yaml = "name: alpha\ndescription: \"Alpha \\\"skill\\\"\"\n  title:   'x y'  \nempty:   \n";
    assert_eq!(yaml_scalar(yaml, "name"), Some("alpha".to_string()));
    assert_eq!(
        yaml_scalar(yaml, "description"),
        Some("Alpha \"skill\"".to_string())
    );
    assert_eq!(yaml_scalar(yaml, "title"), Some("x y".to_string()));
    assert_eq!(yaml_scalar(yaml, "empty"), None);
    assert_eq!(yaml_scalar(yaml, "missing"), None);
    assert_eq!(yaml_scalar("", "name"), None);
    assert_eq!(yaml_scalar("name:x\nname: y", "name"), Some("x".to_string()));
    assert_eq!(yaml_scalar("names: x", "name"), None);
}

#[test]
fn unquoting() {
    assert_eq!(unquote("\"a\\nb\""), "a\nb");
    assert_eq!(unquote("'a\\nb'"), "a\\nb");
    assert_eq!(unquote("\""), "\"");
    assert_eq!(unquote("\"\""), "");
    assert_eq!(unquote("plain"), "plain");
    assert_eq!(unquote("'mixed\""), "'mixed\"");
    assert_eq!(unescape_double("a\\tb\\rc\\\\d\\\"e"), "a\tb\rc\\d\"e");
    assert_eq!(unescape_double("\\q"), "\\q");
    assert_eq!(unescape_double("end\\"), "end\\");
    assert_eq!(unescape_double("ünï\\n"), "ünï\n");
}

#[test]
fn quoted_description_reads_back() {
    let original = "Say \"hi\" \\ then\nstop";
    let escaped = original
        .replace('\\', "\\\\")
        .replace('"', "\\\"")
        .replace('\n', "\\n");
    let text = format!("---\ndescription: \"{escaped}\"\n---\n");
    assert_eq!(read_frontmatter(&text).description, Some(original.to_string()));
}

#[test]
fn skill_template_reads_back_name_and_description() {
    let name = "code-review";
    let description = "Review \"diffs\" \\ carefully\nthen --- summarise";
    let escaped = "Review \\\"diffs\\\" \\\\ carefully\\nthen --- summarise";
    let text = format!("---\nname: {name}\ndescription: \"{escaped}\"\n---\n\n# {name}\n");
    let meta = read_frontmatter(&text);
    assert_eq!(meta.name, Some(name.to_string()));
    assert_eq!(meta.description, Some(description.to_string()));
}

#[test]
fn command_template_reads_back_description_only() {
    let text = "---\ndescription: \"TODO: what /critique does.\"\n---\n\nTODO: the prompt.\n";
    let meta = read_frontmatter(text);
    assert_eq!(meta.name, None);
    assert_eq!(meta.description, Some("TODO: what /critique does.".to_string()));
    let meta = read_frontmatter("---\ndescription: \"\"\n---\n");
    assert_eq!(meta.description, Some(String::new()));
}

#[test]
fn frontmatter_meta() {
    let meta = read_frontmatter("---\nname: alpha\ndescription: \"Alpha skill\"\n---\n\n# Alpha\n");
    assert_eq!(meta.name, Some("alpha".to_string()));
    assert_eq!(meta.description, Some("Alpha skill".to_string()));
    let meta = read_frontmatter("# no frontmatter\n");
    assert_eq!(meta, ArtifactMeta::default());
    let meta = read_frontmatter("---\ndescription: only\n---\n");
    assert_eq!(meta.name, None);
    assert_eq!(meta.description, Some("only".to_string()));
}

#[test]
fn markers() {
    assert!(is_skill_marker(&p("/r/skills/foo/SKILL.md")));
    assert!(!is_skill_marker(&p("/r/skills/foo/bar/SKILL.md")));
    assert!(!is_skill_marker(&p("SKILL.md")));
    assert!(!is_skill_marker(&p("skills/foo/README.md")));
    assert!(is_direct_kind_file(&p("/r/commands/c.md"), "commands"));
    assert!(!is_direct_kind_file(&p("/r/commands/sub/c.md"), "commands"));
    assert!(!is_direct_kind_file(&p("/r/commands/c.txt"), "commands"));
    assert!(!is_direct_kind_file(&p("/r/commands/.md"), "commands"));
    assert!(file_name_is(&p("/r/agents"), "agents"));
    assert!(may_be_primary(Kind::Agent, &p("/r/agents/a.md")));
    assert!(!may_be_primary(Kind::Agent, &p("/r/commands/a.md")));
    assert!(may_be_primary(Kind::Skill, &p("/r/skills/a/SKILL.md")));
}

#[test]
fn discover_sorts_by_id_then_source() {
    let files = vec![
        file("/r/plugins/z/skills/zeta/SKILL.md", ""),
        file("/r/plugins/a/skills/beta/SKILL.md", ""),
        file("/r/plugins/m/skills/alpha/SKILL.md", ""),
    ];
    let catalog = discover(&p("/r"), Kind::Skill, &files).unwrap();
    let ids: Vec<&str> = catalog.artifacts.iter().map(|a| a.id.as_str()).collect();
    assert_eq!(ids, ["alpha", "beta", "zeta"]);
    assert_eq!(catalog.kind, Kind::Skill);
    assert_eq!(catalog.root, p("/r"));
    assert_eq!(catalog.artifacts[0].source, p("/r/plugins/m/skills/alpha"));
}

#[test]
fn discover_agents_keep_extension_and_meta() {
    let files = vec![
        file("/r/agents/linter.md", "---\nname: linter\ndescription: d\n---\n"),
        file("/r/agents/nested/other.md", "---\nname: other\n---\n"),
        file("/r/agents/notes.txt", ""),
        WalkedFile {
            path: p("/r/agents/blank.md"),
            text: None,
        },
    ];
    let catalog = discover(&p("/r"), Kind::Agent, &files).unwrap();
    let ids: Vec<&str> = catalog.artifacts.iter().map(|a| a.id.as_str()).collect();
    assert_eq!(ids, ["blank.md", "linter.md"]);
    assert_eq!(catalog.artifacts[0].meta, ArtifactMeta::default());
    assert_eq!(catalog.artifacts[1].meta.name, Some("linter".to_string()));
    assert_eq!(catalog.artifacts[1].source, p("/r/agents/linter.md"));
}

#[test]
fn discover_error_variants() {
    let none = discover(&p("/r"), Kind::Command, &[file("/r/agents/a.md", "")]);
    match none {
        Err(DiscoverError::NoArtifacts { kind }) => assert_eq!(kind, Kind::Command),
        other => panic!("unexpected {other:?}"),
    }

    let files = vec![
        file("/r/b/skills/foo/SKILL.md", ""),
        file("/r/a/skills/foo/SKILL.md", ""),
    ];
    match discover(&p("/r"), Kind::Skill, &files) {
        Err(e @ DiscoverError::DuplicateId { .. }) => {
            assert_eq!(
                e.message(),
                "duplicate skill id `foo`: /r/a/skills/foo and /r/b/skills/foo"
            );
        }
        other => panic!("unexpected {other:?}"),
    }

    let files = vec![
        file("/r/skills/foo/deep/SKILL.md", ""),
        file("/r/skills/foo/SKILL.md", ""),
    ];
    match discover(&p("/r"), Kind::Skill, &files) {
        Err(e @ DiscoverError::NestedSkill { .. }) => {
            assert_eq!(
                e.message(),
                "nested SKILL.md at /r/skills/foo/deep/SKILL.md beneath skill `foo` (/r/skills/foo)"
            );
        }
        other => panic!("unexpected {other:?}"),
    }

    let err = DiscoverError::NoArtifacts { kind: Kind::Agent };
    assert_eq!(
        err.message(),
        "no agent artifacts found (marker **/agents/*.md); search root should be ai-coding or ai-coding/plugins, not ai-coding/skills"
    );
}

#[test]
fn nested_error_comes_before_zero_and_duplicates() {
    let files = vec![file("/r/skills/foo/bar/SKILL.md", ""), file("/r/skills/foo/SKILL.md", "")];
    assert!(matches!(
        discover_skills(&files),
        Err(DiscoverError::NestedSkill { .. })
    ));
    let files = vec![file("/r/skills/foo/SKILL.md", ""), file("/r/skills/bar/SKILL.md", "")];
    let found = discover_skills(&files).unwrap();
    let ids: Vec<&str> = found.iter().map(|a| a.id.as_str()).collect();
    assert_eq!(ids, ["foo", "bar"]);
}

#[test]
fn files_and_duplicates() {
    let files = vec![
        file("/r/commands/b.md", ""),
        file("/r/commands/a.md", ""),
        file("/r/other/c.md", ""),
    ];
    let found = discover_files(Kind::Command, &files, "commands");
    let ids: Vec<&str> = found.iter().map(|a| a.id.as_str()).collect();
    assert_eq!(ids, ["b.md", "a.md"]);

    let sorted = sort_artifacts(vec![
        artifact(Kind::Skill, "b", "/x/b"),
        artifact(Kind::Skill, "a", "/y/a"),
        artifact(Kind::Skill, "a", "/x/a"),
    ]);
    let sources: Vec<String> = sorted.iter().map(|a| a.source.display()).collect();
    assert_eq!(sources, ["/x/a", "/y/a", "/x/b"]);

    assert!(check_duplicate_ids(Kind::Skill, &sorted[1..]).is_ok());
    match check_duplicate_ids(Kind::Skill, &sorted) {
        Err(DiscoverError::DuplicateId {
            kind,
            id,
            first,
            second,
        }) => {
            assert_eq!(kind, Kind::Skill);
            assert_eq!(id, "a");
            assert_eq!(first, p("/x/a"));
            assert_eq!(second, p("/y/a"));
        }
        other => panic!("unexpected {other:?}"),
    }
}

#[test]
fn plans_follow_targets_in_order() {
    let files = vec![
        file("/r/skills/foo/SKILL.md", ""),
        file("/r/skills/foo/refs/a.md", ""),
    ];
    let catalog = discover(&p("/r"), Kind::Skill, &files).unwrap();
    let trees = vec![vec![p("/r/skills/foo/SKILL.md"), p("/r/skills/foo/refs/a.md"), p("/elsewhere/x")]];
    let targets = vec![
        Target {
            tool: Some(Tool::Claude),
            output: p("/out/first"),
        },
        Target {
            tool: Some(Tool::Cursor),
            output: p("/out/second"),
        },
    ];
    let plans = plan(&catalog, &targets, &trees);
    assert_eq!(plans.len(), 2);
    assert_eq!(plans[0].target, targets[0]);
    assert_eq!(plans[1].target, targets[1]);
    assert_eq!(
        plans[1].ops,
        vec![
            FileOp::Copy {
                from: p("/r/skills/foo/SKILL.md"),
                to: p("/out/second/foo/SKILL.md"),
            },
            FileOp::Copy {
                from: p("/r/skills/foo/refs/a.md"),
                to: p("/out/second/foo/refs/a.md"),
            },
        ]
    );
}

#[test]
fn adapter_copies_commands_whole() {
    let arts = vec![
        artifact(Kind::Command, "c.md", "/r/commands/c.md"),
        artifact(Kind::Agent, "a.md", "/r/agents/a.md"),
    ];
    let target = Target {
        tool: None,
        output: p("/out"),
    };
    let ops = CopyAdapter.plan(&arts, &[vec![p("/r/commands/c.md/ignored")], vec![]], &target);
    assert_eq!(
        ops,
        vec![
            FileOp::Copy {
                from: p("/r/commands/c.md"),
                to: p("/out/c.md"),
            },
            FileOp::Copy {
                from: p("/r/agents/a.md"),
                to: p("/out/a.md"),
            },
        ]
    );
    let skill = artifact(Kind::Skill, "s", "/r/skills/s");
    let ops = skill_copies(&skill, &target, &[p("/r/skills/s"), p("/r/skills/t/x")]);
    assert_eq!(
        ops,
        vec![FileOp::Copy {
            from: p("/r/skills/s"),
            to: p("/out/s/"),
        }]
    );
}

#[test]
fn flags_make_one_unlabelled_target() {
    let d = from_flags(p("/src"), p("/dst"), Kind::Agent);
    assert_eq!(d.kind, Kind::Agent);
    assert_eq!(d.root, p("/src"));
    assert_eq!(
        d.targets,
        vec![Target {
            tool: None,
            output: p("/dst"),
        }]
    );
}

#[test]
fn written_paths_read_back() {
    for text in ["/tmp/a//b/./c/", "./x/y", ".", "", "a/../b", "/", "..", ".hidden/x", "/.."] {
        let path = p(text);
        assert_eq!(path.display(), text);
        assert_eq!(p(&path.display()), path, "{text}");
    }
}

#[test]
fn copies_mirror_the_skill_directory() {
    let skill = artifact(Kind::Skill, "foo", "/r/skills/foo");
    let target = Target {
        tool: None,
        output: p("dst"),
    };
    let files = [p("/r/skills/foo/SKILL.md"), p("/r/skills/foo/a/b/c.txt")];
    let ops = skill_copies(&skill, &target, &files);
    assert_eq!(ops.len(), 2);
    for op in &ops {
        let FileOp::Copy { from, to } = op;
        assert_eq!(
            to.strip_prefix(&p("dst/foo")),
            from.strip_prefix(&skill.source)
        );
    }
}

#[test]
fn a_plan_for_a_catalog_has_work() {
    let files = vec![file("/r/skills/only/SKILL.md", "")];
    let catalog = discover(&p("/r"), Kind::Skill, &files).unwrap();
    let plans = plan(
        &catalog,
        &[Target {
            tool: None,
            output: p("/out"),
        }],
        &[vec![p("/r/skills/only/SKILL.md")]],
    );
    assert!(!plans[0].ops.is_empty());
}

#[test]
fn hidden_directories_are_skipped() {
    let files = vec![
        file("/r/.hidden/skills/foo/SKILL.md", "---\nname: x\n---\n"),
        file("/r/skills/bar/SKILL.md", "---\nname: x\n---\n"),
        file("/r/skills/bar/.git/x/SKILL.md", ""),
    ];
    let catalog = discover(&p("/r"), Kind::Skill, &files).unwrap();
    let ids: Vec<&str> = catalog.artifacts.iter().map(|a| a.id.as_str()).collect();
    assert_eq!(ids, ["bar"]);
    let only_hidden = vec![file("/r/.hidden/commands/c.md", "")];
    assert!(matches!(
        discover(&p("/r"), Kind::Command, &only_hidden),
        Err(DiscoverError::NoArtifacts { .. })
    ));
    let root_hidden = vec![file("/home/.dots/commands/c.md", "")];
    assert!(discover(&p("/home/.dots"), Kind::Command, &root_hidden).is_ok());
    assert!(agent_tool_box::discover::is_in_hidden_dir(&p("/r"), &p("/r/.a/b.md")));
    assert!(!agent_tool_box::discover::is_in_hidden_dir(&p("/r"), &p("/r/a/.b.md")));
    assert_eq!(
        agent_tool_box::discover::visible_files(&p("/r"), &files).len(),
        1
    );
}

#[test]
fn nested_error_beside_an_unnamed_skill_directory() {
    let files = vec![
        file("/r/a/skills/../SKILL.md", ""),
        file("/r/skills/foo/SKILL.md", ""),
        file("/r/skills/foo/sub/SKILL.md", ""),
    ];
    assert!(!agent_tool_box::discover::skill_name_missing(&files));
    match discover(&p("/r"), Kind::Skill, &files) {
        Err(DiscoverError::NestedSkill { path, skill_id, skill_dir }) => {
            assert_eq!(path.display(), "/r/skills/foo/sub/SKILL.md");
            assert_eq!(skill_id, "foo");
            assert_eq!(skill_dir.display(), "/r/skills/foo");
        }
        _ => panic!("expected the nested error"),
    }
    let unnamed = vec![file("/r/a/skills/../SKILL.md", ""), file("/r/skills/foo/SKILL.md", "")];
    assert!(agent_tool_box::discover::skill_name_missing(&unnamed));
    let pair = agent_tool_box::discover::first_nested_pair(&files);
    assert_eq!(pair, Some((2, 1)));
}

#[test]
fn tool_labels_do_not_change_copies_and_plans_concatenate() {
    let arts = vec![
        artifact(Kind::Command, "c.md", "/r/commands/c.md"),
        artifact(Kind::Skill, "s", "/r/skills/s"),
    ];
    let trees = vec![vec![], vec![p("/r/skills/s/SKILL.md")]];
    let labelled = Target { tool: Some(Tool::Codex), output: p("/out") };
    let bare = Target { tool: None, output: p("/out") };
    let a = CopyAdapter.plan(&arts, &trees, &labelled);
    let b = CopyAdapter.plan(&arts, &trees, &bare);
    assert_eq!(a, b);
    let first = CopyAdapter.plan(&arts[..1], &trees[..1], &bare);
    let second = CopyAdapter.plan(&arts[1..], &trees[1..], &bare);
    let mut joined = first;
    joined.extend(second);
    assert_eq!(joined, a);
    assert_eq!(a.len(), 2);
    assert!(CopyAdapter.plan(&[], &[], &bare).is_empty());
}

#[test]
fn messages_show_paths_as_written() {
    let files = vec![
        file("/r//b/./skills/foo/SKILL.md", ""),
        file("/r//a/skills//foo/SKILL.md", ""),
    ];
    match discover(&p("/r/"), Kind::Skill, &files) {
        Err(e @ DiscoverError::DuplicateId { .. }) => {
            assert_eq!(
                e.message(),
                "duplicate skill id `foo`: /r//a/skills//foo and /r//b/./skills/foo"
            );
        }
        other => panic!("unexpected {other:?}"),
    }
    let files = vec![
        file("r/skills/foo/x//SKILL.md", ""),
        file("r/skills/foo/SKILL.md", ""),
    ];
    match discover(&p("r"), Kind::Skill, &files) {
        Err(e @ DiscoverError::NestedSkill { .. }) => {
            assert_eq!(
                e.message(),
                "nested SKILL.md at r/skills/foo/x//SKILL.md beneath skill `foo` (r/skills/foo)"
            );
        }
        other => panic!("unexpected {other:?}"),
    }
}
