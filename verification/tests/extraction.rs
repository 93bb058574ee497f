use unitypkg::cli::{decide_cli, CliDecision};
use unitypkg::extract::{extract_plan, EntryAction, StagedEntry};
use unitypkg::payload::{CopyOp, DirChild, FsNode};

fn s(v: &str) -> String {
    v.to_string()
}

fn path(parts: &[&str]) -> Vec<String> {
    parts.iter().map(|p| p.to_string()).collect()
}

fn file_entry(id: &str, pathname: &str, bytes: &[u8]) -> StagedEntry {
    StagedEntry {
        entry_id: s(id),
        pathname: Some(s(pathname)),
        asset: Some(FsNode::File { bytes: bytes.to_vec() }),
    }
}

#[test]
fn single_file_entry_is_planned_at_its_pathname() {
    let entries = vec![file_entry("abc123", "Assets/Scripts/Foo.cs", b"hello")];
    let plan = extract_plan(&entries, "/dest", false);
    assert!(plan.failed.is_none());
    assert_eq!(plan.steps.len(), 1);
    assert_eq!(plan.steps[0].entry_id, "abc123");
    match &plan.steps[0].action {
        EntryAction::Extract { dest_rel, ops } => {
            assert_eq!(*dest_rel, path(&["Assets", "Scripts", "Foo.cs"]));
            assert_eq!(
                *ops,
                vec![
                    CopyOp::MakeDirs { path: path(&["Assets", "Scripts"]) },
                    CopyOp::PutFile {
                        path: path(&["Assets", "Scripts", "Foo.cs"]),
                        bytes: b"hello".to_vec(),
                    },
                ]
            );
        }
        other => panic!("expected extraction, got {:?}", other),
    }
}

#[test]
fn traversal_pathname_is_skipped_with_warning_path() {
    let entries = vec![file_entry("evil", "../../etc/evil", b"x")];
    let plan = extract_plan(&entries, "/dest", false);
    assert!(plan.failed.is_none());
    assert_eq!(plan.steps.len(), 1);
    match &plan.steps[0].action {
        EntryAction::SkipOutsideRoot { resolved } => {
            assert_eq!(resolved, "/dest/../../etc/evil");
        }
        other => panic!("expected outside-root skip, got {:?}", other),
    }
}

#[test]
fn absolute_pathname_is_skipped() {
    let entries = vec![file_entry("abs", "/etc/passwd", b"x")];
    let plan = extract_plan(&entries, "/dest", false);
    assert!(plan.failed.is_none());
    match &plan.steps[0].action {
        EntryAction::SkipOutsideRoot { resolved } => {
            assert_eq!(resolved, "/etc/passwd");
        }
        other => panic!("expected outside-root skip, got {:?}", other),
    }
}

#[test]
fn missing_asset_is_skipped_without_aborting() {
    let entries = vec![
        StagedEntry {
            entry_id: s("noasset"),
            pathname: Some(s("Assets/Missing.txt")),
            asset: None,
        },
        file_entry("ok", "Assets/Ok.txt", b"ok"),
    ];
    let plan = extract_plan(&entries, "/dest", false);
    assert!(plan.failed.is_none());
    assert_eq!(plan.steps.len(), 2);
    assert_eq!(plan.steps[0].action, EntryAction::SkipMissingAsset);
    assert!(matches!(plan.steps[1].action, EntryAction::Extract { .. }));
}

#[test]
fn missing_pathname_is_skipped_without_aborting() {
    let entries = vec![
        StagedEntry { entry_id: s("nomarker"), pathname: None, asset: None },
        file_entry("ok", "Assets/Ok.txt", b"ok"),
    ];
    let plan = extract_plan(&entries, "/dest", false);
    assert!(plan.failed.is_none());
    assert_eq!(plan.steps.len(), 2);
    assert_eq!(plan.steps[0].action, EntryAction::SkipMissingPathname);
}

#[test]
fn directory_payload_copy_preserves_nested_structure() {
    let tree = FsNode::Dir {
        children: vec![DirChild {
            name: s("a"),
            node: FsNode::Dir {
                children: vec![DirChild {
                    name: s("b"),
                    node: FsNode::Dir {
                        children: vec![DirChild {
                            name: s("c.txt"),
                            node: FsNode::File { bytes: b"deep".to_vec() },
                        }],
                    },
                }],
            },
        }],
    };
    let entries = vec![StagedEntry {
        entry_id: s("dir"),
        pathname: Some(s("Assets/Pack")),
        asset: Some(tree),
    }];
    let plan = extract_plan(&entries, "/dest", false);
    assert!(plan.failed.is_none());
    match &plan.steps[0].action {
        EntryAction::Extract { dest_rel, ops } => {
            assert_eq!(*dest_rel, path(&["Assets", "Pack"]));
            assert_eq!(
                *ops,
                vec![
                    CopyOp::MakeDirs { path: path(&["Assets", "Pack"]) },
                    CopyOp::MakeDirs { path: path(&["Assets", "Pack", "a"]) },
                    CopyOp::MakeDirs { path: path(&["Assets", "Pack", "a", "b"]) },
                    CopyOp::MakeDirs { path: path(&["Assets", "Pack", "a", "b"]) },
                    CopyOp::PutFile {
                        path: path(&["Assets", "Pack", "a", "b", "c.txt"]),
                        bytes: b"deep".to_vec(),
                    },
                ]
            );
        }
        other => panic!("expected extraction, got {:?}", other),
    }
}

#[test]
fn unsupported_payload_fails_run_keeping_earlier_steps() {
    let entries = vec![
        file_entry("first", "Assets/First.txt", b"1"),
        StagedEntry {
            entry_id: s("weird"),
            pathname: Some(s("Assets/Weird")),
            asset: Some(FsNode::Other),
        },
        file_entry("later", "Assets/Later.txt", b"2"),
    ];
    let plan = extract_plan(&entries, "/dest", false);
    assert_eq!(plan.failed.as_deref(), Some("weird"));
    assert_eq!(plan.steps.len(), 1);
    assert_eq!(plan.steps[0].entry_id, "first");
}

#[test]
fn pathname_is_trimmed_before_resolving() {
    let entries = vec![file_entry("sp", "  Assets/Trim.txt\n", b"t")];
    let plan = extract_plan(&entries, "/dest", false);
    match &plan.steps[0].action {
        EntryAction::Extract { dest_rel, .. } => {
            assert_eq!(*dest_rel, path(&["Assets", "Trim.txt"]));
        }
        other => panic!("expected extraction, got {:?}", other),
    }
}

#[test]
fn reserved_characters_are_replaced_when_sanitizing() {
    let entries = vec![file_entry("w", "Assets/a<b>c:d.txt", b"x")];
    let plan = extract_plan(&entries, "C:\\dest", true);
    match &plan.steps[0].action {
        EntryAction::Extract { dest_rel, .. } => {
            assert_eq!(*dest_rel, path(&["Assets", "a_b_c_d.txt"]));
        }
        other => panic!("expected extraction, got {:?}", other),
    }
}

#[test]
fn reserved_characters_pass_through_without_sanitizing() {
    let entries = vec![file_entry("w", "Assets/a?.txt", b"x")];
    let plan = extract_plan(&entries, "/dest", false);
    match &plan.steps[0].action {
        EntryAction::Extract { dest_rel, .. } => {
            assert_eq!(*dest_rel, path(&["Assets", "a?.txt"]));
        }
        other => panic!("expected extraction, got {:?}", other),
    }
}

#[test]
fn dot_and_empty_components_are_dropped() {
    let entries = vec![file_entry("d", "Assets/./x//y.txt", b"x")];
    let plan = extract_plan(&entries, "/dest", false);
    match &plan.steps[0].action {
        EntryAction::Extract { dest_rel, .. } => {
            assert_eq!(*dest_rel, path(&["Assets", "x", "y.txt"]));
        }
        other => panic!("expected extraction, got {:?}", other),
    }
}

#[test]
fn parent_components_pop_inside_the_root() {
    let entries = vec![file_entry("p", "Assets/tmp/../x.txt", b"x")];
    let plan = extract_plan(&entries, "/dest", false);
    match &plan.steps[0].action {
        EntryAction::Extract { dest_rel, .. } => {
            assert_eq!(*dest_rel, path(&["Assets", "x.txt"]));
        }
        other => panic!("expected extraction, got {:?}", other),
    }
}

#[test]
fn planning_twice_gives_the_same_plan() {
    let entries = vec![
        file_entry("a", "Assets/A.txt", b"a"),
        file_entry("b", "Assets/B.txt", b"b"),
    ];
    let once = extract_plan(&entries, "/dest", false);
    let again = extract_plan(&entries, "/dest", false);
    assert_eq!(once.steps.len(), again.steps.len());
    for (x, y) in once.steps.iter().zip(again.steps.iter()) {
        assert_eq!(x.entry_id, y.entry_id);
        assert_eq!(x.action, y.action);
    }
}

#[test]
fn empty_archive_succeeds_with_no_steps() {
    let entries: Vec<StagedEntry> = Vec::new();
    let plan = extract_plan(&entries, "/dest", false);
    assert!(plan.failed.is_none());
    assert!(plan.steps.is_empty());
}

#[test]
fn usage_decisions_follow_the_argument_count() {
    assert_eq!(decide_cli(1), CliDecision::UsageTooFew);
    assert_eq!(decide_cli(2), CliDecision::RunExtraction);
    assert_eq!(decide_cli(3), CliDecision::UsageTooMany);
    assert_eq!(decide_cli(7), CliDecision::UsageTooMany);
}
