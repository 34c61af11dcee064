//! End-to-end tests of the stack engine over concrete trees.

use st::cli::{plan_remote_selection, Cli, RemoteSelection};
use st::comment::u64_to_string;
use st::config::StConfig;
use st::ctx::StContext;
use st::errors::StError;
use st::set::{AssigneeArgs, RemoteArgs, SetCmd, SetCommands, SetOutcome};
use st::submit::{BranchPlan, PrFacts, SubmitCmd};
use st::tree::{RemoteMetadata, StTree, TrackedBranch};

fn branch(name: &str, parent: Option<&str>, children: &[&str]) -> TrackedBranch {
    TrackedBranch {
        name: name.to_owned(),
        parent: parent.map(|p| p.to_owned()),
        children: children.iter().map(|c| (*c).to_owned()).collect(),
        remote: None,
    }
}

fn meta(pr_number: u64, remote_name: &str) -> RemoteMetadata {
    RemoteMetadata::new(pr_number, remote_name.to_owned())
}

/// trunk -> a -> b, nothing published.
fn linear_tree() -> StTree {
    StTree {
        branches: vec![
            branch("trunk", None, &["a"]),
            branch("a", Some("trunk"), &["b"]),
            branch("b", Some("a"), &[]),
        ],
        trunk_name: "trunk".to_owned(),
        remote_name: "origin".to_owned(),
    }
}

fn ctx_with(tree: StTree) -> StContext {
    StContext {
        cfg: StConfig {
            github_token: "SECRET-REDACTED".to_owned(),
            default_assignee: None,
        },
        tree,
    }
}

#[test]
fn discover_stack_walks_to_trunk() {
    let tree = linear_tree();
    let stack = tree.discover_stack(&"b".to_owned()).unwrap();
    assert_eq!(stack, vec!["trunk".to_owned(), "a".to_owned(), "b".to_owned()]);
}

#[test]
fn discover_stack_from_middle() {
    let tree = linear_tree();
    let stack = tree.discover_stack(&"a".to_owned()).unwrap();
    assert_eq!(stack, vec!["trunk".to_owned(), "a".to_owned()]);
}

#[test]
fn discover_stack_untracked_branch_fails() {
    let tree = linear_tree();
    let err = tree.discover_stack(&"nowhere".to_owned()).unwrap_err();
    assert!(matches!(err, StError::BranchNotTracked(n) if n == "nowhere"));
}

#[test]
fn target_remote_inherits_from_child() {
    let mut tree = linear_tree();
    tree.branches[2].remote = Some(meta(7, "fork"));
    let ctx = ctx_with(tree);
    let target = SubmitCmd::determine_target_pr_remote(&ctx, &"a".to_owned()).unwrap();
    assert_eq!(target, "fork");
}

#[test]
fn target_remote_falls_back_to_default() {
    // the empty name means "the default remote" throughout the tree
    let ctx = ctx_with(linear_tree());
    let target = SubmitCmd::determine_target_pr_remote(&ctx, &"a".to_owned()).unwrap();
    assert_eq!(target, "");
    let leaf = SubmitCmd::determine_target_pr_remote(&ctx, &"b".to_owned()).unwrap();
    assert_eq!(leaf, "");
    assert_eq!(
        SubmitCmd::effective_push_remote(&target, &ctx.tree.remote_name),
        "origin"
    );
    assert_eq!(
        SubmitCmd::effective_push_remote(&"fork".to_owned(), &ctx.tree.remote_name),
        "fork"
    );
}

#[test]
fn cleanliness_rejects_dirty_working_tree() {
    let ctx = ctx_with(linear_tree());
    let stack = vec!["trunk".to_owned(), "a".to_owned(), "b".to_owned()];
    let err = ctx
        .check_cleanliness(&stack, false, &vec![true, true, true])
        .unwrap_err();
    assert!(matches!(err, StError::WorkingTreeDirty));
}

#[test]
fn cleanliness_rejects_unrestacked_branch() {
    let ctx = ctx_with(linear_tree());
    let stack = vec!["trunk".to_owned(), "a".to_owned(), "b".to_owned()];
    let err = ctx
        .check_cleanliness(&stack, true, &vec![true, true, false])
        .unwrap_err();
    assert!(matches!(err, StError::NeedsRestack(n) if n == "b"));
}

#[test]
fn cleanliness_accepts_clean_stack() {
    let ctx = ctx_with(linear_tree());
    let stack = vec!["trunk".to_owned(), "a".to_owned(), "b".to_owned()];
    assert!(ctx
        .check_cleanliness(&stack, true, &vec![true, true, true])
        .is_ok());
}

#[test]
fn delete_closed_branch_relinks_child() {
    // trunk -> a -> b -> c; b's pull request was closed remotely.
    let mut tree = StTree {
        branches: vec![
            branch("trunk", None, &["a"]),
            branch("a", Some("trunk"), &["b"]),
            branch("b", Some("a"), &["c"]),
            branch("c", Some("b"), &[]),
        ],
        trunk_name: "trunk".to_owned(),
        remote_name: "origin".to_owned(),
    };
    tree.branches[2].remote = Some(meta(5, ""));
    let checked = vec![
        ("a".to_owned(), false),
        ("b".to_owned(), true),
        ("c".to_owned(), false),
    ];
    let count = tree.delete_closed_branches(&checked);
    assert_eq!(count, 1);
    assert!(tree.get(&"b".to_owned()).is_none());
    let c = tree.get(&"c".to_owned()).unwrap();
    assert_eq!(c.parent.as_deref(), Some("a"));
    let a = tree.get(&"a".to_owned()).unwrap();
    assert_eq!(a.children, vec!["c".to_owned()]);
    // the whole stack still resolves through the re-linked edge
    let stack = tree.discover_stack(&"c".to_owned()).unwrap();
    assert_eq!(stack, vec!["trunk".to_owned(), "a".to_owned(), "c".to_owned()]);
}

#[test]
fn delete_ignores_trunk_and_open_branches() {
    let mut tree = linear_tree();
    tree.branches[1].remote = Some(meta(3, ""));
    let checked = vec![("trunk".to_owned(), true), ("a".to_owned(), false)];
    let count = tree.delete_closed_branches(&checked);
    assert_eq!(count, 0);
    assert!(tree.get(&"trunk".to_owned()).is_some());
    assert!(tree.get(&"a".to_owned()).is_some());
}

#[test]
fn plan_unsubmitted_branch_creates() {
    let b = branch("a", Some("trunk"), &[]);
    let plan = SubmitCmd::plan_branch(
        &b,
        &None,
        &"trunk".to_owned(),
        "trunk".to_owned(),
        &"abc123".to_owned(),
    );
    match plan {
        BranchPlan::Create { base } => assert_eq!(base, "trunk"),
        BranchPlan::Update { .. } => panic!("expected a creation plan"),
    }
}

#[test]
fn plan_stale_base_updates_before_push_decision() {
    // the remote pull request's base is an old alias of the trunk
    let mut b = branch("a", Some("trunk"), &[]);
    b.remote = Some(meta(4, ""));
    let facts = PrFacts {
        base_ref: "old-trunk-alias".to_owned(),
        head_sha: "abc123".to_owned(),
    };
    let plan = SubmitCmd::plan_branch(
        &b,
        &Some(facts),
        &"trunk".to_owned(),
        "trunk".to_owned(),
        &"abc123".to_owned(),
    );
    match plan {
        BranchPlan::Update { new_base, push } => {
            assert_eq!(new_base, Some("trunk".to_owned()));
            // the head is in sync, so exactly the base update happens
            assert!(!push);
        }
        BranchPlan::Create { .. } => panic!("expected an update plan"),
    }
}

#[test]
fn plan_synced_branch_is_noop() {
    let mut b = branch("a", Some("trunk"), &[]);
    b.remote = Some(meta(4, ""));
    let facts = PrFacts {
        base_ref: "trunk".to_owned(),
        head_sha: "abc123".to_owned(),
    };
    let plan = SubmitCmd::plan_branch(
        &b,
        &Some(facts),
        &"trunk".to_owned(),
        "trunk".to_owned(),
        &"abc123".to_owned(),
    );
    match plan {
        BranchPlan::Update { new_base, push } => {
            assert_eq!(new_base, None);
            assert!(!push);
        }
        BranchPlan::Create { .. } => panic!("expected an update plan"),
    }
}

#[test]
fn plan_stale_head_pushes() {
    let mut b = branch("a", Some("trunk"), &[]);
    b.remote = Some(meta(4, ""));
    let facts = PrFacts {
        base_ref: "trunk".to_owned(),
        head_sha: "abc123".to_owned(),
    };
    let plan = SubmitCmd::plan_branch(
        &b,
        &Some(facts),
        &"trunk".to_owned(),
        "trunk".to_owned(),
        &"def456".to_owned(),
    );
    match plan {
        BranchPlan::Update { new_base, push } => {
            assert_eq!(new_base, None);
            assert!(push);
        }
        BranchPlan::Create { .. } => panic!("expected an update plan"),
    }
}

#[test]
fn submitting_fresh_stack_records_both_branches() {
    // trunk -> a -> b with no pull requests: submission creates one pull
    // request per branch, a based on trunk, b based on a, and only the
    // comment pass fills in the comment identifiers.
    let mut ctx = ctx_with(linear_tree());
    let stack = ctx.discover_stack(&"b".to_owned()).unwrap();
    let mut created = Vec::new();
    let mut next_pr: u64 = 10;
    for i in 1..stack.len() {
        let name = stack[i].clone();
        let parent = stack[i - 1].clone();
        let target = SubmitCmd::determine_target_pr_remote(&ctx, &name).unwrap();
        assert_eq!(target, "");
        let base = SubmitCmd::base_parent_ref(&target, &"me".to_owned(), &parent);
        let node = st::tree::clone_branch(ctx.tree.get(&name).unwrap());
        let plan = SubmitCmd::plan_branch(&node, &None, &parent, base, &"sha".to_owned());
        match plan {
            BranchPlan::Create { base } => {
                created.push((name.clone(), base));
                ctx.tree
                    .record_submission(&name, next_pr, target)
                    .unwrap();
                next_pr += 1;
            }
            BranchPlan::Update { .. } => panic!("expected creation plans"),
        }
    }
    assert_eq!(
        created,
        vec![
            ("a".to_owned(), "trunk".to_owned()),
            ("b".to_owned(), "a".to_owned())
        ]
    );
    {
        let a = ctx.tree.get(&"a".to_owned()).unwrap();
        let am = a.remote.as_ref().unwrap();
        assert_eq!((am.pr_number, am.comment_id), (10, None));
    }
    {
        let b = ctx.tree.get(&"b".to_owned()).unwrap();
        let bm = b.remote.as_ref().unwrap();
        assert_eq!((bm.pr_number, bm.comment_id), (11, None));
    }
    // comment pass
    ctx.tree.record_comment_id(&"a".to_owned(), 100);
    ctx.tree.record_comment_id(&"b".to_owned(), 101);
    {
        let a = ctx.tree.get(&"a".to_owned()).unwrap();
        assert_eq!(a.remote.as_ref().unwrap().comment_id, Some(100));
    }
    {
        let b = ctx.tree.get(&"b".to_owned()).unwrap();
        assert_eq!(b.remote.as_ref().unwrap().comment_id, Some(101));
    }
}

#[test]
fn base_ref_qualifies_fork_targets() {
    let plain = SubmitCmd::base_parent_ref(&"".to_owned(), &"me".to_owned(), &"a".to_owned());
    assert_eq!(plain, "a");
    let forked = SubmitCmd::base_parent_ref(
        &"fork".to_owned(),
        &"me".to_owned(),
        &"a".to_owned(),
    );
    assert_eq!(forked, "me:a");
}

#[test]
fn renders_navigation_comment() {
    let mut tree = linear_tree();
    tree.branches[1].remote = Some(meta(10, ""));
    tree.branches[2].remote = Some(meta(2, ""));
    let ctx = ctx_with(tree);
    let stack = vec!["trunk".to_owned(), "a".to_owned(), "b".to_owned()];
    let body = SubmitCmd::render_pr_comment(&ctx, &"a".to_owned(), &stack).unwrap();
    let expected = "## 📚 $\\text{Stack Overview}$\n\n\
                    Pulls submitted in this stack:\n\
                    * #2\n\
                    * #10 👈\n\
                    * `trunk`\n\
                    \n_This comment was automatically generated by [`st`](https://github.com/clabby/st)._";
    assert_eq!(body, expected);
}

#[test]
fn comment_skips_unpublished_branches() {
    let mut tree = linear_tree();
    tree.branches[2].remote = Some(meta(2, ""));
    let ctx = ctx_with(tree);
    let stack = vec!["trunk".to_owned(), "a".to_owned(), "b".to_owned()];
    let body = SubmitCmd::render_pr_comment(&ctx, &"b".to_owned(), &stack).unwrap();
    assert!(body.contains("* #2 👈\n"));
    assert!(!body.contains("#10"));
}

#[test]
fn comment_fails_on_untracked_stack_entry() {
    let ctx = ctx_with(linear_tree());
    let stack = vec!["trunk".to_owned(), "ghost-branch".to_owned()];
    let err = SubmitCmd::render_pr_comment(&ctx, &"a".to_owned(), &stack).unwrap_err();
    assert!(matches!(err, StError::BranchNotTracked(n) if n == "ghost-branch"));
}

#[test]
fn formats_pull_request_numbers() {
    assert_eq!(u64_to_string(0), "0");
    assert_eq!(u64_to_string(7), "7");
    assert_eq!(u64_to_string(42), "42");
    assert_eq!(u64_to_string(1234567890), "1234567890");
}

#[test]
fn config_validation_requires_token() {
    let bad = StConfig {
        github_token: "".to_owned(),
        default_assignee: None,
    };
    assert!(matches!(bad.validate(), Err(StError::ConfigInvalid)));
    let loaded = Cli::load_cfg_or_initialize(Some(bad));
    assert!(loaded.is_none());
    assert!(Cli::load_cfg_or_initialize(None).is_none());
    let good = StConfig {
        github_token: "SECRET-REDACTED".to_owned(),
        default_assignee: None,
    };
    assert!(Cli::load_cfg_or_initialize(Some(good)).is_some());
}

#[test]
fn set_assignee_updates_config() {
    let mut ctx = ctx_with(linear_tree());
    let cmd = SetCmd {
        command: SetCommands::Assignee(AssigneeArgs {
            username: "alice".to_owned(),
        }),
    };
    let outcome = cmd.run(&mut ctx).unwrap();
    assert!(matches!(outcome, SetOutcome::Done));
    assert_eq!(ctx.cfg.default_assignee.as_deref(), Some("alice"));
}

#[test]
fn set_remote_resets_tracked_branches() {
    let mut tree = linear_tree();
    tree.branches[1].remote = Some(meta(3, ""));
    let mut ctx = ctx_with(tree);
    let cmd = SetCmd {
        command: SetCommands::Remote(RemoteArgs {
            name: Some("upstream".to_owned()),
        }),
    };
    let outcome = cmd.run(&mut ctx).unwrap();
    assert!(matches!(outcome, SetOutcome::Done));
    assert_eq!(ctx.tree.remote_name, "upstream");
    assert!(ctx.tree.get(&"a".to_owned()).unwrap().remote.is_none());
}

#[test]
fn set_remote_same_name_is_noop() {
    let mut tree = linear_tree();
    tree.branches[1].remote = Some(meta(3, ""));
    let mut ctx = ctx_with(tree);
    let cmd = SetCmd {
        command: SetCommands::Remote(RemoteArgs {
            name: Some("origin".to_owned()),
        }),
    };
    cmd.run(&mut ctx).unwrap();
    assert!(ctx.tree.get(&"a".to_owned()).unwrap().remote.is_some());
}

#[test]
fn set_remote_without_name_requests_prompt() {
    let mut ctx = ctx_with(linear_tree());
    let cmd = SetCmd {
        command: SetCommands::Remote(RemoteArgs { name: None }),
    };
    let outcome = cmd.run(&mut ctx).unwrap();
    assert!(matches!(outcome, SetOutcome::RemotePromptNeeded));
    SetCmd::apply_remote(&mut ctx, "upstream".to_owned());
    assert_eq!(ctx.tree.remote_name, "upstream");
}

#[test]
fn remote_selection_prefers_origin() {
    let single = plan_remote_selection(vec!["upstream".to_owned()]);
    assert!(matches!(single, RemoteSelection::Single(n) if n == "upstream"));
    let multi = plan_remote_selection(vec![
        "fork".to_owned(),
        "origin".to_owned(),
        "upstream".to_owned(),
    ]);
    match multi {
        RemoteSelection::Choose(v) => {
            assert_eq!(
                v,
                vec!["origin".to_owned(), "fork".to_owned(), "upstream".to_owned()]
            );
        }
        RemoteSelection::Single(_) => panic!("expected a choice"),
    }
    let no_origin = plan_remote_selection(vec!["fork".to_owned(), "upstream".to_owned()]);
    match no_origin {
        RemoteSelection::Choose(v) => {
            assert_eq!(v, vec!["fork".to_owned(), "upstream".to_owned()]);
        }
        RemoteSelection::Single(_) => panic!("expected a choice"),
    }
}

#[test]
fn owner_and_repo_from_https_url() {
    let url = "https://github.com/clabby/st.git".to_owned();
    let (owner, repo) = st::giturl::owner_and_repository(&url).unwrap();
    assert_eq!(owner, "clabby");
    assert_eq!(repo, "st");
}

#[test]
fn owner_and_repo_from_scp_url() {
    let url = "git@github.com:clabby/st.git".to_owned();
    let (owner, repo) = st::giturl::owner_and_repository(&url).unwrap();
    assert_eq!(owner, "clabby");
    assert_eq!(repo, "st");
}

#[test]
fn owner_and_repo_without_suffix_or_path() {
    let url = "example.com/owner/repo".to_owned();
    let (owner, repo) = st::giturl::owner_and_repository(&url).unwrap();
    assert_eq!(owner, "owner");
    assert_eq!(repo, "repo");
    assert!(st::giturl::owner_and_repository(&"nonsense".to_owned()).is_none());
}

#[test]
fn fresh_context_holds_only_trunk() {
    let ctx = st::ctx::StContext::fresh(
        StConfig {
            github_token: "SECRET-REDACTED".to_owned(),
            default_assignee: None,
        },
        "origin".to_owned(),
        "main".to_owned(),
    );
    assert_eq!(ctx.tree.trunk_name, "main");
    assert_eq!(ctx.tree.remote_name, "origin");
    assert_eq!(ctx.tree.branches.len(), 1);
    let stack = ctx.discover_stack(&"main".to_owned()).unwrap();
    assert_eq!(stack, vec!["main".to_owned()]);
}

#[test]
fn formats_largest_pull_request_number() {
    assert_eq!(u64_to_string(u64::MAX), "18446744073709551615");
}

#[test]
fn fresh_stack_on_default_remote_gets_bare_bases() {
    // the resolver and the base builder compose to the plain parent name
    // when nothing in the stack names a fork
    let ctx = ctx_with(linear_tree());
    let target = SubmitCmd::determine_target_pr_remote(&ctx, &"a".to_owned()).unwrap();
    let base = SubmitCmd::base_parent_ref(&target, &"me".to_owned(), &"trunk".to_owned());
    assert_eq!(base, "trunk");
}

#[test]
fn fork_target_qualifies_base() {
    let mut tree = linear_tree();
    tree.branches[2].remote = Some(meta(7, "fork"));
    let ctx = ctx_with(tree);
    let target = SubmitCmd::determine_target_pr_remote(&ctx, &"a".to_owned()).unwrap();
    assert_eq!(target, "fork");
    let base = SubmitCmd::base_parent_ref(&target, &"me".to_owned(), &"trunk".to_owned());
    assert_eq!(base, "me:trunk");
}

#[test]
fn wf_check_accepts_valid_tree() {
    assert!(linear_tree().check_wf());
    let single = StTree {
        branches: vec![branch("main", None, &[])],
        trunk_name: "main".to_owned(),
        remote_name: "origin".to_owned(),
    };
    assert!(single.check_wf());
}

#[test]
fn wf_check_rejects_broken_trees() {
    // empty store
    let empty = StTree {
        branches: vec![],
        trunk_name: "trunk".to_owned(),
        remote_name: "origin".to_owned(),
    };
    assert!(!empty.check_wf());
    // dangling parent
    let dangling = StTree {
        branches: vec![branch("trunk", None, &["a"]), branch("a", Some("ghost"), &[])],
        trunk_name: "trunk".to_owned(),
        remote_name: "origin".to_owned(),
    };
    assert!(!dangling.check_wf());
    // parent cycle (each names the other)
    let cycle = StTree {
        branches: vec![
            branch("trunk", None, &[]),
            branch("a", Some("b"), &["b"]),
            branch("b", Some("a"), &["a"]),
        ],
        trunk_name: "trunk".to_owned(),
        remote_name: "origin".to_owned(),
    };
    assert!(!cycle.check_wf());
    // child edge without the mirroring children entry
    let unmirrored = StTree {
        branches: vec![branch("trunk", None, &[]), branch("a", Some("trunk"), &[])],
        trunk_name: "trunk".to_owned(),
        remote_name: "origin".to_owned(),
    };
    assert!(!unmirrored.check_wf());
    // duplicated name
    let duplicated = StTree {
        branches: vec![
            branch("trunk", None, &["a", "a"]),
            branch("a", Some("trunk"), &[]),
            branch("a", Some("trunk"), &[]),
        ],
        trunk_name: "trunk".to_owned(),
        remote_name: "origin".to_owned(),
    };
    assert!(!duplicated.check_wf());
}
