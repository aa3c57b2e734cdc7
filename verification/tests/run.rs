//! Configuration, the course of a run, and the git operations.

use notion_backup::cli::{commit_message, run, Action, Args, Outcome, Stage};
use notion_backup::config::{expand_tilde, join_path, resolve_dir, Config, Environment};
use notion_backup::git_sync::{
    commit_all, ensure_repo, git_failure, has_changes, has_origin, push, GitStep,
};

fn unset() -> Environment {
    Environment {
        notion_token: None,
        backup_dir: None,
        git_remote: None,
        notion_api_version: None,
        render_markdown: None,
        full_sync: None,
        home: None,
        current_dir: None,
    }
}

fn set(text: &str) -> Option<String> {
    Some(text.to_string())
}

fn args() -> Args {
    Args {
        backup_dir: None,
        render: false,
        no_render: false,
        render_only: false,
        full: false,
        no_commit: false,
        no_push: false,
        verbose: false,
    }
}

fn config() -> Config {
    Config::from_env(&unset(), None, false).unwrap()
}

#[test]
fn defaults_fill_what_is_unset() {
    let mut env = unset();
    env.notion_token = set("  tok ");
    env.current_dir = set("/work");
    let config = Config::from_env(&env, None, true).unwrap();
    assert_eq!(config.notion_token, "tok");
    assert_eq!(config.backup_dir, "/work/backup");
    assert_eq!(config.api_version, "2025-09-03");
    assert_eq!(config.git_remote, None);
    assert!(!config.render_markdown && !config.full_sync);
    assert_eq!(config.json_dir(), "/work/backup/json");
    assert_eq!(config.markdown_dir(), "/work/backup/markdown");
}

#[test]
fn a_missing_token_is_refused_unless_it_is_not_needed() {
    let mut env = unset();
    env.notion_token = set(" \t ");
    let refused = Config::from_env(&env, None, true);
    assert!(refused.unwrap_err().message().starts_with("NOTION_TOKEN is not set. Create an"));
    assert_eq!(Config::from_env(&env, None, false).unwrap().notion_token, "");
}

#[test]
fn variables_are_taken_over() {
    let mut env = unset();
    env.notion_token = set("t");
    env.backup_dir = set(" ~/b ");
    env.git_remote = set("git@x:y");
    env.notion_api_version = set("v9");
    env.render_markdown = set(" YES ");
    env.full_sync = set("On");
    env.home = set("/home/u");
    env.current_dir = set("/work");
    let config = Config::from_env(&env, None, true).unwrap();
    assert_eq!(config.backup_dir, "/home/u/b");
    assert_eq!(config.git_remote.as_deref(), Some("git@x:y"));
    assert_eq!(config.api_version, "v9");
    assert!(config.render_markdown && config.full_sync);
    let other = Config::from_env(&env, Some("rel"), true).unwrap();
    assert_eq!(other.backup_dir, "/work/rel");
}

#[test]
fn only_four_words_are_truthy() {
    for (word, on) in
        [("1", true), ("TRUE", true), ("Yes", true), (" oN ", true), ("2", false), ("", false)]
    {
        let mut env = unset();
        env.full_sync = set(word);
        assert_eq!(Config::from_env(&env, None, false).unwrap().full_sync, on, "{word}");
    }
}

#[test]
fn paths_are_joined_as_unix_does() {
    assert_eq!(join_path("/a", "b"), "/a/b");
    assert_eq!(join_path("/a/", "b"), "/a/b");
    assert_eq!(join_path("", "b"), "b");
    assert_eq!(join_path("/a", "/b"), "/b");
    assert_eq!(expand_tilde("~", Some("/h")), "/h");
    assert_eq!(expand_tilde("~/x", None), "~/x");
    assert_eq!(expand_tilde("~x", Some("/h")), "~x");
    assert_eq!(resolve_dir("/abs", Some("/h"), Some("/w")), "/abs");
    assert_eq!(resolve_dir("rel", None, None), "rel");
}

#[test]
fn flags_overrule_the_configured_rendering() {
    let mut on = config();
    on.render_markdown = true;
    let off = config();
    assert!(args().should_render(&on) && !args().should_render(&off));
    let force = Args { render: true, ..args() };
    assert!(force.should_render(&off));
    let skip = Args { no_render: true, ..args() };
    assert!(!skip.should_render(&on));
    let only = Args { render_only: true, ..args() };
    assert!(only.should_render(&off));
}

/// The stages of a run in which every stage succeeds, and its exit code.
fn course(args: &Args, config: Option<&Config>, committed: bool) -> (Vec<String>, i32) {
    let mut names = Vec::new();
    let mut last: Option<(Stage, Outcome)> = None;
    loop {
        let before = match &last {
            Some((stage, outcome)) => Some((stage, *outcome)),
            None => None,
        };
        match run(args, config, before) {
            Action::Exit(code) => return (names, code),
            Action::Go(stage) => {
                names.push(match &stage {
                    Stage::Dump(incremental) => format!("dump {incremental}"),
                    Stage::Render => "render".to_string(),
                    Stage::EnsureRepo => "repo".to_string(),
                    Stage::Commit => "commit".to_string(),
                    Stage::Push(remote) => format!("push {remote}"),
                });
                let outcome = if matches!(stage, Stage::Commit) && committed {
                    Outcome::Committed
                } else {
                    Outcome::Done
                };
                last = Some((stage, outcome));
            }
        }
    }
}

#[test]
fn a_run_goes_through_its_stages() {
    let mut conf = config();
    conf.git_remote = set("r");
    assert_eq!(
        course(&args(), Some(&conf), true),
        (vec!["dump true".into(), "repo".into(), "commit".into(), "push r".into()], 0)
    );
    assert_eq!(
        course(&args(), Some(&conf), false).0,
        vec!["dump true".to_string(), "repo".into(), "commit".into()]
    );
    let full = Args { full: true, render: true, no_commit: true, ..args() };
    assert_eq!(
        course(&full, Some(&conf), true),
        (vec!["dump false".into(), "render".into()], 0)
    );
    let only = Args { render_only: true, no_push: true, ..args() };
    assert_eq!(
        course(&only, Some(&conf), true).0,
        vec!["render".to_string(), "repo".into(), "commit".into()]
    );
    conf.full_sync = true;
    assert_eq!(course(&args(), Some(&conf), true).0[0], "dump false");
    assert_eq!(course(&args(), None, true), (Vec::new(), 2));
}

#[test]
fn a_failed_stage_ends_the_run() {
    let stage = Stage::Dump(true);
    let action = run(&args(), Some(&config()), Some((&stage, Outcome::Failed)));
    assert!(matches!(action, Action::Exit(1)));
    assert_eq!(commit_message("2026-01-01T00:00:00+00:00"),
        "chore: notion backup 2026-01-01T00:00:00+00:00");
}

fn words(step: GitStep) -> String {
    match step {
        GitStep::Run(args) => args.join(" "),
        GitStep::Done(changed) => format!("done {changed}"),
    }
}

fn printed(outputs: &[&str]) -> Vec<String> {
    outputs.iter().map(|o| o.to_string()).collect()
}

#[test]
fn commits_are_made_of_changes_only() {
    assert!(has_changes(" M a\n") && !has_changes(" \n"));
    assert_eq!(words(commit_all("m", &printed(&[]))), "add -A");
    assert_eq!(words(commit_all("m", &printed(&[""]))), "status --porcelain");
    assert_eq!(words(commit_all("m", &printed(&["", "\n"]))), "done false");
    assert_eq!(words(commit_all("m", &printed(&["", "?? a"]))), "commit -m m");
    assert_eq!(words(commit_all("m", &printed(&["", "?? a", "ok"]))), "done true");
    // A second commit finds a clean tree.
    assert_eq!(words(commit_all("n", &printed(&["", ""]))), "done false");
}

#[test]
fn pushing_adds_the_remote_once() {
    assert!(has_origin("upstream\norigin\n") && has_origin("origin"));
    assert!(!has_origin("origins\nmy-origin\n") && !has_origin(""));
    assert_eq!(words(push("u", &printed(&[]))), "remote");
    assert_eq!(words(push("u", &printed(&[""]))), "remote add origin u");
    assert_eq!(words(push("u", &printed(&["", ""]))), "rev-parse --abbrev-ref HEAD");
    assert_eq!(words(push("u", &printed(&["", "", "main\n"]))), "push -u origin main");
    assert_eq!(words(push("u", &printed(&["", "", "main\n", ""]))), "done true");
}

#[test]
fn pushes_reach_the_remote_whatever_origin_is() {
    let asked = ["origin\n"];
    assert_eq!(words(push("u", &printed(&asked))), "remote get-url --push origin");
    let same = ["origin\n", "u\n", "dev\n"];
    assert_eq!(words(push("u", &printed(&same[..2]))), "rev-parse --abbrev-ref HEAD");
    assert_eq!(words(push("u", &printed(&same))), "push -u origin dev");
    let other = ["origin\n", "elsewhere\n", "dev\n", ""];
    assert_eq!(words(push("u", &printed(&other[..3]))), "push -u u dev");
    assert_eq!(words(push("u", &printed(&other))), "done true");
}

#[test]
fn repositories_are_made_once() {
    assert_eq!(words(ensure_repo(true, &printed(&[]))), "done false");
    assert_eq!(words(ensure_repo(false, &printed(&[]))), "init");
    assert_eq!(words(ensure_repo(false, &printed(&["ok"]))), "done true");
    assert_eq!(
        git_failure(&printed(&["push", "-u"]), " denied\n"),
        "git push -u failed: denied"
    );
}
