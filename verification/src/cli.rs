//! The course of a backup run: which stage comes next, and with which code the program ends.

use vstd::prelude::*;
use vstd::string::*;

use crate::config::{Config, ConfigView};
use crate::text::cat2;

verus! {

/// Back up an accessible Notion workspace to a git repository.
#[derive(Debug)]
pub struct Args {
    /// Override the target directory.
    pub backup_dir: Option<String>,
    /// Render Markdown/CSV after the JSON dump.
    pub render: bool,
    /// Skip the Markdown/CSV render even if it is configured.
    pub no_render: bool,
    /// Render Markdown/CSV from the existing JSON tree; no API calls, no fetch.
    pub render_only: bool,
    /// Force a full re-fetch instead of an incremental dump.
    pub full: bool,
    /// Skip the git commit.
    pub no_commit: bool,
    /// Commit but do not push to the remote.
    pub no_push: bool,
    /// Enable debug logging.
    pub verbose: bool,
}

/// Whether the run renders Markdown/CSV. The flags overrule the configuration.
pub open spec fn renders(args: Args, config: ConfigView) -> bool {
    args.render || args.render_only || (!args.no_render && config.render_markdown)
}

impl Args {
    /// Whether the run renders Markdown/CSV.
    pub fn should_render(&self, config: &Config) -> (r: bool)
        ensures
            r == renders(*self, config@),
    {
        if self.render || self.render_only {
            return true;
        }
        if self.no_render {
            return false;
        }
        config.render_markdown
    }
}

/// A stage of a run.
pub enum Stage {
    /// Dump raw JSON, incrementally or not.
    Dump(bool),
    /// Render Markdown/CSV from the JSON tree.
    Render,
    /// Make sure that there is a git repository.
    EnsureRepo,
    /// Commit everything.
    Commit,
    /// Push to this remote.
    Push(String),
}

/// What a stage is.
pub enum StageView {
    Dump(bool),
    Render,
    EnsureRepo,
    Commit,
    Push(Seq<char>),
}

impl View for Stage {
    type V = StageView;

    open spec fn view(&self) -> StageView {
        match *self {
            Stage::Dump(incremental) => StageView::Dump(incremental),
            Stage::Render => StageView::Render,
            Stage::EnsureRepo => StageView::EnsureRepo,
            Stage::Commit => StageView::Commit,
            Stage::Push(remote) => StageView::Push(remote@),
        }
    }
}

/// How a stage came out.
#[derive(Clone, Copy, PartialEq, Eq, Structural)]
pub enum Outcome {
    /// It is done. Of a commit: there was nothing to commit.
    Done,
    /// A commit was made.
    Committed,
    /// It failed.
    Failed,
}

/// What the program does next.
pub enum Action {
    /// Go through this stage.
    Go(Stage),
    /// End with this code.
    Exit(i32),
}

/// What an action is.
pub enum ActionView {
    Go(StageView),
    Exit(i32),
}

impl View for Action {
    type V = ActionView;

    open spec fn view(&self) -> ActionView {
        match *self {
            Action::Go(stage) => ActionView::Go(stage@),
            Action::Exit(code) => ActionView::Exit(code),
        }
    }
}

/// What comes once the dump is done, or skipped.
pub open spec fn after_dump(args: Args, config: ConfigView) -> ActionView {
    if renders(args, config) {
        ActionView::Go(StageView::Render)
    } else {
        after_render(args)
    }
}

/// What comes once the rendering is done, or skipped.
pub open spec fn after_render(args: Args) -> ActionView {
    if args.no_commit {
        ActionView::Exit(0)
    } else {
        ActionView::Go(StageView::EnsureRepo)
    }
}

/// What comes after a commit: a push where something was committed, there is a remote, and pushing
/// is not skipped.
pub open spec fn after_commit(args: Args, config: ConfigView, committed: bool) -> ActionView {
    match config.git_remote {
        Some(remote) => if committed && !args.no_push {
            ActionView::Go(StageView::Push(remote))
        } else {
            ActionView::Exit(0)
        },
        None => ActionView::Exit(0),
    }
}

/// The course of a run: the first stage where there is none before, else the one that follows. A
/// configuration that fails ends the run with code 2, a stage that fails with code 1.
pub open spec fn course(
    args: Args,
    config: Option<ConfigView>,
    before: Option<(StageView, Outcome)>,
) -> ActionView {
    match config {
        None => ActionView::Exit(2),
        Some(config) => match before {
            None => if args.render_only {
                after_dump(args, config)
            } else {
                ActionView::Go(StageView::Dump(!(args.full || config.full_sync)))
            },
            Some((stage, outcome)) => if outcome == Outcome::Failed {
                ActionView::Exit(1)
            } else {
                match stage {
                    StageView::Dump(_) => after_dump(args, config),
                    StageView::Render => after_render(args),
                    StageView::EnsureRepo => ActionView::Go(StageView::Commit),
                    StageView::Commit => after_commit(args, config, outcome == Outcome::Committed),
                    StageView::Push(_) => ActionView::Exit(0),
                }
            },
        },
    }
}

fn rendering(args: &Args, config: &Config) -> (r: Action)
    ensures
        r@ == after_dump(*args, config@),
{
    if args.should_render(config) {
        Action::Go(Stage::Render)
    } else {
        committing(args)
    }
}

fn committing(args: &Args) -> (r: Action)
    ensures
        r@ == after_render(*args),
{
    if args.no_commit {
        Action::Exit(0)
    } else {
        Action::Go(Stage::EnsureRepo)
    }
}

/// Runs a backup: tells what comes next, given the configuration, where there is one, and the stage
/// that was gone through last, if any.
pub fn run(args: &Args, config: Option<&Config>, before: Option<(&Stage, Outcome)>) -> (r: Action)
    ensures
        r@ == course(
            *args,
            match config {
                Some(c) => Some(c@),
                None => None,
            },
            match before {
                Some((stage, outcome)) => Some((stage@, outcome)),
                None => None,
            },
        ),
{
    let config: &Config = match config {
        Some(c) => c,
        None => {
            return Action::Exit(2);
        },
    };
    let (stage, outcome) = match before {
        Some((stage, outcome)) => (stage, outcome),
        None => {
            if args.render_only {
                return rendering(args, config);
            }
            return Action::Go(Stage::Dump(!(args.full || config.full_sync)));
        },
    };
    if outcome == Outcome::Failed {
        return Action::Exit(1);
    }
    match stage {
        Stage::Dump(_) => rendering(args, config),
        Stage::Render => committing(args),
        Stage::EnsureRepo => Action::Go(Stage::Commit),
        Stage::Commit => match &config.git_remote {
            Some(remote) => if outcome == Outcome::Committed && !args.no_push {
                Action::Go(Stage::Push(remote.clone()))
            } else {
                Action::Exit(0)
            },
            None => Action::Exit(0),
        },
        Stage::Push(_) => Action::Exit(0),
    }
}

/// The message of a commit.
pub fn commit_message(timestamp: &str) -> (r: String)
    ensures
        r@ == "chore: notion backup "@ + timestamp@,
{
    cat2("chore: notion backup ", timestamp)
}

/// A render-only run never dumps; with the Markdown tree it is done, and then commits as any run.
pub proof fn law_render_only_never_dumps(
    args: Args,
    config: Option<ConfigView>,
    before: Option<(StageView, Outcome)>,
)
    requires
        args.render_only,
    ensures
        course(args, config, before) matches ActionView::Go(stage) ==> !(stage is Dump),
        config is Some && before is None ==> course(args, config, before) == ActionView::Go(
            StageView::Render,
        ),
{
}

/// How far along a stage is.
pub open spec fn rank(stage: StageView) -> nat {
    match stage {
        StageView::Dump(_) => 0,
        StageView::Render => 1,
        StageView::EnsureRepo => 2,
        StageView::Commit => 3,
        StageView::Push(_) => 4,
    }
}

/// A run comes to an end: every stage is followed by a later one, or by the end.
pub proof fn law_runs_end(
    args: Args,
    config: Option<ConfigView>,
    stage: StageView,
    outcome: Outcome,
)
    ensures
        course(args, config, Some((stage, outcome))) matches ActionView::Go(next) ==> rank(next)
            > rank(stage),
{
}

/// Only what was committed is pushed, to the configured remote, and never against the flags.
pub proof fn law_only_commits_are_pushed(
    args: Args,
    config: Option<ConfigView>,
    before: Option<(StageView, Outcome)>,
    remote: Seq<char>,
)
    requires
        course(args, config, before) == ActionView::Go(StageView::Push(remote)),
    ensures
        before == Some((StageView::Commit, Outcome::Committed)),
        config is Some,
        config->0.git_remote == Some(remote),
        !args.no_push,
{
}

/// A run renders where the flags ask for it, and else where the configuration does, unless the flags
/// forbid it.
pub proof fn law_flags_overrule_the_configuration(args: Args, config: ConfigView)
    ensures
        args.render || args.render_only ==> renders(args, config),
        !args.render && !args.render_only && args.no_render ==> !renders(args, config),
        !args.render && !args.render_only && !args.no_render ==> renders(args, config)
            == config.render_markdown,
{
}

/// A run dumps first, incrementally unless a full one is asked for by flag or configuration; then it
/// renders, where it is to; then it makes sure of the repository and commits, unless commits are
/// skipped; and then it pushes what was committed, where there is a remote and pushing is not skipped.
/// It ends well only behind its last stage.
pub proof fn law_runs_take_every_stage(args: Args, config: ConfigView, incremental: bool)
    ensures
        ({
            let next = |before: Option<(StageView, Outcome)>| course(args, Some(config), before);
            let rest = if args.no_commit {
                ActionView::Exit(0)
            } else {
                ActionView::Go(StageView::EnsureRepo)
            };
            &&& !args.render_only ==> next(None) == ActionView::Go(
                StageView::Dump(!args.full && !config.full_sync),
            )
            &&& renders(args, config) ==> next(
                Some((StageView::Dump(incremental), Outcome::Done)),
            ) == ActionView::Go(StageView::Render)
            &&& !renders(args, config) ==> next(
                Some((StageView::Dump(incremental), Outcome::Done)),
            ) == rest
            &&& next(Some((StageView::Render, Outcome::Done))) == rest
            &&& next(Some((StageView::EnsureRepo, Outcome::Done))) == ActionView::Go(
                StageView::Commit,
            )
            &&& next(Some((StageView::Commit, Outcome::Committed))) == (match config.git_remote {
                Some(remote) => if args.no_push {
                    ActionView::Exit(0)
                } else {
                    ActionView::Go(StageView::Push(remote))
                },
                None => ActionView::Exit(0),
            })
            &&& next(Some((StageView::Commit, Outcome::Done))) == ActionView::Exit(0)
        }),
{
}

/// A run without a configuration ends with code 2, and one whose stage fails with code 1, whatever
/// the stage; nothing follows either.
pub proof fn law_failures_end_the_run(
    args: Args,
    config: ConfigView,
    before: Option<(StageView, Outcome)>,
    stage: StageView,
)
    ensures
        course(args, None, before) == ActionView::Exit(2),
        course(args, Some(config), Some((stage, Outcome::Failed))) == ActionView::Exit(1),
        course(args, Some(config), Some((stage, Outcome::Done))) matches ActionView::Exit(code)
            ==> code == 0,
{
}

} // verus!
