//! Git operations for committing the backup tree.
//!
//! Each operation says which command comes next, given what the commands before it printed; the
//! caller runs the commands, and stops at the first that fails.

use vstd::prelude::*;
use vstd::string::*;

use crate::text::{
    cat4, chars_of, is_covered, is_white_space, join, joined, lemma_trim_range, same, text_between,
    texts, trim, trim_back, trimmed, Edge,
};

verus! {

/// What is to be done next.
pub enum GitStep {
    /// Run `git` with these arguments.
    Run(Vec<String>),
    /// Nothing: the operation is done, and it changed something or not.
    Done(bool),
}

/// What a step says.
pub enum StepView {
    Run(Seq<Seq<char>>),
    Done(bool),
}

impl View for GitStep {
    type V = StepView;

    open spec fn view(&self) -> StepView {
        match *self {
            GitStep::Run(args) => StepView::Run(texts(args@)),
            GitStep::Done(changed) => StepView::Done(changed),
        }
    }
}

/// Whether a text holds a word: with white space or an end of the text on either side of it.
pub open spec fn has_word(s: Seq<char>, word: Seq<char>) -> bool {
    exists|i: int| #[trigger] is_word_at(s, word, i)
}

/// Whether a word stands at a position.
pub open spec fn is_word_at(s: Seq<char>, word: Seq<char>, i: int) -> bool {
    &&& 0 <= i
    &&& i + word.len() <= s.len()
    &&& s.subrange(i, i + word.len()) == word
    &&& i > 0 ==> is_white_space(s[i - 1])
    &&& i + word.len() < s.len() ==> is_white_space(s[i + word.len() as int])
}

/// Whether `git status --porcelain` printed anything.
pub open spec fn is_changed(status: Seq<char>) -> bool {
    trim(status, Edge::WhiteSpace).len() > 0
}

/// Stage everything, see whether anything changed, and commit if so.
pub open spec fn commit_step(message: Seq<char>, outputs: Seq<Seq<char>>) -> StepView {
    if outputs.len() == 0 {
        StepView::Run(seq!["add"@, "-A"@])
    } else if outputs.len() == 1 {
        StepView::Run(seq!["status"@, "--porcelain"@])
    } else if !is_changed(outputs[1]) {
        StepView::Done(false)
    } else if outputs.len() == 2 {
        StepView::Run(seq!["commit"@, "-m"@, message])
    } else {
        StepView::Done(true)
    }
}

/// Where a push goes that is to reach `remote`, by what `git remote` printed and, where that lists
/// an `origin`, by the URL that `origin` is pushed to: to `origin`, if that is `remote`, else to
/// `remote` itself.
pub open spec fn push_target(remote: Seq<char>, remotes: Seq<char>, url: Seq<char>) -> Seq<char> {
    if has_word(remotes, "origin"@) && trim(url, Edge::WhiteSpace) != remote {
        remote
    } else {
        "origin"@
    }
}

/// List the remotes; add the remote as `origin`, or ask for the URL of the `origin` that is there;
/// find the branch; and push it.
pub open spec fn push_step(remote: Seq<char>, outputs: Seq<Seq<char>>) -> StepView {
    if outputs.len() == 0 {
        StepView::Run(seq!["remote"@])
    } else if outputs.len() == 1 {
        if has_word(outputs[0], "origin"@) {
            StepView::Run(seq!["remote"@, "get-url"@, "--push"@, "origin"@])
        } else {
            StepView::Run(seq!["remote"@, "add"@, "origin"@, remote])
        }
    } else if outputs.len() == 2 {
        StepView::Run(seq!["rev-parse"@, "--abbrev-ref"@, "HEAD"@])
    } else if outputs.len() == 3 {
        StepView::Run(
            seq![
                "push"@,
                "-u"@,
                push_target(remote, outputs[0], outputs[1]),
                trim(outputs[2], Edge::WhiteSpace),
            ],
        )
    } else {
        StepView::Done(true)
    }
}

/// Whether there are staged or unstaged changes to commit, by what `git status --porcelain`
/// printed.
pub fn has_changes(status: &str) -> (r: bool)
    ensures
        r == is_changed(status@),
{
    let bare: String = trimmed(status, Edge::WhiteSpace);
    !bare.as_str().is_empty()
}

/// Whether one of the remotes is `origin`, by what `git remote` printed.
pub fn has_origin(remotes: &str) -> (r: bool)
    ensures
        r == has_word(remotes@, "origin"@),
{
    proof {
        reveal_strlit("origin");
    }
    let chars: Vec<char> = chars_of(remotes);
    let word: Vec<char> = chars_of("origin");
    let mut i: usize = 0;
    while i < chars.len() && chars.len() - i >= 6
        invariant
            i <= chars@.len(),
            chars@ == remotes@,
            word@ == "origin"@,
            word@.len() == 6,
            forall|k: int| 0 <= k < i ==> !#[trigger] is_word_at(remotes@, "origin"@, k),
        decreases chars@.len() - i,
    {
        let front: bool = i == 0 || is_covered(Edge::WhiteSpace, chars[i - 1]);
        let back: bool = i + 6 == chars.len() || is_covered(Edge::WhiteSpace, chars[i + 6]);
        if front && back && same(&text_between(&chars, i, i + 6), "origin") {
            assert(is_word_at(remotes@, "origin"@, i as int));
            return true;
        }
        i += 1;
    }
    assert forall|k: int| !#[trigger] is_word_at(remotes@, "origin"@, k) by {}
    false
}

fn words2(a: &str, b: &str) -> (r: Vec<String>)
    ensures
        texts(r@) == seq![a@, b@],
{
    let mut out: Vec<String> = Vec::new();
    out.push(a.to_owned());
    out.push(b.to_owned());
    assert(texts(out@) =~= seq![a@, b@]);
    out
}

fn words3(a: &str, b: &str, c: &str) -> (r: Vec<String>)
    ensures
        texts(r@) == seq![a@, b@, c@],
{
    let mut out: Vec<String> = words2(a, b);
    let ghost before = texts(out@);
    out.push(c.to_owned());
    assert(texts(out@) =~= before.push(c@));
    assert(texts(out@) =~= seq![a@, b@, c@]);
    out
}

fn words4(a: &str, b: &str, c: &str, d: &str) -> (r: Vec<String>)
    ensures
        texts(r@) == seq![a@, b@, c@, d@],
{
    let mut out: Vec<String> = words3(a, b, c);
    let ghost before = texts(out@);
    out.push(d.to_owned());
    assert(texts(out@) =~= before.push(d@));
    assert(texts(out@) =~= seq![a@, b@, c@, d@]);
    out
}

fn words1(a: &str) -> (r: Vec<String>)
    ensures
        texts(r@) == seq![a@],
{
    let mut out: Vec<String> = Vec::new();
    out.push(a.to_owned());
    assert(texts(out@) =~= seq![a@]);
    out
}

/// Stages everything and commits, unless there is nothing to commit. `outputs` is what the commands
/// so far printed.
pub fn commit_all(message: &str, outputs: &Vec<String>) -> (r: GitStep)
    ensures
        r@ == commit_step(message@, texts(outputs@)),
{
    assert(texts(outputs@).len() == outputs@.len());
    if outputs.len() == 0 {
        GitStep::Run(words2("add", "-A"))
    } else if outputs.len() == 1 {
        GitStep::Run(words2("status", "--porcelain"))
    } else if !has_changes(&outputs[1]) {
        GitStep::Done(false)
    } else if outputs.len() == 2 {
        GitStep::Run(words3("commit", "-m", message))
    } else {
        GitStep::Done(true)
    }
}

/// Pushes the current branch to `remote`, adding it as `origin` if there is no such remote yet.
/// An `origin` that is there and leads elsewhere is left as it is. `outputs` is what the commands so
/// far printed.
pub fn push(remote: &str, outputs: &Vec<String>) -> (r: GitStep)
    ensures
        r@ == push_step(remote@, texts(outputs@)),
{
    assert(texts(outputs@).len() == outputs@.len());
    if outputs.len() == 0 {
        GitStep::Run(words1("remote"))
    } else if outputs.len() == 1 {
        if has_origin(&outputs[0]) {
            GitStep::Run(words4("remote", "get-url", "--push", "origin"))
        } else {
            GitStep::Run(words4("remote", "add", "origin", remote))
        }
    } else if outputs.len() == 2 {
        GitStep::Run(words3("rev-parse", "--abbrev-ref", "HEAD"))
    } else if outputs.len() == 3 {
        let branch: String = trimmed(&outputs[2], Edge::WhiteSpace);
        let url: String = trimmed(&outputs[1], Edge::WhiteSpace);
        if has_origin(&outputs[0]) && !same(&url, remote) {
            GitStep::Run(words4("push", "-u", remote, &branch))
        } else {
            GitStep::Run(words4("push", "-u", "origin", &branch))
        }
    } else {
        GitStep::Done(true)
    }
}

/// Initialises a git repository, if there is none yet.
pub fn ensure_repo(is_repo: bool, outputs: &Vec<String>) -> (r: GitStep)
    ensures
        r@ == if is_repo {
            StepView::Done(false)
        } else if outputs@.len() == 0 {
            StepView::Run(seq!["init"@])
        } else {
            StepView::Done(true)
        },
{
    if is_repo {
        GitStep::Done(false)
    } else if outputs.len() == 0 {
        GitStep::Run(words1("init"))
    } else {
        GitStep::Done(true)
    }
}

/// What is said of a command that failed.
pub fn git_failure(args: &Vec<String>, stderr: &str) -> (r: String)
    ensures
        r@ == "git "@ + joined(texts(args@), " "@) + " failed: "@ + trim(stderr@, Edge::WhiteSpace),
{
    cat4("git ", &join(args, " "), " failed: ", &trimmed(stderr, Edge::WhiteSpace))
}

// ---------------------------------------------------------------------------
// What the operations come to
// ---------------------------------------------------------------------------
/// An operation: what it does next, given what the commands so far printed.
pub type Steps = spec_fn(Seq<Seq<char>>) -> StepView;

/// Committing everything with a message.
pub open spec fn committing(message: Seq<char>) -> Steps {
    |outputs: Seq<Seq<char>>| commit_step(message, outputs)
}

/// Pushing the current branch to a remote.
pub open spec fn pushing(remote: Seq<char>) -> Steps {
    |outputs: Seq<Seq<char>>| push_step(remote, outputs)
}

/// A repository, as far as the operations go.
pub struct RepoView {
    /// Whether the files differ from the last commit.
    pub changed: bool,
    /// Whether all that differs is staged.
    pub staged: bool,
    /// The messages of the commits.
    pub commits: Seq<Seq<char>>,
    /// Where `origin` is pushed to, if there is an `origin`.
    pub origin: Option<Seq<char>>,
    /// The branch that is checked out.
    pub branch: Seq<char>,
    /// What was pushed: each branch with the URL that it was pushed to.
    pub pushed: Seq<(Seq<char>, Seq<char>)>,
}

impl RepoView {
    /// The URL that a push to `target` reaches: `origin` is a name, anything else is a URL.
    pub open spec fn destination(self, target: Seq<char>) -> Seq<char> {
        match self.origin {
            Some(url) => if target == "origin"@ {
                url
            } else {
                target
            },
            None => target,
        }
    }

    /// The repository behind a command that succeeded. A commit takes in what is staged.
    pub open spec fn ran(self, args: Seq<Seq<char>>) -> RepoView {
        if args == seq!["add"@, "-A"@] {
            RepoView { staged: true, ..self }
        } else if args.len() == 3 && args[0] == "commit"@ && args[1] == "-m"@ {
            RepoView {
                changed: self.changed && !self.staged,
                commits: self.commits.push(args[2]),
                ..self
            }
        } else if args.len() == 4 && args[0] == "remote"@ && args[1] == "add"@ && args[2]
            == "origin"@ {
            RepoView { origin: Some(args[3]), ..self }
        } else if args.len() == 4 && args[0] == "push"@ {
            RepoView { pushed: self.pushed.push((self.destination(args[2]), args[3])), ..self }
        } else {
            self
        }
    }

    /// Whether a command prints such a text here. The status is blank exactly where nothing
    /// changed.
    pub open spec fn prints(self, args: Seq<Seq<char>>, output: Seq<char>) -> bool {
        let text = trim(output, Edge::WhiteSpace);
        &&& args == seq!["status"@, "--porcelain"@] ==> self.changed == (text.len() > 0)
        &&& args == seq!["remote"@] ==> has_word(output, "origin"@) == (self.origin is Some)
        &&& args == seq!["remote"@, "get-url"@, "--push"@, "origin"@] ==> self.origin == Some(text)
        &&& args == seq!["rev-parse"@, "--abbrev-ref"@, "HEAD"@] ==> self.branch == text
    }

    /// The repository behind the commands of an operation, which printed `outputs`.
    pub open spec fn after(self, steps: Steps, outputs: Seq<Seq<char>>) -> RepoView
        decreases outputs.len(),
    {
        if outputs.len() == 0 {
            self
        } else {
            let before = outputs.drop_last();
            match steps(before) {
                StepView::Run(args) => self.after(steps, before).ran(args),
                StepView::Done(_) => self.after(steps, before),
            }
        }
    }

    /// Whether the commands of an operation print such texts here.
    pub open spec fn answers(self, steps: Steps, outputs: Seq<Seq<char>>) -> bool {
        forall|i: int|
            0 <= i < outputs.len() ==> match steps(outputs.take(i)) {
                StepView::Run(args) => self.after(steps, outputs.take(i)).prints(
                    args,
                    #[trigger] outputs[i],
                ),
                StepView::Done(_) => false,
            }
    }

    /// Whether an operation is done here, with such a result, once its commands printed `outputs`.
    pub open spec fn completes(self, steps: Steps, outputs: Seq<Seq<char>>, changed: bool) -> bool {
        self.answers(steps, outputs) && steps(outputs) == StepView::Done(changed)
    }
}

/// Everything is staged before it is looked at, and a commit is made exactly when there are
/// changes: nothing is committed from a clean tree, and one commit with the message is made else.
/// Either way nothing is left to commit.
pub proof fn law_commits_only_changes(
    repo: RepoView,
    message: Seq<char>,
    outputs: Seq<Seq<char>>,
    changed: bool,
)
    requires
        repo.completes(committing(message), outputs, changed),
    ensures
        ({
            let after = repo.after(committing(message), outputs);
            &&& changed == repo.changed
            &&& after == (RepoView {
                changed: false,
                staged: true,
                commits: if repo.changed {
                    repo.commits.push(message)
                } else {
                    repo.commits
                },
                ..repo
            })
        }),
{
    let steps = committing(message);
    reveal_with_fuel(RepoView::after, 4);
    reveal_strlit("add");
    reveal_strlit("status");
    reveal_strlit("commit");
    assert("add"@.len() == 3 && "status"@.len() == 6 && "commit"@.len() == 6);
    let adding = seq!["add"@, "-A"@];
    let asking = seq!["status"@, "--porcelain"@];
    let last = seq!["commit"@, "-m"@, message];
    assert(asking[0] != adding[0]);
    assert(outputs.len() >= 2);
    let o0 = outputs.take(0);
    let o1 = outputs.take(1);
    let o2 = outputs.take(2);
    assert(o1.drop_last() =~= o0);
    assert(o2.drop_last() =~= o1);
    let r1 = repo.ran(adding);
    assert(repo.after(steps, o1) == r1);
    assert(r1.prints(asking, outputs[1]));
    assert(repo.after(steps, o2) == r1.ran(asking));
    assert(r1.ran(asking) == r1);
    if outputs.len() == 2 {
        assert(outputs =~= o2);
    } else {
        let o3 = outputs.take(3);
        assert(o3.drop_last() =~= o2);
        assert(repo.after(steps, o2).prints(last, outputs[2]));
        assert(o3[1] == outputs[1]);
        if outputs.len() > 3 {
            assert(steps(o3) is Done);
            assert(!repo.answers(steps, outputs)) by {
                assert(outputs[3] == outputs[3]);
            }
        }
        assert(outputs =~= o3);
        assert(repo.after(steps, o3) == r1.ran(last));
    }
}

/// A second commit straight after the first finds nothing: whether the first one found changes or
/// not, the second is done without a change, and makes no commit.
pub proof fn law_a_second_commit_finds_nothing(
    repo: RepoView,
    first: Seq<char>,
    outputs: Seq<Seq<char>>,
    changed: bool,
    second: Seq<char>,
    again: Seq<Seq<char>>,
    changed_again: bool,
)
    requires
        repo.completes(committing(first), outputs, changed),
        repo.after(committing(first), outputs).completes(
            committing(second),
            again,
            changed_again,
        ),
    ensures
        !changed_again,
        repo.after(committing(first), outputs).after(committing(second), again) == repo.after(
            committing(first),
            outputs,
        ),
{
    law_commits_only_changes(repo, first, outputs, changed);
    law_commits_only_changes(
        repo.after(committing(first), outputs),
        second,
        again,
        changed_again,
    );
}

/// Pushing is done after four commands, and the last of them pushes.
pub proof fn law_pushing_ends(remote: Seq<char>, outputs: Seq<Seq<char>>)
    ensures
        outputs.len() >= 4 <==> push_step(remote, outputs) == StepView::Done(true),
        outputs.len() == 3 <==> (push_step(remote, outputs) matches StepView::Run(args) && args[0]
            == "push"@),
{
    reveal_strlit("push");
    reveal_strlit("remote");
    reveal_strlit("rev-parse");
    assert("push"@.len() == 4 && "remote"@.len() == 6 && "rev-parse"@.len() == 9);
}

/// The branch that is checked out ends up at `remote`, whatever remotes there were: it is pushed
/// once, and to that URL. (`origin` is no URL but a name, and leads where the repository has it
/// lead.)
pub proof fn law_branches_end_up_at_the_remote(
    repo: RepoView,
    remote: Seq<char>,
    outputs: Seq<Seq<char>>,
    changed: bool,
)
    requires
        repo.completes(pushing(remote), outputs, changed),
    ensures
        changed,
        repo.after(pushing(remote), outputs).pushed == repo.pushed.push(
            (repo.destination(remote), repo.branch),
        ),
        remote != "origin"@ ==> repo.destination(remote) == remote,
{
    let steps = pushing(remote);
    reveal_with_fuel(RepoView::after, 5);
    reveal_strlit("push");
    reveal_strlit("remote");
    reveal_strlit("add");
    reveal_strlit("get-url");
    let o0 = outputs.take(0);
    let o1 = outputs.take(1);
    let o2 = outputs.take(2);
    let o3 = outputs.take(3);
    let o4 = outputs.take(4);
    assert(outputs.len() >= 4);
    if outputs.len() > 4 {
        assert(steps(o4) is Done);
        assert(!repo.answers(steps, outputs)) by {
            assert(outputs[4] == outputs[4]);
        }
    }
    assert(outputs =~= o4);
    assert(o4.drop_last() =~= o3);
    assert(o3.drop_last() =~= o2);
    assert(o2.drop_last() =~= o1);
    assert(o1.drop_last() =~= o0);
    let first = seq!["remote"@];
    let asking = seq!["remote"@, "get-url"@, "--push"@, "origin"@];
    let adding = seq!["remote"@, "add"@, "origin"@, remote];
    let finding = seq!["rev-parse"@, "--abbrev-ref"@, "HEAD"@];
    let staging = seq!["add"@, "-A"@];
    reveal_strlit("rev-parse");
    reveal_strlit("commit");
    assert("push"@.len() == 4 && "remote"@.len() == 6 && "add"@.len() == 3);
    assert("get-url"@.len() == 7 && "rev-parse"@.len() == 9 && "commit"@.len() == 6);
    assert(asking[1] != "add"@ && asking[0] != "push"@ && adding[0] != "push"@);
    assert(finding[0] != "commit"@);
    assert(first.len() != staging.len() && finding.len() != staging.len());
    assert(asking.len() != staging.len() && adding.len() != staging.len());
    assert(repo.prints(first, outputs[0]));
    assert(repo.ran(first) == repo);
    let second = if has_word(outputs[0], "origin"@) {
        asking
    } else {
        adding
    };
    assert(steps(o1) == StepView::Run(second));
    assert(repo.prints(second, outputs[1]));
    let r2 = repo.ran(second);
    assert(steps(o2) == StepView::Run(finding));
    assert(r2.prints(finding, outputs[2]));
    let r3 = r2.ran(finding);
    assert(repo.after(steps, o3) == r3);
    let target = push_target(remote, outputs[0], outputs[1]);
    let last = seq!["push"@, "-u"@, target, trim(outputs[2], Edge::WhiteSpace)];
    assert(last.len() != staging.len());
    assert(steps(o3) == StepView::Run(last));
    assert(repo.after(steps, o4) == r3.ran(last));
}

/// Whether a text is one word: not empty, and without white space.
pub open spec fn is_one_word(s: Seq<char>) -> bool {
    s.len() > 0 && forall|i: int| 0 <= i < s.len() ==> !is_white_space(#[trigger] s[i])
}

proof fn lemma_word_in_word(name: Seq<char>, word: Seq<char>)
    requires
        is_one_word(name),
        is_one_word(word),
    ensures
        has_word(name, word) <==> name == word,
{
    if has_word(name, word) {
        let i = choose|i: int| #[trigger] is_word_at(name, word, i);
        if i > 0 {
            assert(is_white_space(name[i - 1]));
        }
        if i + word.len() < name.len() {
            assert(is_white_space(name[i + word.len() as int]));
        }
        assert(name.subrange(i, i + word.len()) =~= name);
    }
    if name == word {
        assert(name.subrange(0, name.len() as int) =~= name);
        assert(is_word_at(name, word, 0));
    }
}

proof fn lemma_word_in_lines(front: Seq<char>, name: Seq<char>, word: Seq<char>)
    requires
        is_one_word(name),
        is_one_word(word),
    ensures
        has_word(front + seq!['\n'] + name, word) <==> has_word(front, word) || name == word,
{
    let all = front + seq!['\n'] + name;
    let n = front.len() as int;
    if has_word(all, word) {
        let i = choose|i: int| #[trigger] is_word_at(all, word, i);
        let end = i + word.len();
        assert(all.subrange(i, end) == word);
        if end <= n {
            assert(front.subrange(i, end) =~= word);
            if i > 0 {
                assert(all[i - 1] == front[i - 1]);
            }
            if end < n {
                assert(all[end] == front[end]);
            }
            assert(is_word_at(front, word, i));
        } else if i <= n {
            assert(word[n - i] == all[n]);
            assert(is_white_space('\n'));
            assert(!is_white_space(word[n - i]));
        } else {
            let k = i - n - 1;
            if k > 0 {
                assert(all[i - 1] == name[k - 1]);
            }
            if end < all.len() {
                assert(all[end] == name[end - n - 1]);
            }
            assert(name =~= all.subrange(i, end));
        }
    }
    if has_word(front, word) {
        let i = choose|i: int| #[trigger] is_word_at(front, word, i);
        assert(all.subrange(i, i + word.len()) =~= front.subrange(i, i + word.len()));
        assert(is_white_space('\n'));
        assert(is_word_at(all, word, i));
    }
    if name == word {
        assert(all.subrange(n + 1, n + 1 + word.len()) =~= name);
        assert(is_white_space('\n'));
        assert(is_word_at(all, word, n + 1));
    }
}

/// A remote is known exactly where its name is one of the lines that list the remotes, whatever other
/// names hold it.
pub proof fn law_remotes_are_known_by_their_whole_name(names: Seq<Seq<char>>, word: Seq<char>)
    requires
        forall|i: int| 0 <= i < names.len() ==> is_one_word(#[trigger] names[i]),
        is_one_word(word),
    ensures
        has_word(joined(names, "\n"@), word) <==> names.contains(word),
        has_word(joined(names, "\n"@) + "\n"@, word) <==> names.contains(word),
    decreases names.len(),
{
    reveal_strlit("\n");
    assert("\n"@ =~= seq!['\n']);
    let text = joined(names, "\n"@);
    if names.len() == 0 {
        assert forall|i: int| !#[trigger] is_word_at(text, word, i) by {}
    } else {
        let front = names.drop_last();
        let name = names.last();
        assert(is_one_word(names[names.len() - 1]));
        assert forall|i: int| 0 <= i < front.len() implies is_one_word(#[trigger] front[i]) by {
            assert(front[i] == names[i]);
        }
        law_remotes_are_known_by_their_whole_name(front, word);
        assert(names.contains(word) <==> front.contains(word) || name == word) by {
            if front.contains(word) {
                let k = choose|k: int| 0 <= k < front.len() && front[k] == word;
                assert(names[k] == word);
            }
            if name == word {
                assert(names[names.len() - 1] == word);
            }
            if names.contains(word) && name != word {
                let k = choose|k: int| 0 <= k < names.len() && names[k] == word;
                assert(front[k] == word);
            }
        }
        if names.len() == 1 {
            lemma_word_in_word(name, word);
            assert(!front.contains(word));
        } else {
            lemma_word_in_lines(joined(front, "\n"@), name, word);
        }
    }
    lemma_trailing_break(text, word);
}

proof fn lemma_trailing_break(text: Seq<char>, word: Seq<char>)
    requires
        is_one_word(word),
    ensures
        has_word(text + seq!['\n'], word) <==> has_word(text, word),
{
    let all = text + seq!['\n'];
    let n = text.len() as int;
    assert(is_white_space('\n'));
    if has_word(all, word) {
        let i = choose|i: int| #[trigger] is_word_at(all, word, i);
        let end = i + word.len();
        assert(all.subrange(i, end) == word);
        if end > n {
            assert(word[n - i] == all[n]);
            assert(!is_white_space(word[n - i]));
        }
        assert(text.subrange(i, end) =~= word);
        if i > 0 {
            assert(all[i - 1] == text[i - 1]);
        }
        if end < n {
            assert(all[end] == text[end]);
        }
        assert(is_word_at(text, word, i));
    }
    if has_word(text, word) {
        let i = choose|i: int| #[trigger] is_word_at(text, word, i);
        assert(all.subrange(i, i + word.len()) =~= text.subrange(i, i + word.len()));
        assert(is_word_at(all, word, i));
    }
}

/// There is something to commit exactly where the status holds anything but white space.
pub proof fn law_blank_status_is_no_change(status: Seq<char>)
    ensures
        is_changed(status) <==> exists|i: int|
            0 <= i < status.len() && !is_white_space(#[trigger] status[i]),
{
    if exists|i: int| 0 <= i < status.len() && !is_white_space(#[trigger] status[i]) {
        let i = choose|i: int| 0 <= i < status.len() && !is_white_space(#[trigger] status[i]);
        lemma_trim_keeps(status, i);
    } else {
        let r = lemma_trim_range(status, Edge::WhiteSpace);
        if r.0 < r.1 {
            assert(is_white_space(status[r.0]));
        }
    }
}

proof fn lemma_trim_keeps(s: Seq<char>, i: int)
    requires
        0 <= i < s.len(),
        !is_white_space(s[i]),
    ensures
        trim(s, Edge::WhiteSpace).len() > 0,
    decreases s.len(),
{
    if is_white_space(s[0]) {
        assert(s.skip(1)[i - 1] == s[i]);
        lemma_trim_keeps(s.skip(1), i - 1);
    } else {
        lemma_trim_back_keeps(s);
    }
}

proof fn lemma_trim_back_keeps(s: Seq<char>)
    requires
        s.len() > 0,
        !is_white_space(s[0]),
    ensures
        trim_back(s, Edge::WhiteSpace).len() > 0,
    decreases s.len(),
{
    if is_white_space(s.last()) {
        assert(s.len() > 1);
        assert(s.drop_last()[0] == s[0]);
        lemma_trim_back_keeps(s.drop_last());
    }
}

/// A push is a plain one: it sets the upstream of the branch that is checked out, forces nothing, and
/// goes to `origin` or to the remote itself; and nothing but these commands is run for it.
pub proof fn law_pushes_force_nothing(remote: Seq<char>, outputs: Seq<Seq<char>>)
    ensures
        outputs.len() == 0 ==> push_step(remote, outputs) == StepView::Run(seq!["remote"@]),
        outputs.len() == 1 ==> (push_step(remote, outputs) == StepView::Run(
            seq!["remote"@, "get-url"@, "--push"@, "origin"@],
        ) || push_step(remote, outputs) == StepView::Run(
            seq!["remote"@, "add"@, "origin"@, remote],
        )),
        outputs.len() == 2 ==> push_step(remote, outputs) == StepView::Run(
            seq!["rev-parse"@, "--abbrev-ref"@, "HEAD"@],
        ),
        outputs.len() == 3 ==> (push_step(remote, outputs) matches StepView::Run(args)
            && args.len() == 4 && args[0] == "push"@ && args[1] == "-u"@ && (args[2] == "origin"@
            || args[2] == remote) && args[3] == trim(outputs[2], Edge::WhiteSpace)),
{
}

} // verus!
