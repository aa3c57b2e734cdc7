//! Runtime configuration, resolved from the environment.
//!
//! The values of the environment are handed in as they are; paths are the texts that Unix takes for
//! paths.

use vstd::prelude::*;
use vstd::string::*;

use crate::text_laws::{is_edge, law_trimming_leaves_the_middle};
use crate::text::{
    cat2, cat3, chars_of, in_lower_case, is_absolute, is_plain, is_white_space, lemma_trim_range,
    lower, lower_case, same, string_of, text_between, text_of, trim, trimmed, Edge,
};

verus! {

/// Notion API version that introduces the split of a database into data sources.
pub const DEFAULT_API_VERSION: &'static str = "2025-09-03";

/// Where the backup goes if nothing else is said.
pub const DEFAULT_BACKUP_DIR: &'static str = "backup";

/// What is said where the token is missing.
pub const TOKEN_MISSING: &'static str = "NOTION_TOKEN is not set. Create an internal integration at https://www.notion.so/my-integrations, share your pages with it, and put the token in your .env file.";

/// Raised when required configuration is missing or invalid.
#[derive(Debug)]
pub struct ConfigError(pub String);

impl ConfigError {
    /// The error in words.
    pub fn message(&self) -> (r: String)
        ensures
            r@ == self.0@,
    {
        self.0.clone()
    }
}

/// What the environment holds: each variable as it is set, if it is, and the working directory, if
/// it is known.
pub struct Environment {
    pub notion_token: Option<String>,
    pub backup_dir: Option<String>,
    pub git_remote: Option<String>,
    pub notion_api_version: Option<String>,
    pub render_markdown: Option<String>,
    pub full_sync: Option<String>,
    pub home: Option<String>,
    pub current_dir: Option<String>,
}

/// Resolved configuration for a backup run.
#[derive(Debug, Clone)]
pub struct Config {
    pub notion_token: String,
    pub backup_dir: String,
    pub git_remote: Option<String>,
    pub api_version: String,
    pub render_markdown: bool,
    pub full_sync: bool,
}

/// What a configuration says.
pub struct ConfigView {
    pub notion_token: Seq<char>,
    pub backup_dir: Seq<char>,
    pub git_remote: Option<Seq<char>>,
    pub api_version: Seq<char>,
    pub render_markdown: bool,
    pub full_sync: bool,
}

impl View for Config {
    type V = ConfigView;

    open spec fn view(&self) -> ConfigView {
        ConfigView {
            notion_token: self.notion_token@,
            backup_dir: self.backup_dir@,
            git_remote: string_of(self.git_remote),
            api_version: self.api_version@,
            render_markdown: self.render_markdown,
            full_sync: self.full_sync,
        }
    }
}

/// The value of a variable without white space around it; nothing where none is left.
pub open spec fn set_to(raw: Option<String>) -> Option<Seq<char>> {
    match raw {
        Some(v) => if trim(v@, Edge::WhiteSpace).len() == 0 {
            None
        } else {
            Some(trim(v@, Edge::WhiteSpace))
        },
        None => None,
    }
}

/// Whether a word switches on: `1`, `true`, `yes` or `on`, in whatever case.
pub open spec fn is_on(word: Seq<char>) -> bool {
    let low = in_lower_case(word);
    low == "1"@ || low == "true"@ || low == "yes"@ || low == "on"@
}

/// Whether a variable is switched on.
pub open spec fn is_truthy(raw: Option<String>) -> bool {
    match raw {
        Some(v) => is_on(trim(v@, Edge::WhiteSpace)),
        None => false,
    }
}

/// A path below another one; an absolute path replaces it.
pub open spec fn below(dir: Seq<char>, path: Seq<char>) -> Seq<char> {
    if is_absolute(path) {
        path
    } else if dir.len() == 0 || dir.last() == '/' {
        dir + path
    } else {
        dir + "/"@ + path
    }
}

/// A path with the home directory in place of a leading `~`, where the home directory is known.
pub open spec fn expanded(value: Seq<char>, home: Option<Seq<char>>) -> Seq<char> {
    match home {
        Some(h) => if value.len() >= 2 && value[0] == '~' && value[1] == '/' {
            below(h, value.skip(2))
        } else if value == "~"@ {
            h
        } else {
            value
        },
        None => value,
    }
}

/// An absolute path, seen from the working directory, where that is known.
pub open spec fn resolved(
    value: Seq<char>,
    home: Option<Seq<char>>,
    current: Option<Seq<char>>,
) -> Seq<char> {
    let path = expanded(value, home);
    match current {
        Some(cwd) => below(cwd, path),
        None => path,
    }
}

/// The first of the two that is there, else the fallback.
pub open spec fn first_of(
    a: Option<Seq<char>>,
    b: Option<Seq<char>>,
    fallback: Seq<char>,
) -> Seq<char> {
    match a {
        Some(v) => v,
        None => match b {
            Some(v) => v,
            None => fallback,
        },
    }
}

/// The configuration that an environment comes to.
pub open spec fn configured(env: Environment, backup_dir: Option<Seq<char>>) -> ConfigView {
    ConfigView {
        notion_token: first_of(set_to(env.notion_token), None, Seq::empty()),
        backup_dir: resolved(
            first_of(backup_dir, set_to(env.backup_dir), DEFAULT_BACKUP_DIR@),
            string_of(env.home),
            string_of(env.current_dir),
        ),
        git_remote: set_to(env.git_remote),
        api_version: first_of(set_to(env.notion_api_version), None, DEFAULT_API_VERSION@),
        render_markdown: is_truthy(env.render_markdown),
        full_sync: is_truthy(env.full_sync),
    }
}

/// The value of a variable, trimmed; nothing where it is unset or blank.
fn env_str(raw: &Option<String>) -> (r: Option<String>)
    ensures
        string_of(r) == set_to(*raw),
{
    match raw {
        Some(v) => {
            let bare: String = trimmed(v, Edge::WhiteSpace);
            if bare.as_str().is_empty() {
                None
            } else {
                Some(bare)
            }
        },
        None => None,
    }
}

fn env_truthy(raw: &Option<String>) -> (r: bool)
    ensures
        r == is_truthy(*raw),
{
    match raw {
        Some(v) => {
            let word: String = lower_case(&trimmed(v, Edge::WhiteSpace));
            same(&word, "1") || same(&word, "true") || same(&word, "yes") || same(&word, "on")
        },
        None => false,
    }
}

/// A path below another one.
pub fn join_path(dir: &str, path: &str) -> (r: String)
    ensures
        r@ == below(dir@, path@),
{
    let tail: Vec<char> = chars_of(path);
    if tail.len() > 0 && tail[0] == '/' {
        return path.to_owned();
    }
    let head: Vec<char> = chars_of(dir);
    if head.len() == 0 || head[head.len() - 1] == '/' {
        cat2(dir, path)
    } else {
        cat3(dir, "/", path)
    }
}

/// Expands a leading `~`.
pub fn expand_tilde(value: &str, home: Option<&str>) -> (r: String)
    ensures
        r@ == expanded(value@, text_of(home)),
{
    let home: &str = match home {
        Some(h) => h,
        None => {
            return value.to_owned();
        },
    };
    let chars: Vec<char> = chars_of(value);
    if chars.len() >= 2 && chars[0] == '~' && chars[1] == '/' {
        assert(value@.skip(2) =~= chars@.subrange(2, chars@.len() as int));
        return join_path(home, &text_between(&chars, 2, chars.len()));
    }
    if same(value, "~") {
        return home.to_owned();
    }
    value.to_owned()
}

/// Expands a leading `~` and makes the path absolute, seen from the working directory.
pub fn resolve_dir(value: &str, home: Option<&str>, current: Option<&str>) -> (r: String)
    ensures
        r@ == resolved(value@, text_of(home), text_of(current)),
{
    let path: String = expand_tilde(value, home);
    match current {
        Some(cwd) => join_path(cwd, &path),
        None => path,
    }
}

fn borrowed(value: &Option<String>) -> (r: Option<&str>)
    ensures
        text_of(r) == string_of(*value),
{
    match value {
        Some(v) => Some(v.as_str()),
        None => None,
    }
}

impl Config {
    /// Directory holding the raw JSON tree (always written).
    pub fn json_dir(&self) -> (r: String)
        ensures
            r@ == below(self.backup_dir@, "json"@),
    {
        join_path(&self.backup_dir, "json")
    }

    /// Directory holding the rendered Markdown/CSV tree (optional).
    pub fn markdown_dir(&self) -> (r: String)
        ensures
            r@ == below(self.backup_dir@, "markdown"@),
    {
        join_path(&self.backup_dir, "markdown")
    }

    /// Builds a configuration from an environment.
    ///
    /// `backup_dir_override` takes precedence over the variable. `require_token` can be disabled
    /// for the offline render-only path.
    pub fn from_env(
        env: &Environment,
        backup_dir_override: Option<&str>,
        require_token: bool,
    ) -> (r: Result<Config, ConfigError>)
        ensures
            match r {
                Ok(config) => config@ == configured(*env, text_of(backup_dir_override)) && !(
                require_token && config@.notion_token.len() == 0),
                Err(e) => require_token && set_to(env.notion_token) is None && e.0@
                    == TOKEN_MISSING@,
            },
    {
        let token: String = match env_str(&env.notion_token) {
            Some(t) => t,
            None => String::new(),
        };
        if require_token && token.as_str().is_empty() {
            return Err(ConfigError(TOKEN_MISSING.to_owned()));
        }
        let backup_dir: String = match backup_dir_override {
            Some(dir) => dir.to_owned(),
            None => match env_str(&env.backup_dir) {
                Some(dir) => dir,
                None => DEFAULT_BACKUP_DIR.to_owned(),
            },
        };
        let api_version: String = match env_str(&env.notion_api_version) {
            Some(version) => version,
            None => DEFAULT_API_VERSION.to_owned(),
        };
        Ok(
            Config {
                notion_token: token,
                backup_dir: resolve_dir(
                    &backup_dir,
                    borrowed(&env.home),
                    borrowed(&env.current_dir),
                ),
                git_remote: env_str(&env.git_remote),
                api_version,
                render_markdown: env_truthy(&env.render_markdown),
                full_sync: env_truthy(&env.full_sync),
            },
        )
    }
}

/// The configuration never depends on blanks around a value: an unset variable and a blank one come
/// to the same.
pub proof fn law_blank_is_unset(raw: String)
    requires
        forall|i: int|
            0 <= i < raw@.len() ==> is_white_space(#[trigger] raw@[i]),
    ensures
        set_to(Some(raw)) == set_to(None),
{
    let r = lemma_trim_range(raw@, Edge::WhiteSpace);
    if r.0 < r.1 {
        assert(is_white_space(raw@[r.0]));
    }
}

/// Switches do not depend on case: ASCII words that are the same in lower case switch alike, and a
/// word switches on exactly where it is `1`, `true`, `yes` or `on` in lower case.
pub proof fn law_switches_ignore_case(a: Seq<char>, b: Seq<char>)
    requires
        is_plain(a),
        is_plain(b),
        a.map_values(|c: char| lower(c)) == b.map_values(|c: char| lower(c)),
    ensures
        is_on(a) == is_on(b),
        is_on(a) <==> ({
            let low = a.map_values(|c: char| lower(c));
            low == "1"@ || low == "true"@ || low == "yes"@ || low == "on"@
        }),
{
}

/// Both trees stand below the backup directory, each in a directory of its own.
pub proof fn law_trees_are_apart(backup_dir: Seq<char>)
    ensures
        below(backup_dir, "json"@) != below(backup_dir, "markdown"@),
        backup_dir.is_prefix_of(below(backup_dir, "json"@)),
        backup_dir.is_prefix_of(below(backup_dir, "markdown"@)),
{
    reveal_strlit("json");
    reveal_strlit("markdown");
    reveal_strlit("/");
    assert(below(backup_dir, "json"@).len() != below(backup_dir, "markdown"@).len());
    assert(backup_dir =~= below(backup_dir, "json"@).take(backup_dir.len() as int));
    assert(backup_dir =~= below(backup_dir, "markdown"@).take(backup_dir.len() as int));
}

/// A variable is taken without the white space around it.
pub proof fn law_settings_are_trimmed(raw: String, front: Seq<char>, value: Seq<char>, back: Seq<char>)
    requires
        raw@ == front + value + back,
        forall|i: int| 0 <= i < front.len() ==> is_edge(Edge::WhiteSpace, #[trigger] front[i]),
        forall|i: int| 0 <= i < back.len() ==> is_edge(Edge::WhiteSpace, #[trigger] back[i]),
        value.len() > 0,
        !is_edge(Edge::WhiteSpace, value[0]),
        !is_edge(Edge::WhiteSpace, value.last()),
    ensures
        set_to(Some(raw)) == Some(value),
        is_truthy(Some(raw)) == is_on(value),
{
    law_trimming_leaves_the_middle(front, value, back, Edge::WhiteSpace);
}

/// Every setting comes from its own variable. What is not set has its default: no token, no remote,
/// the current version of the API, the directory `backup`, and nothing switched on. A directory that
/// is given on the command line counts before all others, as it is.
pub proof fn law_settings_have_defaults(env: Environment, given: Seq<char>)
    ensures
        ({
            let c = configured(env, None);
            let home = string_of(env.home);
            let cwd = string_of(env.current_dir);
            &&& set_to(env.notion_token) is None ==> c.notion_token.len() == 0
            &&& set_to(env.notion_token) matches Some(v) ==> c.notion_token == v
            &&& set_to(env.backup_dir) is None ==> c.backup_dir == resolved("backup"@, home, cwd)
            &&& set_to(env.backup_dir) matches Some(v) ==> c.backup_dir == resolved(v, home, cwd)
            &&& configured(env, Some(given)).backup_dir == resolved(given, home, cwd)
            &&& c.git_remote == set_to(env.git_remote)
            &&& set_to(env.notion_api_version) is None ==> c.api_version == "2025-09-03"@
            &&& set_to(env.notion_api_version) matches Some(v) ==> c.api_version == v
            &&& env.render_markdown is None ==> !c.render_markdown
            &&& env.render_markdown is Some ==> c.render_markdown == is_truthy(env.render_markdown)
            &&& env.full_sync is None ==> !c.full_sync
            &&& env.full_sync is Some ==> c.full_sync == is_truthy(env.full_sync)
        }),
{
}

/// A path with a slash in front stays as it is. Any other is seen from the working directory, or with
/// `~/` in front from the home directory; `~` alone is the home directory. Between the two stands one
/// slash. What is not known is left out.
pub proof fn law_paths_are_seen_from_home_or_here(
    home: Seq<char>,
    cwd: Seq<char>,
    path: Seq<char>,
)
    requires
        home.len() > 0,
        home[0] == '/',
        home.last() != '/',
        cwd.len() > 0,
        cwd.last() != '/',
        path.len() > 0,
    ensures
        path[0] == '/' ==> resolved(path, Some(home), Some(cwd)) == path,
        path[0] != '/' && path[0] != '~' ==> resolved(path, Some(home), Some(cwd)) == cwd + "/"@
            + path,
        path[0] != '/' ==> resolved("~/"@ + path, Some(home), Some(cwd)) == home + "/"@ + path,
        resolved("~"@, Some(home), Some(cwd)) == home,
        path[0] != '/' ==> resolved("~/"@ + path, None, Some(cwd)) == cwd + "/"@ + "~/"@ + path,
        resolved(path, None, None) == path,
{
    reveal_strlit("~");
    reveal_strlit("~/");
    reveal_strlit("/");
    let from = "~/"@ + path;
    assert(from.skip(2) =~= path);
    assert(from.len() >= 3);
    assert(from != "~"@);
    assert(cwd + "/"@ + from =~= cwd + "/"@ + "~/"@ + path);
    assert((home + "/"@ + path)[0] == '/');
}

} // verus!
