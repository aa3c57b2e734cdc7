//! The Notion REST API as the backup uses it: what is asked, how a status is taken, and how the
//! pages of a paginated endpoint are put together.
//!
//! Speaks the 2025-09-03 API, where a database contains one or more *data sources*. The transport
//! is left to the caller.

use vstd::prelude::*;
use vstd::string::*;

use crate::json::{lemma_put_lookup, put, views, Fields, Json, JsonView};
use crate::text::{
    cat2, cat3, cat4, chars_of, decimal, or_empty, to_decimal, trim_back, trimmed_back, Edge,
};

verus! {

/// Where the API is served.
pub const API_BASE: &'static str = "https://api.notion.com/v1";

/// How often a request is sent before it is given up.
pub const MAX_RETRIES: u32 = 5;

/// The longest pause after a server error, in seconds.
pub const MAX_BACKOFF: u64 = 30;

// ---------------------------------------------------------------------------
// Errors
// ---------------------------------------------------------------------------
/// Error surfaced by API calls. `Http` carries a status code by which the caller may decide to skip
/// the object; `Other` is fatal.
#[derive(Debug)]
pub enum ClientError {
    Http(u16),
    Other(String),
}

/// What an error says.
pub enum ErrorView {
    Http(u16),
    Other(Seq<char>),
}

impl View for ClientError {
    type V = ErrorView;

    open spec fn view(&self) -> ErrorView {
        match *self {
            ClientError::Http(code) => ErrorView::Http(code),
            ClientError::Other(text) => ErrorView::Other(text@),
        }
    }
}

impl ClientError {
    /// HTTP status code, when this is an HTTP error.
    pub fn status(&self) -> (r: Option<u16>)
        ensures
            r == match self@ {
                ErrorView::Http(code) => Some(code),
                ErrorView::Other(_) => None,
            },
    {
        match self {
            ClientError::Http(code) => Some(*code),
            ClientError::Other(_) => None,
        }
    }

    /// The error in words.
    pub fn message(&self) -> (r: String)
        ensures
            r@ == match self@ {
                ErrorView::Http(code) => "HTTP "@ + decimal(code as nat),
                ErrorView::Other(text) => text,
            },
    {
        match self {
            ClientError::Http(code) => cat2("HTTP ", &to_decimal(*code as usize)),
            ClientError::Other(text) => text.clone(),
        }
    }
}

/// The Notion endpoints the backup needs. Abstracted as a trait so the dumper can be exercised
/// against an in-memory fake.
pub trait Api {
    fn search(&self) -> Result<Vec<Json>, ClientError>;

    fn get_block_children(&self, block_id: &str) -> Result<Vec<Json>, ClientError>;

    fn get_database(&self, database_id: &str) -> Result<Json, ClientError>;

    fn query_data_source(&self, data_source_id: &str) -> Result<Vec<Json>, ClientError>;

    fn get_page(&self, page_id: &str) -> Result<Json, ClientError>;
}

// ---------------------------------------------------------------------------
// Requests
// ---------------------------------------------------------------------------
/// What a response with a given status calls for.
#[derive(Clone, Copy, PartialEq, Eq, Structural, Debug)]
pub enum Verdict {
    /// Too many requests: wait as long as the response asks, then send again.
    RateLimited,
    /// The server failed: wait so many seconds, then send again.
    Backoff(u64),
    /// The request is refused with this status.
    Refused(u16),
    /// The body holds the answer.
    Accepted,
}

/// Two to the power of `n`.
pub open spec fn doubled(n: nat) -> nat
    decreases n,
{
    if n == 0 {
        1
    } else {
        2 * doubled((n - 1) as nat)
    }
}

/// The pause after the given attempt met a server error: doubled each time, up to a limit.
pub open spec fn backoff(attempt: nat) -> nat {
    if doubled(attempt) < MAX_BACKOFF {
        doubled(attempt)
    } else {
        MAX_BACKOFF as nat
    }
}

/// How a status is taken.
pub open spec fn verdict(attempt: nat, status: u16) -> Verdict {
    if status == 429 {
        Verdict::RateLimited
    } else if status >= 500 {
        Verdict::Backoff(backoff(attempt) as u64)
    } else if status >= 400 {
        Verdict::Refused(status)
    } else {
        Verdict::Accepted
    }
}

proof fn lemma_doubled_grows(n: nat)
    ensures
        n >= 5 ==> doubled(n) >= 32,
        doubled(n) >= 1,
    decreases n,
{
    if n >= 1 {
        lemma_doubled_grows((n - 1) as nat);
    }
    if n == 5 {
        reveal_with_fuel(doubled, 7);
    }
}

/// Judges the response to an attempt by its status.
pub fn judge(attempt: u32, status: u16) -> (r: Verdict)
    ensures
        r == verdict(attempt as nat, status),
{
    if status == 429 {
        Verdict::RateLimited
    } else if status >= 500 {
        proof {
            lemma_doubled_grows(attempt as nat);
            reveal_with_fuel(doubled, 6);
        }
        let pause: u64 = if attempt == 0 {
            1
        } else if attempt == 1 {
            2
        } else if attempt == 2 {
            4
        } else if attempt == 3 {
            8
        } else if attempt == 4 {
            16
        } else {
            MAX_BACKOFF
        };
        Verdict::Backoff(pause)
    } else if status >= 400 {
        Verdict::Refused(status)
    } else {
        Verdict::Accepted
    }
}

/// How long to wait before a request is sent again or given up.
#[derive(Clone, Copy, PartialEq, Eq, Structural, Debug)]
pub enum Pause {
    /// As long as the response asks.
    Asked,
    /// So many seconds.
    Seconds(u64),
}

/// What is to be done after the response to an attempt.
#[derive(Debug)]
pub enum RetryStep {
    /// Wait, then send the request again, as the given attempt.
    Again(Pause, u32),
    /// Wait, then fail: the request was sent as often as it may be.
    GiveUp(Pause, ClientError),
    /// Fail: the request is refused.
    Refuse(ClientError),
    /// Read the answer from the body.
    Accept,
}

/// What a step says.
pub enum RetryView {
    Again(Pause, nat),
    GiveUp(Pause, ErrorView),
    Refuse(ErrorView),
    Accept,
}

impl View for RetryStep {
    type V = RetryView;

    open spec fn view(&self) -> RetryView {
        match *self {
            RetryStep::Again(pause, attempt) => RetryView::Again(pause, attempt as nat),
            RetryStep::GiveUp(pause, error) => RetryView::GiveUp(pause, error@),
            RetryStep::Refuse(error) => RetryView::Refuse(error@),
            RetryStep::Accept => RetryView::Accept,
        }
    }
}

/// The error of a request that was sent as often as it may be.
pub open spec fn exhaustion(method: Seq<char>, path: Seq<char>) -> ErrorView {
    ErrorView::Other("Exhausted retries for "@ + method + " "@ + path)
}

/// The step behind a pause: the next attempt, if one is left.
pub open spec fn paused(
    pause: Pause,
    attempt: nat,
    method: Seq<char>,
    path: Seq<char>,
) -> RetryView {
    if attempt < MAX_RETRIES {
        RetryView::Again(pause, attempt + 1)
    } else {
        RetryView::GiveUp(pause, exhaustion(method, path))
    }
}

/// What is done after an attempt met a status.
pub open spec fn retry_step(
    attempt: nat,
    status: u16,
    method: Seq<char>,
    path: Seq<char>,
) -> RetryView {
    match verdict(attempt, status) {
        Verdict::RateLimited => paused(Pause::Asked, attempt, method, path),
        Verdict::Backoff(seconds) => paused(Pause::Seconds(seconds), attempt, method, path),
        Verdict::Refused(code) => RetryView::Refuse(ErrorView::Http(code)),
        Verdict::Accepted => RetryView::Accept,
    }
}

/// What becomes of a request whose attempts, counted from `attempt`, meet the given statuses: it is
/// accepted, or fails. Nothing where the statuses end before that.
pub open spec fn settled(
    statuses: Seq<u16>,
    attempt: nat,
    method: Seq<char>,
    path: Seq<char>,
) -> Option<Result<(), ErrorView>>
    decreases statuses.len(),
{
    if statuses.len() == 0 {
        None
    } else {
        match retry_step(attempt, statuses[0], method, path) {
            RetryView::Again(_, next) => settled(statuses.skip(1), next, method, path),
            RetryView::GiveUp(_, error) => Some(Err(error)),
            RetryView::Refuse(error) => Some(Err(error)),
            RetryView::Accept => Some(Ok(())),
        }
    }
}

/// Decides what follows the response to an attempt, by its status.
pub fn respond(attempt: u32, status: u16, method: &str, path: &str) -> (r: RetryStep)
    ensures
        r@ == retry_step(attempt as nat, status, method@, path@),
{
    let pause: Pause = match judge(attempt, status) {
        Verdict::RateLimited => Pause::Asked,
        Verdict::Backoff(seconds) => Pause::Seconds(seconds),
        Verdict::Refused(code) => {
            return RetryStep::Refuse(ClientError::Http(code));
        },
        Verdict::Accepted => {
            return RetryStep::Accept;
        },
    };
    if attempt < MAX_RETRIES {
        RetryStep::Again(pause, attempt + 1)
    } else {
        RetryStep::GiveUp(pause, exhausted(method, path))
    }
}

/// The error of a request that was sent as often as it may be.
pub fn exhausted(method: &str, path: &str) -> (r: ClientError)
    ensures
        r@ == exhaustion(method@, path@),
{
    ClientError::Other(cat4("Exhausted retries for ", method, " ", path))
}

/// What identifies the client to the API, and where the API is.
pub struct NotionClient {
    base_url: String,
    token: String,
    api_version: String,
}

impl NotionClient {
    /// The base URL, without slashes at its end.
    pub closed spec fn spec_base(&self) -> Seq<char> {
        self.base_url@
    }

    /// The integration token.
    pub closed spec fn spec_token(&self) -> Seq<char> {
        self.token@
    }

    /// The API version.
    pub closed spec fn spec_version(&self) -> Seq<char> {
        self.api_version@
    }

    /// A client of the public API.
    pub fn new(token: String, api_version: String) -> (r: NotionClient)
        ensures
            r.spec_base() == trim_back(API_BASE@, Edge::Slashes),
            r.spec_token() == token@,
            r.spec_version() == api_version@,
    {
        NotionClient::with_base_url(token, api_version, API_BASE)
    }

    /// A client of an API served elsewhere.
    pub fn with_base_url(token: String, api_version: String, base_url: &str) -> (r: NotionClient)
        ensures
            r.spec_base() == trim_back(base_url@, Edge::Slashes),
            r.spec_token() == token@,
            r.spec_version() == api_version@,
    {
        NotionClient { base_url: trimmed_back(base_url, Edge::Slashes), token, api_version }
    }

    /// The URL of an endpoint.
    pub fn url(&self, path: &str) -> (r: String)
        ensures
            r@ == self.spec_base() + path@,
    {
        cat2(&self.base_url, path)
    }

    /// The value of the `Authorization` header.
    pub fn authorization(&self) -> (r: String)
        ensures
            r@ == "Bearer "@ + self.spec_token(),
    {
        cat2("Bearer ", &self.token)
    }

    /// The value of the `Notion-Version` header.
    pub fn version(&self) -> (r: &str)
        ensures
            r@ == self.spec_version(),
    {
        self.api_version.as_str()
    }
}

// ---------------------------------------------------------------------------
// Pagination
// ---------------------------------------------------------------------------
/// What a pager has come to.
pub struct PagerView {
    /// The body that every request is sent with; nothing for requests without one.
    pub body: Option<Seq<(Seq<char>, JsonView)>>,
    /// The path of the endpoint, with its own query.
    pub path: Seq<char>,
    /// Where the next page starts; nothing for the first one.
    pub cursor: Option<Seq<char>>,
    /// The results of the pages so far.
    pub results: Seq<JsonView>,
}

/// The results on one page.
pub open spec fn page_results(payload: JsonView) -> Seq<JsonView> {
    match payload.items_at("results"@) {
        Some(items) => items,
        None => Seq::empty(),
    }
}

impl PagerView {
    /// The path to ask next: the cursor is one more parameter of the query.
    pub open spec fn next_path(self) -> Seq<char> {
        match (self.body, self.cursor) {
            (None, Some(cursor)) => self.path + (if self.path.contains('?') {
                "&"@
            } else {
                "?"@
            }) + "start_cursor="@ + cursor,
            _ => self.path,
        }
    }

    /// The body to send next: the cursor is one more field.
    pub open spec fn next_body(self) -> Option<JsonView> {
        match (self.body, self.cursor) {
            (Some(fields), Some(cursor)) => Some(
                JsonView::Object(
                    put(fields, "start_cursor"@, JsonView::Text(cursor)),
                ),
            ),
            (Some(fields), None) => Some(JsonView::Object(fields)),
            (None, _) => None,
        }
    }

    /// The pager with one more page taken in.
    pub open spec fn with_page(self, payload: JsonView) -> PagerView {
        PagerView {
            body: self.body,
            path: self.path,
            cursor: if payload.flag_at("has_more"@) {
                Some(or_empty(payload.text_at("next_cursor"@)))
            } else {
                self.cursor
            },
            results: self.results + page_results(payload),
        }
    }
}

/// Collects every result across all pages of a paginated endpoint.
pub struct Pager {
    path: String,
    body: Option<Fields>,
    cursor: Option<String>,
    results: Vec<Json>,
}

impl View for Pager {
    type V = PagerView;

    closed spec fn view(&self) -> PagerView {
        PagerView {
            body: match self.body {
                Some(fields) => Some(fields@),
                None => None,
            },
            path: self.path@,
            cursor: match self.cursor {
                Some(c) => Some(c@),
                None => None,
            },
            results: views(self.results@),
        }
    }
}

/// The body that asks for pages of a hundred results.
pub open spec fn page_size() -> Seq<(Seq<char>, JsonView)> {
    seq![("page_size"@, JsonView::Number(decimal(100)))]
}

fn hundred() -> (r: Fields)
    ensures
        r@ == page_size(),
{
    let r: Fields = Fields::new().with("page_size".to_owned(), Json::integer(100));
    assert(r@ =~= page_size());
    r
}

/// Whether the text holds a question mark.
fn has_query(path: &str) -> (r: bool)
    ensures
        r == path@.contains('?'),
{
    let chars: Vec<char> = chars_of(path);
    let mut i: usize = 0;
    while i < chars.len()
        invariant
            i <= chars@.len(),
            chars@ == path@,
            forall|j: int| 0 <= j < i ==> chars@[j] != '?',
        decreases chars@.len() - i,
    {
        if chars[i] == '?' {
            assert(path@[i as int] == '?');
            return true;
        }
        i += 1;
    }
    false
}

impl Pager {
    /// Pages of an endpoint that is asked without a body.
    pub fn get(path: String) -> (r: Pager)
        ensures
            r@ == (PagerView { body: None, path: path@, cursor: None, results: Seq::empty() }),
    {
        let r = Pager { path, body: None, cursor: None, results: Vec::new() };
        assert(r@.results =~= Seq::empty());
        r
    }

    /// Pages of an endpoint that is asked with a body.
    pub fn post(path: String, body: Fields) -> (r: Pager)
        ensures
            r@ == (PagerView {
                body: Some(body@),
                path: path@,
                cursor: None,
                results: Seq::empty(),
            }),
    {
        let r = Pager { path, body: Some(body), cursor: None, results: Vec::new() };
        assert(r@.results =~= Seq::empty());
        r
    }

    /// Every page and data source the integration can access.
    pub fn search() -> (r: Pager)
        ensures
            r@ == (PagerView {
                body: Some(page_size()),
                path: "/search"@,
                cursor: None,
                results: Seq::empty(),
            }),
    {
        Pager::post("/search".to_owned(), hundred())
    }

    /// The direct child blocks of a block or page.
    pub fn block_children(block_id: &str) -> (r: Pager)
        ensures
            r@ == (PagerView {
                body: None,
                path: "/blocks/"@ + block_id@ + "/children?page_size=100"@,
                cursor: None,
                results: Seq::empty(),
            }),
    {
        Pager::get(cat3("/blocks/", block_id, "/children?page_size=100"))
    }

    /// Every page (row) in a data source.
    pub fn data_source(data_source_id: &str) -> (r: Pager)
        ensures
            r@ == (PagerView {
                body: Some(page_size()),
                path: "/data_sources/"@ + data_source_id@ + "/query"@,
                cursor: None,
                results: Seq::empty(),
            }),
    {
        Pager::post(cat3("/data_sources/", data_source_id, "/query"), hundred())
    }

    /// The path to ask next.
    pub fn next_path(&self) -> (r: String)
        ensures
            r@ == self@.next_path(),
    {
        match (&self.body, &self.cursor) {
            (None, Some(cursor)) => {
                let sep: &str = if has_query(&self.path) {
                    "&"
                } else {
                    "?"
                };
                cat4(&self.path, sep, "start_cursor=", cursor)
            },
            _ => self.path.clone(),
        }
    }

    /// The body to send next; nothing for an endpoint that is asked without one.
    pub fn next_body(&self) -> (r: Option<Json>)
        ensures
            match r {
                Some(body) => self@.next_body() == Some(body@),
                None => self@.next_body() is None,
            },
    {
        match &self.body {
            Some(fields) => {
                let mut copy: Fields = fields.duplicate();
                if let Some(cursor) = &self.cursor {
                    copy = copy.with("start_cursor".to_owned(), Json::string(cursor));
                }
                Some(Json::from_fields(copy))
            },
            None => None,
        }
    }

    /// Takes one page in. True where another page is to be asked for.
    pub fn take_page(&mut self, payload: Json) -> (r: bool)
        ensures
            final(self)@ == old(self)@.with_page(payload@),
            r == payload@.flag_at("has_more"@),
    {
        let more: bool = payload.flag_at("has_more");
        if more {
            self.cursor = Some(
                match payload.text_at("next_cursor") {
                    Some(c) => c.to_owned(),
                    None => String::new(),
                },
            );
        }
        if let Some(items) = payload.items_at("results") {
            let ghost start = views(self.results@);
            let ghost all = views(items@);
            let ghost path = self.path;
            let ghost body = self.body;
            let ghost cursor = self.cursor;
            let mut i: usize = 0;
            assert(start + all.take(0) =~= start);
            while i < items.len()
                invariant
                    i <= items@.len(),
                    all == views(items@),
                    views(self.results@) == start + all.take(i as int),
                    self.path == path,
                    self.body == body,
                    self.cursor == cursor,
                decreases items@.len() - i,
            {
                let ghost before = views(self.results@);
                self.results.push(items[i].duplicate());
                assert(views(self.results@) =~= before.push(items@[i as int]@));
                i += 1;
                assert(start + all.take(i as int) =~= before.push(all[i - 1]));
            }
            assert(all.take(i as int) =~= all);
        } else {
            assert(views(self.results@) + Seq::empty() =~= views(self.results@));
        }
        more
    }

    /// The results of all pages.
    pub fn into_results(self) -> (r: Vec<Json>)
        ensures
            views(r@) == self@.results,
    {
        self.results
    }
}

/// The path of a database.
pub fn database_path(database_id: &str) -> (r: String)
    ensures
        r@ == "/databases/"@ + database_id@,
{
    cat2("/databases/", database_id)
}

/// The path of a page.
pub fn page_path(page_id: &str) -> (r: String)
    ensures
        r@ == "/pages/"@ + page_id@,
{
    cat2("/pages/", page_id)
}

// ---------------------------------------------------------------------------
// Laws
// ---------------------------------------------------------------------------
/// The pager after a run of pages.
pub open spec fn paged(pager: PagerView, pages: Seq<JsonView>) -> PagerView
    decreases pages.len(),
{
    if pages.len() == 0 {
        pager
    } else {
        paged(pager, pages.drop_last()).with_page(pages.last())
    }
}

/// The results of the pages, one page after the other.
pub open spec fn all_results(pages: Seq<JsonView>) -> Seq<JsonView>
    decreases pages.len(),
{
    if pages.len() == 0 {
        Seq::empty()
    } else {
        all_results(pages.drop_last()) + page_results(pages.last())
    }
}

/// Pagination is transparent: whatever the pages are, a fresh pager ends with every result of every
/// page, in order, and the endpoint that it asks stays the same.
pub proof fn law_pages_are_joined(pager: PagerView, pages: Seq<JsonView>)
    ensures
        paged(pager, pages).results == pager.results + all_results(pages),
        paged(pager, pages).path == pager.path,
        paged(pager, pages).body == pager.body,
    decreases pages.len(),
{
    if pages.len() == 0 {
        assert(pager.results + Seq::empty() =~= pager.results);
    } else {
        law_pages_are_joined(pager, pages.drop_last());
        assert(pager.results + all_results(pages.drop_last()) + page_results(pages.last())
            =~= pager.results + (all_results(pages.drop_last()) + page_results(pages.last())));
    }
}

/// After a page that has a successor, the next request names that successor's cursor: as a query
/// parameter where there is no body, else as a field of the body.
pub proof fn law_cursor_is_passed_on(pager: PagerView, payload: JsonView)
    requires
        payload.flag_at("has_more"@),
    ensures
        ({
            let next = pager.with_page(payload);
            let cursor = or_empty(payload.text_at("next_cursor"@));
            &&& pager.body is None ==> exists|sep: Seq<char>|
                (sep == "&"@ || sep == "?"@) && next.next_path() == pager.path + sep
                    + "start_cursor="@ + cursor
            &&& pager.body is Some ==> next.next_path() == pager.path
            &&& pager.body is Some ==> next.next_body() is Some && next.next_body()->0.text_at(
                "start_cursor"@,
            ) == Some(cursor)
        }),
{
    let next = pager.with_page(payload);
    let cursor = or_empty(payload.text_at("next_cursor"@));
    match pager.body {
        Some(fields) => {
            lemma_put_lookup(fields, "start_cursor"@, JsonView::Text(cursor));
        },
        None => {
            let sep = if pager.path.contains('?') {
                "&"@
            } else {
                "?"@
            };
            assert(next.next_path() == pager.path + sep + "start_cursor="@ + cursor);
        },
    }
}

/// Whether a status has a request sent again: 429, or a server error.
pub open spec fn is_passing(status: u16) -> bool {
    status == 429 || status >= 500
}

/// Whether the status at a position settles a request whose attempts are counted from `attempt`: the
/// attempt is still allowed, the status is the first that does not pass, and the request is refused
/// from 400 on and accepted below.
pub open spec fn settles_at(
    statuses: Seq<u16>,
    attempt: nat,
    i: int,
    end: Result<(), ErrorView>,
) -> bool {
    &&& 0 <= i < statuses.len()
    &&& i + attempt <= MAX_RETRIES
    &&& !is_passing(statuses[i])
    &&& forall|j: int| 0 <= j < i ==> is_passing(#[trigger] statuses[j])
    &&& end == if statuses[i] >= 400 {
        Err(ErrorView::Http(statuses[i]))
    } else {
        Ok(())
    }
}

/// Retries are bounded. A request is settled by the first status that is neither 429 nor a server
/// error, met within the allowed number of attempts: refused from 400 on, accepted below. Where
/// every allowed attempt meets 429 or a server error, it fails as exhausted. Only where the statuses
/// end before either is it not settled.
pub proof fn law_retries_are_bounded(
    statuses: Seq<u16>,
    attempt: nat,
    method: Seq<char>,
    path: Seq<char>,
)
    requires
        1 <= attempt <= MAX_RETRIES,
    ensures
        match settled(statuses, attempt, method, path) {
            Some(end) => ({
                ||| exists|i: int| #[trigger] settles_at(statuses, attempt, i, end)
                ||| {
                    &&& statuses.len() + attempt > MAX_RETRIES
                    &&& forall|j: int|
                        0 <= j && j + attempt <= MAX_RETRIES ==> is_passing(#[trigger] statuses[j])
                    &&& end == Err::<(), ErrorView>(exhaustion(method, path))
                }
            }),
            None => {
                &&& statuses.len() + attempt <= MAX_RETRIES
                &&& forall|j: int| 0 <= j < statuses.len() ==> is_passing(#[trigger] statuses[j])
            },
        },
    decreases statuses.len(),
{
    if statuses.len() > 0 {
        let rest = statuses.skip(1);
        assert forall|j: int| 0 < j < statuses.len() implies #[trigger] statuses[j] == rest[j
            - 1] by {}
        let end = settled(statuses, attempt, method, path);
        if !is_passing(statuses[0]) {
            assert(settles_at(statuses, attempt, 0, end->0));
        } else if attempt < MAX_RETRIES {
            law_retries_are_bounded(rest, attempt + 1, method, path);
            assert(settled(rest, attempt + 1, method, path) == end);
            if end is Some && exists|i: int| #[trigger] settles_at(rest, attempt + 1, i, end->0) {
                let i = choose|i: int| #[trigger] settles_at(rest, attempt + 1, i, end->0);
                assert(settles_at(statuses, attempt, i + 1, end->0));
            }
        }
    }
}

/// The pause after a server error starts at a second and is doubled with every attempt, up to half a
/// minute; after too many requests it is what the response asks for. Any other status from 400 on is
/// refused with that status, and a status below is accepted.
pub proof fn law_pauses_double(attempt: nat, status: u16, seconds: u64)
    ensures
        status == 429 ==> verdict(attempt, status) is RateLimited,
        status >= 500 ==> verdict(attempt, status) is Backoff,
        status >= 500 ==> verdict(0, status) == Verdict::Backoff(1),
        status >= 500 && verdict(attempt, status) == Verdict::Backoff(seconds) ==> {
            &&& 1 <= seconds <= 30
            &&& verdict(attempt + 1, status) == if 2 * seconds <= 30 {
                Verdict::Backoff((2 * seconds) as u64)
            } else {
                Verdict::Backoff(30)
            }
        },
        400 <= status < 500 && status != 429 ==> verdict(attempt, status) == Verdict::Refused(status),
        status < 400 ==> verdict(attempt, status) is Accepted,
{
    lemma_doubled_grows(attempt);
    reveal_with_fuel(doubled, 2);
}

/// A request is sent again, as the next attempt, up to the fifth; then it is given up, and the error
/// names the request.
pub proof fn law_requests_are_sent_five_times(
    attempt: nat,
    status: u16,
    method: Seq<char>,
    path: Seq<char>,
)
    requires
        status == 429 || status >= 500,
    ensures
        attempt < 5 ==> (retry_step(attempt, status, method, path) matches RetryView::Again(_, next)
            && next == attempt + 1),
        attempt >= 5 ==> (retry_step(attempt, status, method, path) matches RetryView::GiveUp(
            _,
            error,
        ) && error == ErrorView::Other("Exhausted retries for "@ + method + " "@ + path)),
        status == 429 ==> (match retry_step(attempt, status, method, path) {
            RetryView::Again(pause, _) => pause == Pause::Asked,
            RetryView::GiveUp(pause, _) => pause == Pause::Asked,
            _ => false,
        }),
{
}

/// A page adds its results behind those there are, in order; a page without results adds none. The
/// cursor is the one that the page names, where more follow.
pub proof fn law_pages_add_their_results(pager: PagerView, payload: JsonView, list: Seq<JsonView>)
    ensures
        payload.get("results"@) == Some(JsonView::Array(list)) ==> pager.with_page(payload).results
            == pager.results + list,
        payload.get("results"@) is None ==> pager.with_page(payload).results == pager.results,
        payload.get("has_more"@) == Some(JsonView::Bool(true)) ==> pager.with_page(payload).cursor
            == Some(or_empty(payload.text_at("next_cursor"@))),
        payload.get("has_more"@) != Some(JsonView::Bool(true)) ==> pager.with_page(payload).cursor
            == pager.cursor,
{
    assert(pager.results + Seq::empty() =~= pager.results);
}

/// The cursor is one more parameter of the query, or its first; a first request has none. Where there
/// is a body, the cursor goes there, beside what else is asked, and the path stays.
pub proof fn law_requests_name_their_page(pager: PagerView, cursor: Seq<char>)
    ensures
        pager.cursor is None ==> pager.next_path() == pager.path,
        pager.body is None && pager.cursor == Some(cursor) && pager.path.contains('?')
            ==> pager.next_path() == pager.path + "&"@ + "start_cursor="@ + cursor,
        pager.body is None && pager.cursor == Some(cursor) && !pager.path.contains('?')
            ==> pager.next_path() == pager.path + "?"@ + "start_cursor="@ + cursor,
        pager.body is None ==> pager.next_body() is None,
        pager.body matches Some(fields) ==> pager.next_path() == pager.path && (pager.cursor is None
            ==> pager.next_body() == Some(JsonView::Object(fields))),
{
}

/// Pages of a hundred results are asked for.
pub proof fn law_pages_hold_a_hundred()
    ensures
        page_size().len() == 1,
        page_size()[0].0 == "page_size"@,
        page_size()[0].1 == JsonView::Number("100"@),
{
    reveal_strlit("100");
    reveal_with_fuel(decimal, 4);
    assert(decimal(100) =~= "100"@);
}

} // verus!
