//! Requests, retries and pagination.

use notion_backup::client::{
    database_path, exhausted, judge, page_path, respond, ClientError, NotionClient, Pager, Pause,
    RetryStep, Verdict,
};
use notion_backup::json::Json;

fn json(text: &str) -> Json {
    Json::parse(text).unwrap()
}

#[test]
fn errors_tell_their_status() {
    assert_eq!(ClientError::Http(404).status(), Some(404));
    assert_eq!(ClientError::Other("x".to_string()).status(), None);
    assert_eq!(ClientError::Http(404).message(), "HTTP 404");
    assert_eq!(ClientError::Other("x".to_string()).message(), "x");
    assert_eq!(
        exhausted("GET", "/pages/p").message(),
        "Exhausted retries for GET /pages/p"
    );
}

#[test]
fn statuses_are_judged() {
    assert_eq!(judge(1, 200), Verdict::Accepted);
    assert_eq!(judge(1, 304), Verdict::Accepted);
    assert_eq!(judge(1, 404), Verdict::Refused(404));
    assert_eq!(judge(1, 429), Verdict::RateLimited);
    let pauses: Vec<Verdict> = (1..=5).map(|attempt| judge(attempt, 503)).collect();
    let wanted: Vec<Verdict> = [2, 4, 8, 16, 30].into_iter().map(Verdict::Backoff).collect();
    assert_eq!(pauses, wanted);
}

#[test]
fn responses_are_taken_step_by_step() {
    let step = |attempt: u32, status: u16| respond(attempt, status, "GET", "/x");
    assert!(matches!(step(1, 200), RetryStep::Accept));
    assert!(matches!(step(5, 404), RetryStep::Refuse(ClientError::Http(404))));
    assert!(matches!(step(1, 429), RetryStep::Again(Pause::Asked, 2)));
    assert!(matches!(step(4, 500), RetryStep::Again(Pause::Seconds(16), 5)));
    match step(5, 429) {
        RetryStep::GiveUp(Pause::Asked, e) => {
            assert_eq!(e.message(), "Exhausted retries for GET /x")
        }
        other => panic!("{other:?}"),
    }
    assert!(matches!(step(5, 503), RetryStep::GiveUp(Pause::Seconds(30), ClientError::Other(_))));
}

/// What becomes of a request that meets the given statuses.
fn outcome(statuses: &[u16]) -> Option<Result<(), ClientError>> {
    let mut attempt = 1;
    for status in statuses {
        match respond(attempt, *status, "GET", "/x") {
            RetryStep::Again(_, next) => attempt = next,
            RetryStep::GiveUp(_, e) | RetryStep::Refuse(e) => return Some(Err(e)),
            RetryStep::Accept => return Some(Ok(())),
        }
    }
    None
}

#[test]
fn a_request_is_sent_five_times_at_most() {
    assert!(matches!(outcome(&[429, 500, 429, 503, 200]), Some(Ok(()))));
    assert!(matches!(outcome(&[429, 403, 200]), Some(Err(ClientError::Http(403)))));
    assert!(matches!(outcome(&[500, 500, 500, 500, 500, 200]), Some(Err(ClientError::Other(_)))));
    assert!(outcome(&[500, 500, 500, 500]).is_none());
}

#[test]
fn urls_and_headers() {
    let client = NotionClient::with_base_url("tok".to_string(), "v".to_string(), "http://x//");
    assert_eq!(client.url("/search"), "http://x/search");
    assert_eq!(client.authorization(), "Bearer tok");
    assert_eq!(client.version(), "v");
    let public = NotionClient::new("tok".to_string(), "v".to_string());
    assert_eq!(public.url(&page_path("p")), "https://api.notion.com/v1/pages/p");
    assert_eq!(database_path("d"), "/databases/d");
}

#[test]
fn pages_are_joined_over_a_get_endpoint() {
    let mut pager = Pager::block_children("b");
    assert_eq!(pager.next_path(), "/blocks/b/children?page_size=100");
    assert!(pager.next_body().is_none());
    assert!(pager.take_page(json(r#"{"results": [1, 2], "has_more": true, "next_cursor": "c1"}"#)));
    assert_eq!(pager.next_path(), "/blocks/b/children?page_size=100&start_cursor=c1");
    assert!(pager.take_page(json(r#"{"results": [3], "has_more": true, "next_cursor": "c2"}"#)));
    assert_eq!(pager.next_path(), "/blocks/b/children?page_size=100&start_cursor=c2");
    assert!(!pager.take_page(json(r#"{"results": [4], "has_more": false}"#)));
    assert_eq!(pager.into_results(), vec![json("1"), json("2"), json("3"), json("4")]);
}

#[test]
fn pages_are_joined_over_a_post_endpoint() {
    let mut pager = Pager::search();
    assert_eq!(pager.next_path(), "/search");
    assert_eq!(pager.next_body(), Some(json(r#"{"page_size": 100}"#)));
    assert!(pager.take_page(json(r#"{"has_more": true, "next_cursor": "c1"}"#)));
    assert_eq!(pager.next_path(), "/search");
    assert_eq!(
        pager.next_body(),
        Some(json(r#"{"page_size": 100, "start_cursor": "c1"}"#))
    );
    assert!(!pager.take_page(json(r#"{"results": ["r"]}"#)));
    assert_eq!(pager.into_results(), vec![json("\"r\"")]);
    assert_eq!(Pager::data_source("s").next_path(), "/data_sources/s/query");
}

#[test]
fn a_path_without_a_query_gets_one() {
    let mut pager = Pager::get("/x".to_string());
    pager.take_page(json(r#"{"has_more": true, "next_cursor": "c"}"#));
    assert_eq!(pager.next_path(), "/x?start_cursor=c");
}
