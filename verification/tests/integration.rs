//! Whole queries against a stub GraphQL server that answers in memory.

use gqlfreez::cli::{answer, refuse, EXIT_CHANGED, EXIT_CONFIG, EXIT_FAILED, EXIT_OK};
use gqlfreez::discover::find;
use gqlfreez::engine::{announce, conclude, gather, plan, settle, Step};
use gqlfreez::fetch::{
    after_fault, check_head, check_media, judge, request_text, Fault, GraphQlError,
    GraphQlResponse, Reply, Retry,
};
use gqlfreez::json::Json;
use gqlfreez::paginate::{first_request, page_request, Request, Session, Todo};
use gqlfreez::query::analyze;
use gqlfreez::{Error, Level, Logger, Outcome};

#[derive(Clone, Copy)]
enum Behaviour {
    /// Three pages, then done.
    Paginated,
    /// Always claims another page, with the same cursor: a server ignoring `after:`.
    StuckCursor,
    Simple,
    /// HTTP 200 with an HTML body, like a WAF or a maintenance page.
    HtmlIn200,
    /// HTTP 200 carrying a GraphQL error.
    GraphQlError(&'static str),
    /// A rate limit in HTTP 200, then success.
    ThrottleThenOk,
}

struct Stub {
    behaviour: Behaviour,
    queries: Vec<String>,
}

fn start(behaviour: Behaviour) -> Stub {
    Stub { behaviour, queries: vec![] }
}

impl Stub {
    fn calls(&self) -> usize {
        self.queries.len()
    }

    /// The content type and the body of the answer to a request.
    fn handle(&mut self, body: &str) -> (&'static str, String) {
        let request = Json::read(body).expect("a JSON request");
        let call = self.queries.len();
        match request.field("query") {
            Some(Json::Text(q)) => self.queries.push(q.clone()),
            _ => panic!("no query"),
        }
        let mut cursor: Option<String> = None;
        if let Some(Json::Object(variables)) = request.field("variables") {
            for (_, v) in variables {
                if let Json::Text(c) = v {
                    cursor = Some(c.clone());
                }
            }
        }
        let ok = "{\"data\":{\"posts\":{\"nodes\":[{\"title\":\"one\"}]}}}".to_string();
        match self.behaviour {
            Behaviour::HtmlIn200 => (
                "text/html; charset=utf-8",
                "<html><body>Under maintenance</body></html>".to_string(),
            ),
            Behaviour::GraphQlError(message) => (
                "application/json",
                format!("{{\"errors\":[{{\"message\":{:?}}}]}}", message),
            ),
            Behaviour::ThrottleThenOk if call == 0 => (
                "application/json",
                "{\"errors\":[{\"message\":\"throttled\",\"extensions\":{\"code\":\"THROTTLED\"}}]}"
                    .to_string(),
            ),
            Behaviour::ThrottleThenOk | Behaviour::Simple => ("application/json", ok),
            Behaviour::StuckCursor => (
                "application/json",
                "{\"data\":{\"posts\":{\"nodes\":[{\"title\":\"loop\"}],\"pageInfo\":{\"hasNextPage\":true,\"endCursor\":\"same\"}}}}".to_string(),
            ),
            Behaviour::Paginated => {
                let (nodes, has_next, end) = match cursor.as_deref() {
                    None => (vec!["a", "b"], true, "c1"),
                    Some("c1") => (vec!["c", "d"], true, "c2"),
                    _ => (vec!["e"], false, "c3"),
                };
                let items: Vec<String> =
                    nodes.iter().map(|t| format!("{{\"title\":{:?}}}", t)).collect();
                (
                    "application/json",
                    format!(
                        "{{\"data\":{{\"posts\":{{\"nodes\":[{}],\"pageInfo\":{{\"hasNextPage\":{},\"endCursor\":{:?}}}}}}}}}",
                        items.join(","),
                        has_next,
                        end
                    ),
                )
            }
        }
    }
}

fn decode(body: &str) -> Result<GraphQlResponse, String> {
    let value = Json::read(body).ok_or("not JSON".to_string())?;
    let mut errors = vec![];
    if let Some(Json::Array(list)) = value.field("errors") {
        for e in list {
            errors.push(GraphQlError {
                message: match e.field("message") {
                    Some(Json::Text(m)) => m.clone(),
                    _ => String::new(),
                },
                path: None,
                extensions: match e.field("extensions") {
                    Some(x) => x.copy(),
                    None => Json::Object(vec![]),
                },
                kind: None,
            });
        }
    }
    Ok(GraphQlResponse { data: value.field("data").map(|d| d.copy()), errors })
}

fn once(stub: &mut Stub, request: &Request, file: &str) -> Result<Json, Fault> {
    let (content_type, body) = stub.handle(&request_text(request));
    let reply = Reply {
        status: 200,
        retry_after: None,
        location: None,
        content_type: Some(content_type.to_string()),
    };
    check_head(&reply, file)?;
    check_media(&reply, &body.clone().into_bytes(), file)?;
    Ok(judge(&reply, decode(&body), false, file)?.data)
}

fn execute(stub: &mut Stub, request: &Request, file: &str, retries: u32) -> Result<Json, Error> {
    let mut attempt = 0;
    loop {
        match once(stub, request, file) {
            Ok(data) => return Ok(data),
            Err(fault) => match after_fault(fault, attempt, retries, file) {
                Retry::GiveUp(e) => return Err(e),
                Retry::Wait { .. } => attempt += 1,
            },
        }
    }
}

fn fetch(
    stub: &mut Stub,
    query: &str,
    file: &str,
    retries: u32,
    max_pages: usize,
) -> Result<(Json, usize), Error> {
    let analysis = analyze(query, file)?;
    let mut session = Session::start(execute(stub, &first_request(&analysis, 100), file, retries)?);
    loop {
        match session.next(&analysis, max_pages, file)? {
            Todo::Send { index, cursor } => {
                let request = page_request(&analysis, index, 100, &cursor);
                let page = execute(stub, &request, file, retries)?;
                session.deliver(page, &analysis, file)?;
            }
            Todo::Finished => return Ok((session.merged, session.pages)),
        }
    }
}

struct Run {
    code: u8,
    stderr: String,
    /// What is in the output file afterwards.
    output: Option<String>,
    /// What was written to a temporary file.
    written: Option<String>,
}

fn gqlfreez(stub: &mut Stub, name: &str, query: &str, disk: Option<&str>, extra: &[&str]) -> Run {
    let number = |flag: &str, default: usize| match extra.iter().position(|f| *f == flag) {
        Some(i) => extra[i + 1].parse().unwrap(),
        None => default,
    };
    let check = extra.contains(&"--check");
    let dry_run = extra.contains(&"--dry-run");
    let queries = find(vec![name.to_string()]).unwrap();
    let file = queries[0].source.clone();
    let mut written = None;
    let retries = number("--retries", 2) as u32;
    let outcome = match fetch(stub, query, &file, retries, number("--max-pages", 20)) {
        Ok((data, pages)) => {
            let settled = settle(data, pages, disk, extra.contains(&"--envelope"), check, dry_run);
            written = settled.waiting;
            settled.outcome
        }
        Err(e) => Outcome::Failed(e),
    };
    let mut results = gather(&queries, vec![(0, outcome)]);
    let mut output = disk.map(|d| d.to_string());
    for step in plan(&results, check, dry_run) {
        if let Step::Move { .. } = step {
            output = written.clone();
        }
    }
    conclude(&mut results, check, dry_run);
    let report = answer(&results, check, dry_run, &Logger::new(Level::Standard, true), 0, 1);
    Run { code: report.code, stderr: report.lines.join("\n"), output, written }
}

fn at<'a>(value: &'a Json, path: &[&str]) -> Option<&'a Json> {
    path.iter().try_fold(value, |v, k| v.field(k))
}

#[test]
fn writes_data_next_to_the_query() {
    let mut stub = start(Behaviour::Simple);
    let out = gqlfreez(
        &mut stub,
        "posts.graphql",
        "{ posts(first: 5) { nodes { title } } }",
        None,
        &[],
    );
    assert_eq!(out.code, EXIT_OK, "{}", out.stderr);
    assert_eq!(find(vec!["posts.graphql".to_string()]).unwrap()[0].output, "posts.json");
    let value = Json::read(&out.output.unwrap()).unwrap();
    assert_eq!(value.write(), "{\"posts\":{\"nodes\":[{\"title\":\"one\"}]}}");
}

#[test]
fn walks_every_page_and_merges_nodes() {
    let mut stub = start(Behaviour::Paginated);
    let out = gqlfreez(&mut stub, "all.graphql", "{ posts { nodes { title } } }", None, &[]);
    assert_eq!(out.code, EXIT_OK, "{}", out.stderr);
    let value = Json::read(&out.output.unwrap()).unwrap();
    assert_eq!(
        at(&value, &["posts", "nodes"]).unwrap().write(),
        "[{\"title\":\"a\"},{\"title\":\"b\"},{\"title\":\"c\"},{\"title\":\"d\"},{\"title\":\"e\"}]"
    );
    // pageInfo was injected by gqlfreez, so it must not leak into the output.
    assert!(at(&value, &["posts", "pageInfo"]).is_none());
    assert_eq!(stub.calls(), 3);
}

#[test]
fn an_explicit_first_is_a_limit_not_a_page_size() {
    let mut stub = start(Behaviour::Paginated);
    let out = gqlfreez(
        &mut stub,
        "few.graphql",
        "{ posts(first: 2) { nodes { title } } }",
        None,
        &[],
    );
    assert_eq!(out.code, EXIT_OK, "{}", out.stderr);
    assert_eq!(stub.calls(), 1, "must not paginate");
    assert!(!stub.queries[0].contains("after"));
}

#[test]
fn a_user_written_page_info_is_kept_and_rebuilt() {
    let mut stub = start(Behaviour::Paginated);
    let out = gqlfreez(
        &mut stub,
        "all.graphql",
        "{ posts { nodes { title } pageInfo { hasNextPage endCursor } } }",
        None,
        &[],
    );
    assert_eq!(out.code, EXIT_OK, "{}", out.stderr);
    let value = Json::read(&out.output.unwrap()).unwrap();
    assert_eq!(at(&value, &["posts", "pageInfo", "hasNextPage"]).unwrap().write(), "false");
    assert_eq!(at(&value, &["posts", "pageInfo", "endCursor"]).unwrap().write(), "\"c3\"");
}

#[test]
fn a_stuck_cursor_is_caught_on_the_second_call() {
    let mut stub = start(Behaviour::StuckCursor);
    let out = gqlfreez(
        &mut stub,
        "loop.graphql",
        "{ posts { nodes { title } } }",
        None,
        &["--max-pages", "50"],
    );
    assert_ne!(out.code, EXIT_OK);
    assert!(out.stderr.contains("same endCursor twice"), "{}", out.stderr);
    assert!(stub.calls() <= 3, "must not loop 50 times");
    assert!(out.output.is_none(), "nothing is written on failure");
    assert_eq!(
        out.stderr,
        "gqlfreez: loop.graphql: posts: the server returned the same endCursor twice (\"same\") — it is ignoring `after:`, so pagination cannot advance"
    );
}

#[test]
fn html_in_a_200_says_what_came_back() {
    let mut stub = start(Behaviour::HtmlIn200);
    let out = gqlfreez(
        &mut stub,
        "q.graphql",
        "{ posts(first: 1) { nodes { title } } }",
        None,
        &["--retries", "0"],
    );
    assert_ne!(out.code, EXIT_OK);
    assert!(out.stderr.contains("expected JSON"), "{}", out.stderr);
    assert!(out.stderr.contains("Under maintenance"), "{}", out.stderr);
}

#[test]
fn a_graphql_error_fails_the_build_without_retrying() {
    let mut stub = start(Behaviour::GraphQlError("Cannot query field \"nope\""));
    let out = gqlfreez(
        &mut stub,
        "q.graphql",
        "{ posts(first: 1) { nodes { nope } } }",
        None,
        &[],
    );
    assert_eq!(out.code, EXIT_FAILED);
    assert!(out.stderr.contains("Cannot query field"));
    assert_eq!(stub.calls(), 1, "deterministic errors are not retried");
}

#[test]
fn a_throttle_in_a_200_is_retried() {
    let mut stub = start(Behaviour::ThrottleThenOk);
    let out = gqlfreez(
        &mut stub,
        "q.graphql",
        "{ posts(first: 1) { nodes { title } } }",
        None,
        &[],
    );
    assert_eq!(out.code, EXIT_OK, "{}", out.stderr);
    assert_eq!(stub.calls(), 2);
}

#[test]
fn transient_failures_are_sent_once_and_as_often_as_there_are_retries() {
    let mut stub = start(Behaviour::HtmlIn200);
    let query = "{ posts(first: 1) { nodes { title } } }";
    assert_eq!(gqlfreez(&mut stub, "q.graphql", query, None, &["--retries", "4"]).code, EXIT_FAILED);
    assert_eq!(stub.calls(), 5);
}

#[test]
fn unchanged_output_is_not_rewritten() {
    let mut stub = start(Behaviour::Simple);
    let query = "{ posts(first: 1) { nodes { title } } }";
    let first = gqlfreez(&mut stub, "q.graphql", query, None, &[]);
    assert_eq!(first.code, EXIT_OK);
    assert_eq!(first.written, first.output);
    let out = gqlfreez(&mut stub, "q.graphql", query, first.output.as_deref(), &[]);
    assert_eq!(out.code, EXIT_OK);
    assert_eq!(out.written, None, "the file must not be touched when nothing changed");
    assert_eq!(out.output, first.output);
    assert!(out.stderr.contains("1 unchanged"));
}

#[test]
fn check_reports_without_writing() {
    let mut stub = start(Behaviour::Simple);
    let out = gqlfreez(
        &mut stub,
        "q.graphql",
        "{ posts(first: 1) { nodes { title } } }",
        None,
        &["--check"],
    );
    assert_eq!(out.code, EXIT_CHANGED, "{}", out.stderr);
    assert_eq!(out.code, 3);
    assert!(out.output.is_none());
    assert!(out.written.is_none());
}

#[test]
fn dry_run_writes_nothing_at_all() {
    let mut stub = start(Behaviour::Simple);
    let out = gqlfreez(
        &mut stub,
        "q.graphql",
        "{ posts(first: 1) { nodes { title } } }",
        Some("{}"),
        &["--dry-run"],
    );
    assert_eq!(out.code, EXIT_OK, "{}", out.stderr);
    assert!(out.written.is_none());
    assert_eq!(out.output.as_deref(), Some("{}"));
    assert!(out.stderr.contains("1 would change"));
}

#[test]
fn a_syntax_error_is_reported_not_skipped() {
    let mut stub = start(Behaviour::Simple);
    let out = gqlfreez(&mut stub, "broken.graphql", "{ posts { nodes { title } ", None, &[]);
    assert_ne!(out.code, EXIT_OK);
    assert!(out.stderr.contains("syntax error"));
}

#[test]
fn envelope_restores_the_graphql_shape() {
    let mut stub = start(Behaviour::Simple);
    let out = gqlfreez(
        &mut stub,
        "q.graphql",
        "{ posts(first: 1) { nodes { title } } }",
        None,
        &["--envelope"],
    );
    assert_eq!(out.code, EXIT_OK);
    assert!(Json::read(&out.output.unwrap()).unwrap().field("data").is_some());
}

#[test]
fn no_matching_file_is_an_error() {
    let found = find(vec![]).unwrap();
    let e = announce(found.len(), "/empty", "**/*.{graphql,gql}").unwrap_err();
    let report = refuse(&e);
    assert_eq!(report.code, EXIT_CONFIG);
    assert_eq!(report.code, 2);
    assert!(report.lines[0].contains("no query file"));
}
