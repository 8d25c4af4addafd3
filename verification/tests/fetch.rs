use gqlfreez::fetch::{
    after_fault, check_head, check_media, judge, parse_number, push_chunk, read_fault, request_body,
    request_headers, request_text, send_fault, summarize, Fault, GraphQlError, GraphQlResponse,
    Reply, Retry,
};
use gqlfreez::json::Json;
use gqlfreez::paginate::Request;
use gqlfreez::Error;

fn text(s: &str) -> Json {
    Json::Text(s.to_string())
}

fn num(n: i64) -> Json {
    Json::Number(serde_json::Number::from(n))
}

fn obj(entries: Vec<(&str, Json)>) -> Json {
    Json::Object(entries.into_iter().map(|(k, v)| (k.to_string(), v)).collect())
}

fn reply(status: u16, content_type: &str) -> Reply {
    Reply {
        status,
        retry_after: None,
        location: None,
        content_type: Some(content_type.to_string()),
    }
}

fn error(message: &str, code: Option<&str>) -> GraphQlError {
    GraphQlError {
        message: message.to_string(),
        path: None,
        extensions: match code {
            Some(c) => obj(vec![("code", text(c))]),
            None => obj(vec![]),
        },
        kind: None,
    }
}

fn ok(data: Option<Json>, errors: Vec<GraphQlError>) -> Result<GraphQlResponse, String> {
    Ok(GraphQlResponse { data, errors })
}

fn fatal(f: Fault) -> String {
    match f {
        Fault::Fatal(e) => e.line(),
        Fault::Transient { error, .. } => panic!("transient: {}", error.line()),
    }
}

fn transient(f: Fault) -> (String, Option<u64>) {
    match f {
        Fault::Fatal(e) => panic!("fatal: {}", e.line()),
        Fault::Transient { error, wait } => (error.line(), wait),
    }
}

#[test]
fn bodies_leave_out_what_is_empty() {
    let r = Request { query: "{ a }".to_string(), operation: None, variables: obj(vec![]) };
    assert_eq!(request_text(&r), "{\"query\":\"{ a }\"}");
    let r = Request { query: "q".to_string(), operation: Some(String::new()), variables: obj(vec![]) };
    assert_eq!(request_text(&r), "{\"query\":\"q\"}");
    let r = Request {
        query: "q".to_string(),
        operation: Some("Op".to_string()),
        variables: obj(vec![("c", Json::Null)]),
    };
    assert_eq!(
        request_text(&r),
        "{\"operationName\":\"Op\",\"query\":\"q\",\"variables\":{\"c\":null}}"
    );
    assert!(request_body(&r).field("variables").is_some());
}

#[test]
fn headers_are_checked_and_replaced() {
    let pair = |a: &str, b: &str| (a.to_string(), b.to_string());
    let accept = pair("accept", "application/graphql-response+json, application/json;q=0.9");
    assert_eq!(request_headers(&vec![]).unwrap(), vec![accept.clone()]);
    assert_eq!(
        request_headers(&vec![pair("X-Token", "a"), pair("Accept", "z"), pair("x-token", "b\té")]).unwrap(),
        vec![pair("x-token", "b\té"), accept]
    );
    assert_eq!(
        request_headers(&vec![pair("bad name", "v")]).unwrap_err().line(),
        "config: invalid header name \"bad name\""
    );
    assert_eq!(
        request_headers(&vec![pair("", "v")]).unwrap_err().line(),
        "config: invalid header name \"\""
    );
    assert_eq!(
        request_headers(&vec![pair("X-A", "line\nbreak")]).unwrap_err().line(),
        "config: invalid value for header x-a"
    );
    assert!(request_headers(&vec![pair("é", "v")]).is_err());
    assert!(request_headers(&vec![pair(&"a".repeat(65536), "v")]).is_err());
    assert!(request_headers(&vec![pair(&"a".repeat(65535), "v")]).is_ok());
    assert!(request_headers(&vec![pair("a", "\u{7f}")]).is_err());
}

#[test]
fn every_character_is_judged_as_the_client_does() {
    for n in 0u32..256 {
        let c = char::from_u32(n).unwrap().to_string();
        let name = format!("a{c}");
        let header = request_headers(&vec![(name.clone(), String::new())]);
        assert_eq!(header.is_ok(), name.parse::<reqwest::header::HeaderName>().is_ok(), "{n}");
        let value = request_headers(&vec![("a".to_string(), c.clone())]);
        assert_eq!(value.is_ok(), reqwest::header::HeaderValue::from_str(&c).is_ok(), "{n}");
    }
}

#[test]
fn redirections_are_refused() {
    assert!(check_head(&reply(200, "application/json"), "f").is_ok());
    let mut r = reply(301, "text/html");
    assert_eq!(
        fatal(check_head(&r, "f").unwrap_err()),
        "f: unusable server response: the endpoint redirects to <no Location header> (HTTP 301 Moved Permanently). A redirected POST silently becomes a GET — fix the URL in your config."
    );
    r.location = Some("https://x".to_string());
    assert!(fatal(check_head(&r, "f").unwrap_err()).contains("redirects to https://x (HTTP 301"));
}

#[test]
fn bodies_are_capped() {
    let mut body: Vec<u8> = vec![];
    assert!(push_chunk(&mut body, &vec![1, 2, 3], 4, "f").is_ok());
    assert!(push_chunk(&mut body, &vec![4], 4, "f").is_ok());
    assert_eq!(
        fatal(push_chunk(&mut body, &vec![5], 4, "f").unwrap_err()),
        "f: unusable server response: the response went past --max-response-bytes (4 bytes). Narrow the query, or raise the limit."
    );
    assert_eq!(body, vec![1, 2, 3, 4, 5]);
}

#[test]
fn what_is_not_json_is_shown() {
    let mut r = reply(200, "text/html; charset=utf-8");
    r.retry_after = Some("7".to_string());
    let (line, wait) = transient(check_media(&r, &b"<html>\xff</html>".to_vec(), "f").unwrap_err());
    assert_eq!(
        line,
        "f: unusable server response: expected JSON, got HTTP 200 OK with Content-Type \"text/html; charset=utf-8\".\nFirst bytes: <html>\u{fffd}</html>"
    );
    assert_eq!(wait, Some(7));
    r.content_type = None;
    r.retry_after = Some("soon".to_string());
    let (line, wait) = transient(check_media(&r, &"é".repeat(300).into_bytes(), "f").unwrap_err());
    assert!(line.ends_with(&format!("Content-Type \"<none>\".\nFirst bytes: {}", "é".repeat(200))));
    assert_eq!(wait, None);
    assert!(check_media(&reply(500, "application/json"), &vec![], "f").is_ok());
}

#[test]
fn data_is_accepted() {
    let a = judge(&reply(200, "application/json"), ok(Some(num(1)), vec![]), false, "f").unwrap();
    assert_eq!(a.data.write(), "1");
    assert!(a.warning.is_none());
}

#[test]
fn failures_are_told_apart() {
    let json = reply(200, "application/json");
    assert_eq!(
        fatal(judge(&json, Err("EOF".to_string()), false, "f").unwrap_err()),
        "f: unusable server response: HTTP 200 OK: malformed JSON: EOF"
    );
    assert_eq!(
        fatal(judge(&json, ok(None, vec![]), false, "f").unwrap_err()),
        "f: HTTP 200 OK: the response has no `data`"
    );
    assert_eq!(
        fatal(judge(&json, ok(Some(Json::Null), vec![]), false, "f").unwrap_err()),
        "f: HTTP 200 OK: the response has no `data`"
    );
    assert_eq!(
        transient(judge(&reply(503, "application/json"), ok(Some(num(1)), vec![]), false, "f").unwrap_err()),
        ("f: unusable server response: HTTP 503 Service Unavailable from the server".to_string(), None)
    );
    assert_eq!(
        transient(judge(&reply(429, "application/json"), ok(None, vec![]), false, "f").unwrap_err()).0,
        "f: unusable server response: HTTP 429 Too Many Requests"
    );
    for status in [500, 503, 599, 429] {
        let r = reply(status, "application/json");
        let (line, wait) = transient(judge(&r, Err("EOF".to_string()), false, "f").unwrap_err());
        assert!(line.contains(": malformed JSON: EOF"), "{line}");
        assert_eq!(wait, None);
    }
    fatal(judge(&reply(404, "application/json"), Err("EOF".to_string()), false, "f").unwrap_err());
    let graphql = reply(503, "application/graphql-response+json; charset=utf-8");
    assert!(judge(&graphql, ok(Some(num(1)), vec![]), false, "f").is_ok());
}

#[test]
fn errors_are_fatal_unless_partial_data_is_allowed() {
    let json = reply(200, "application/json");
    let errors = || vec![error("no such field", None)];
    assert_eq!(
        fatal(judge(&json, ok(Some(num(1)), errors()), false, "f").unwrap_err()),
        "f: no such field"
    );
    let a = judge(&json, ok(Some(num(1)), errors()), true, "f").unwrap();
    assert_eq!(a.warning.as_deref(), Some("f: no such field"));
    assert!(judge(&json, ok(None, errors()), true, "f").is_err());
    let (line, wait) =
        transient(judge(&json, ok(Some(num(1)), vec![error("slow", Some("throttled"))]), true, "f").unwrap_err());
    assert_eq!(line, "f: slow [throttled]");
    assert_eq!(wait, None);
}

#[test]
fn codes_are_read_and_judged() {
    assert!(error("", Some("RATE_LIMITED")).retryable());
    assert!(error("", Some("Timeout")).retryable());
    assert!(error("", Some("service_unavailable")).retryable());
    assert!(error("", Some("INTERNAL_SERVER_ERROR")).retryable());
    assert!(!error("", Some("BAD_USER_INPUT")).retryable());
    assert!(!error("", None).retryable());
    let mut e = error("", Some("THROTTLED"));
    e.kind = Some("NOT_FOUND".to_string());
    assert_eq!(e.code().as_deref(), Some("NOT_FOUND"));
    assert!(!e.retryable());
    e.kind = None;
    e.extensions = obj(vec![("code", num(5))]);
    assert_eq!(e.code(), None);
}

#[test]
fn five_errors_are_shown() {
    let mut e = error("m", Some("C"));
    e.path = Some(vec![text("a"), num(0), Json::Bool(true)]);
    let mut all = vec![e];
    assert_eq!(summarize(&all), "m at a.0.true [C]");
    for i in 0..6 {
        all.push(error(&format!("e{i}"), None));
    }
    assert_eq!(summarize(&all), "m at a.0.true [C]; e0; e1; e2; e3; … and 2 more");
    assert_eq!(summarize(&vec![]), "");
}

#[test]
fn numbers_are_read_like_the_system_does() {
    for s in ["0", "7", "+7", "-1", "", "+", "++1", " 1", "1 ", "18446744073709551615", "18446744073709551616", "00012", "99999999999999999999999", "1e3", "١"] {
        assert_eq!(parse_number(s), s.parse::<u64>().ok(), "{s}");
    }
}

#[test]
fn transient_failures_are_retried_and_others_are_not() {
    match after_fault(send_fault("refused", "f"), 0, 2, "f") {
        Retry::Wait { seconds, notice } => {
            assert_eq!(seconds, 2);
            assert_eq!(
                notice,
                "f: f: unusable server response: refused — retrying in 2s (1/2)"
            );
        }
        Retry::GiveUp(_) => panic!("gave up"),
    }
    let again = Fault::Transient {
        error: Error::Config("x".to_string()),
        wait: Some(9),
    };
    assert!(matches!(after_fault(again, 1, 2, "f"), Retry::Wait { seconds: 9, .. }));
    assert!(matches!(after_fault(send_fault("refused", "f"), 2, 2, "f"), Retry::GiveUp(_)));
    match after_fault(read_fault("operation timed out", true, "f"), 0, 2, "f") {
        Retry::Wait { seconds, .. } => assert!(seconds > 0),
        Retry::GiveUp(e) => panic!("{}", e.line()),
    }
    match after_fault(read_fault("operation timed out", true, "f"), 2, 2, "f") {
        Retry::GiveUp(e) => assert!(
            e.line().contains("while reading the response: operation timed out"),
            "{}",
            e.line()
        ),
        Retry::Wait { .. } => panic!("no try is left"),
    }
    match after_fault(read_fault("reset", false, "f"), 0, 2, "f") {
        Retry::GiveUp(e) => assert_eq!(
            e.line(),
            "f: unusable server response: while reading the response: reset"
        ),
        Retry::Wait { .. } => panic!("waits"),
    }
}
