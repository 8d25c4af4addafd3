use gqlfreez::json::Json;
use gqlfreez::paginate::{
    begin, first_request, follow_mut, page_request, read_page_info, Session, Todo,
};
use gqlfreez::query::analyze;

fn json(s: &str) -> Json {
    Json::read(s).expect("JSON")
}

fn path(keys: &[&str]) -> Vec<String> {
    keys.iter().map(|k| k.to_string()).collect()
}

#[test]
fn follow_reaches_a_nested_node() {
    let mut v = json("{\"repository\": {\"issues\": {\"nodes\": [1]}}}");
    let n = follow_mut(&mut v, &path(&["repository", "issues"]), "t").unwrap();
    assert!(n.unwrap().field("nodes").is_some());
}

#[test]
fn follow_refuses_a_list_on_the_path() {
    let mut v = json("{\"authors\": [{\"books\": {\"nodes\": []}}]}");
    let e = follow_mut(&mut v, &path(&["authors", "books"]), "t").unwrap_err();
    assert!(e.line().contains("a list sits on the path"), "{}", e.line());
    assert_eq!(
        e.line(),
        "t: authors: a list sits on the path to this connection — gqlfreez cannot paginate a connection nested inside a list"
    );
}

#[test]
fn page_info_is_read_through_its_alias() {
    let v = json("{\"info\": {\"hasNextPage\": true, \"endCursor\": \"c1\"}}");
    assert_eq!(read_page_info(&v, "info"), Some((true, Some("c1".into()))));
    assert_eq!(read_page_info(&v, "pageInfo"), None);
}

#[test]
fn page_info_needs_has_next_page_only() {
    let v = json("{\"p\": {\"hasNextPage\": null}, \"q\": {\"endCursor\": \"x\"}, \"r\": {\"hasNextPage\": true, \"endCursor\": 4}}");
    assert_eq!(read_page_info(&v, "p"), Some((false, None)));
    assert_eq!(read_page_info(&v, "q"), None);
    assert_eq!(read_page_info(&v, "r"), Some((true, None)));
}

#[test]
fn what_was_written_where_a_path_leads_is_found_there() {
    let mut v = json("{\"a\": {\"b\": 1, \"c\": 2}, \"d\": 3}");
    *follow_mut(&mut v, &path(&["a", "b"]), "t").unwrap().unwrap() = json("[7]");
    assert_eq!(v.write(), "{\"a\":{\"b\":[7],\"c\":2},\"d\":3}");
    assert!(follow_mut(&mut v, &path(&["x", "b"]), "t").unwrap().is_none());
}

#[test]
fn requests_carry_their_cursors() {
    let a = analyze("{ posts { nodes { t } } pages { nodes { t } } }", "f").unwrap();
    let first = first_request(&a, 10);
    assert_eq!(first.operation, None);
    assert_eq!(
        first.variables.write(),
        "{\"gqlfreez_cursor_0\":null,\"gqlfreez_cursor_1\":null}"
    );
    let page = page_request(&a, 1, 10, "c\"1");
    assert_eq!(page.operation.as_deref(), Some("gqlfreez"));
    assert_eq!(page.variables.write(), "{\"gqlfreez_cursor_1\":\"c\\\"1\"}");
    assert_eq!(page.query, a.derived(1, 10));
}

#[test]
fn two_connections_are_walked_one_after_the_other() {
    let a = analyze("{ x { nodes } y { edges pageInfo { hasNextPage endCursor } } }", "f").unwrap();
    let mut s = Session::start(json(
        "{\"x\": {\"nodes\": [1], \"pageInfo\": {\"hasNextPage\": true, \"endCursor\": \"p\"}}, \"y\": {\"edges\": [10], \"pageInfo\": {\"hasNextPage\": true, \"endCursor\": \"q\"}}}",
    ));
    match s.next(&a, 5, "f").unwrap() {
        Todo::Send { index, cursor } => assert_eq!((index, cursor.as_str()), (0, "p")),
        Todo::Finished => panic!("finished"),
    }
    s.deliver(
        json("{\"x\": {\"nodes\": [2, 3], \"pageInfo\": {\"hasNextPage\": false, \"endCursor\": null}}}"),
        &a,
        "f",
    )
    .unwrap();
    match s.next(&a, 5, "f").unwrap() {
        Todo::Send { index, cursor } => assert_eq!((index, cursor.as_str()), (1, "q")),
        Todo::Finished => panic!("finished"),
    }
    s.deliver(
        json("{\"y\": {\"edges\": [], \"pageInfo\": {\"hasNextPage\": false, \"endCursor\": \"r\"}}}"),
        &a,
        "f",
    )
    .unwrap();
    assert!(matches!(s.next(&a, 5, "f").unwrap(), Todo::Finished));
    assert_eq!(s.pages, 3);
    assert_eq!(
        s.merged.write(),
        "{\"x\":{\"nodes\":[1,2,3]},\"y\":{\"edges\":[10],\"pageInfo\":{\"endCursor\":\"r\",\"hasNextPage\":false}}}"
    );
}

#[test]
fn an_incomplete_page_is_an_error() {
    let a = analyze("{ r { x { nodes } } }", "f").unwrap();
    let start = || {
        let mut s = Session::start(json(
            "{\"r\": {\"x\": {\"nodes\": [1], \"pageInfo\": {\"hasNextPage\": true, \"endCursor\": \"p\"}}}}",
        ));
        assert!(matches!(s.next(&a, 5, "f").unwrap(), Todo::Send { .. }));
        s
    };
    for page in ["{}", "{\"r\": null}", "{\"r\": {}}"] {
        assert_eq!(
            start().deliver(json(page), &a, "f").unwrap_err().line(),
            "f: r.x: a page came back without this connection — the result would be incomplete"
        );
    }
    for page in [
        "{\"r\": {\"x\": null}}",
        "{\"r\": {\"x\": {\"nodes\": [2]}}}",
        "{\"r\": {\"x\": {\"nodes\": [2], \"pageInfo\": {\"endCursor\": \"q\"}}}}",
    ] {
        assert_eq!(
            start().deliver(json(page), &a, "f").unwrap_err().line(),
            "f: r.x: a page came back without `hasNextPage` — the result would be incomplete"
        );
    }
    assert!(start()
        .deliver(json("{\"r\": [{\"x\": null}]}"), &a, "f")
        .unwrap_err()
        .line()
        .starts_with("f: r: a list sits on the path"));
}

/// Walks one connection to the end, whatever is asked for.
fn walk_all(query: &str, key: &str) -> (String, usize) {
    let a = analyze(query, "f").unwrap();
    let page = |n: usize| {
        json(&format!(
            "{{\"posts\": {{\"nodes\": [{n}], \"{key}\": {{\"hasNextPage\": {}, \"endCursor\": \"c{n}\"}}}}}}",
            n < 3
        ))
    };
    let mut s = Session::start(page(1));
    let mut n = 1;
    loop {
        match s.next(&a, 9, "f").unwrap() {
            Todo::Send { index, cursor } => {
                assert_eq!((index, cursor), (0, format!("c{n}")));
                n += 1;
                s.deliver(page(n), &a, "f").unwrap();
            }
            Todo::Finished => return (s.merged.write(), s.pages),
        }
    }
}

#[test]
fn page_info_in_part_is_walked_all_the_same() {
    for (query, key, left) in [
        ("{ posts { nodes { t } pageInfo { endCursor } } }", "pageInfo", ",\"pageInfo\":{\"endCursor\":\"c3\"}"),
        ("{ posts { nodes { t } p: pageInfo { hasNextPage } } }", "p", ",\"p\":{\"hasNextPage\":false}"),
        ("{ posts { nodes { t } pageInfo { startCursor } } }", "pageInfo", ",\"pageInfo\":{}"),
        ("{ posts { nodes { t } } }", "pageInfo", ""),
        (
            "{ posts { nodes { t } pageInfo { hasNextPage } pageInfo { endCursor } } }",
            "pageInfo",
            ",\"pageInfo\":{\"endCursor\":\"c3\",\"hasNextPage\":false}",
        ),
    ] {
        assert_eq!(
            walk_all(query, key),
            (format!("{{\"posts\":{{\"nodes\":[1,2,3]{left}}}}}"), 3),
            "{query}"
        );
    }
}

#[test]
fn page_info_is_rebuilt_from_first_and_last_page() {
    let a = analyze(
        "{ x { nodes info: pageInfo { hasNextPage endCursor startCursor hasPreviousPage } } }",
        "f",
    )
    .unwrap();
    let mut s = Session::start(json(
        "{\"x\": {\"nodes\": [1], \"info\": {\"hasNextPage\": true, \"endCursor\": \"a\", \"startCursor\": \"s1\", \"hasPreviousPage\": false}}}",
    ));
    assert!(matches!(s.next(&a, 5, "f").unwrap(), Todo::Send { .. }));
    s.deliver(
        json("{\"x\": {\"nodes\": [2], \"info\": {\"hasNextPage\": false, \"endCursor\": \"b\", \"startCursor\": \"s2\", \"hasPreviousPage\": true}}}"),
        &a,
        "f",
    )
    .unwrap();
    assert!(matches!(s.next(&a, 5, "f").unwrap(), Todo::Finished));
    assert_eq!(
        s.merged.write(),
        "{\"x\":{\"info\":{\"endCursor\":\"b\",\"hasNextPage\":false,\"hasPreviousPage\":false,\"startCursor\":\"s1\"},\"nodes\":[1,2]}}"
    );
}

#[test]
fn walks_stop_at_max_pages() {
    let a = analyze("{ r { x { nodes } } }", "f").unwrap();
    let page = |n: usize| {
        json(&format!(
            "{{\"r\": {{\"x\": {{\"nodes\": [{n}], \"pageInfo\": {{\"hasNextPage\": true, \"endCursor\": \"c{n}\"}}}}}}}}"
        ))
    };
    let mut s = Session::start(page(0));
    let mut sent = 0;
    let e = loop {
        match s.next(&a, 3, "f") {
            Ok(Todo::Send { .. }) => {
                sent += 1;
                s.deliver(page(sent), &a, "f").unwrap();
            }
            Ok(Todo::Finished) => panic!("finished"),
            Err(e) => break e,
        }
    };
    assert_eq!(sent, 2);
    assert_eq!(
        e.line(),
        "f: r.x: stopped at --max-pages (3). Raise it, or narrow the query."
    );
}

#[test]
fn a_next_page_needs_a_cursor() {
    let a = analyze("{ x { nodes } }", "f").unwrap();
    let mut s = Session::start(json("{\"x\": {\"nodes\": [], \"pageInfo\": {\"hasNextPage\": true}}}"));
    assert_eq!(
        s.next(&a, 3, "f").unwrap_err().line(),
        "f: x: the server says there is a next page but gives no endCursor"
    );
}

#[test]
fn a_connection_that_is_not_there_is_passed_over() {
    let a = analyze("{ x { nodes } y { nodes } }", "f").unwrap();
    let mut s = Session::start(json("{\"x\": null, \"y\": {\"nodes\": [1]}}"));
    assert!(begin(&s.merged, &a.connections[0], "f").unwrap().is_none());
    assert!(matches!(s.next(&a, 3, "f").unwrap(), Todo::Finished));
    assert_eq!(s.pages, 1);
    assert_eq!(s.merged.write(), "{\"x\":null,\"y\":{\"nodes\":[1]}}");
}

#[test]
fn page_info_has_to_say_whether_there_is_more() {
    let a = analyze("{ x { nodes pageInfo { endCursor } } }", "f").unwrap();
    for info in ["{\"endCursor\": \"c\"}", "{}", "null"] {
        let mut s = Session::start(json(&format!("{{\"x\": {{\"nodes\": [1], \"pageInfo\": {info}}}}}")));
        assert_eq!(
            s.next(&a, 3, "f").unwrap_err().line(),
            "f: x: `pageInfo` came back without `hasNextPage` — the result would be incomplete"
        );
    }
}

#[test]
fn a_list_on_the_path_is_an_error() {
    let a = analyze("{ x { y { nodes } } }", "f").unwrap();
    let mut s = Session::start(json("{\"x\": [{\"y\": {\"nodes\": []}}]}"));
    assert!(s.next(&a, 3, "f").unwrap_err().line().starts_with("f: x: a list sits on the path"));
}

#[test]
fn a_list_that_is_selected_twice_is_joined_once() {
    let a = analyze("{ x { nodes { a } nodes { b } } }", "f").unwrap();
    let mut s = Session::start(json(
        "{\"x\": {\"nodes\": [1], \"pageInfo\": {\"hasNextPage\": true, \"endCursor\": \"a\"}}}",
    ));
    assert!(matches!(s.next(&a, 5, "f").unwrap(), Todo::Send { .. }));
    s.deliver(
        json("{\"x\": {\"nodes\": [2], \"pageInfo\": {\"hasNextPage\": false}}}"),
        &a,
        "f",
    )
    .unwrap();
    assert!(matches!(s.next(&a, 5, "f").unwrap(), Todo::Finished));
    assert_eq!(s.merged.write(), "{\"x\":{\"nodes\":[1,2]}}");
}
