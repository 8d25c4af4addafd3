use gqlfreez::query::{analyze, Analysis, Kind, ListField, VarInsert};

fn an(src: &str) -> Analysis {
    analyze(src, "t.graphql").expect("analyze")
}

#[test]
fn no_limit_paginates() {
    let a = an("{ posts { nodes { title } } }");
    assert_eq!(a.connections.len(), 1);
    assert!(a.connections[0].paginate);
    assert_eq!(
        a.page_one(100),
        "query gqlfreez($gqlfreez_cursor_0: String) { posts(first: 100, after: $gqlfreez_cursor_0) { pageInfo { hasNextPage endCursor } nodes { title } } }"
    );
}

#[test]
fn explicit_first_is_a_limit() {
    let a = an("{ posts(first: 3) { nodes { title } pageInfo { hasNextPage } } }");
    assert!(!a.connections[0].paginate);
    assert_eq!(
        a.page_one(100),
        "{ posts(first: 3) { nodes { title } pageInfo { hasNextPage } } }"
    );
}

#[test]
fn auto_marker_paginates_and_is_replaced() {
    let a = an("{ posts(first: auto) { nodes { title } } }");
    assert!(a.connections[0].paginate);
    let q = a.page_one(50);
    assert!(q.contains("first: 50"), "{q}");
    assert!(q.contains("after: $gqlfreez_cursor_0"), "{q}");
    assert!(!q.contains("auto"), "{q}");
}

#[test]
fn user_cursor_is_reused_untouched() {
    let src = "query P($cursor: String) { posts(first: 100, after: $cursor) { nodes { t } pageInfo { hasNextPage endCursor } } }";
    let a = an(src);
    assert!(a.connections[0].paginate);
    assert_eq!(a.connections[0].user_cursor_var.as_deref(), Some("cursor"));
    assert_eq!(a.page_one(100), src, "nothing to rewrite");
}

#[test]
fn existing_variables_are_extended_not_replaced() {
    let a = an("query P($lang: String) { posts { nodes { t } } }");
    let q = a.page_one(100);
    assert!(
        q.starts_with("query P($lang: String, $gqlfreez_cursor_0: String)"),
        "{q}"
    );
}

#[test]
fn anonymous_operation_with_keyword() {
    let a = an("query { posts { nodes { t } } }");
    let q = a.page_one(100);
    assert!(q.starts_with("query($gqlfreez_cursor_0: String)"), "{q}");
}

#[test]
fn aliases_are_followed() {
    let a = an(
        "{ myPosts: posts { items: nodes { t } info: pageInfo { hasNextPage endCursor } } }",
    );
    let c = &a.connections[0];
    assert_eq!(c.path, vec!["myPosts".to_string()]);
    assert_eq!(c.lists[0].1, "items");
    assert_eq!(c.page_info_key.as_deref(), Some("info"));
}

#[test]
fn nested_connection_keeps_ancestor_path() {
    let a = an(r#"{ repository(owner: "x", name: "y") { issues { nodes { title } } } }"#);
    let c = &a.connections[0];
    assert_eq!(c.path, vec!["repository".to_string(), "issues".to_string()]);
    let d = a.derived(0, 100);
    assert!(d.contains(r#"repository(owner: "x", name: "y")"#), "{d}");
    assert!(
        d.contains("issues(first: 100, after: $gqlfreez_cursor_0)"),
        "{d}"
    );
    assert!(
        d.starts_with("query gqlfreez($gqlfreez_cursor_0: String)"),
        "{d}"
    );
}

#[test]
fn two_connections_get_distinct_variables() {
    let a = an("{ posts { nodes { t } } pages { nodes { t } } }");
    assert_eq!(a.connections.len(), 2);
    let q = a.page_one(100);
    assert!(
        q.contains("$gqlfreez_cursor_0: String, $gqlfreez_cursor_1: String"),
        "{q}"
    );
    assert!(
        q.contains("posts(first: 100, after: $gqlfreez_cursor_0)"),
        "{q}"
    );
    assert!(
        q.contains("pages(first: 100, after: $gqlfreez_cursor_1)"),
        "{q}"
    );
}

#[test]
fn derived_query_holds_only_its_connection() {
    let a = an("{ posts { nodes { t } } pages { nodes { t } } }");
    let d = a.derived(1, 100);
    assert!(d.contains("pages(first: 100"), "{d}");
    assert!(!d.contains("posts"), "{d}");
    assert!(d.contains("$gqlfreez_cursor_1"), "{d}");
}

#[test]
fn field_without_nodes_is_not_a_connection() {
    let a = an("{ user { name } }");
    assert!(a.connections.is_empty());
}

#[test]
fn directives_keep_arguments_before_them() {
    let a = an("{ posts @include(if: true) { nodes { t } } }");
    let q = a.page_one(100);
    assert!(
        q.contains("posts(first: 100, after: $gqlfreez_cursor_0) @include"),
        "{q}"
    );
}

#[test]
fn syntax_error_is_reported_not_skipped() {
    let e = analyze("{ posts { nodes { t } } ", "t.graphql").unwrap_err();
    assert!(e.line().contains("syntax error"), "{}", e.line());
}

#[test]
fn fragments_only_is_not_an_operation() {
    let a = an("fragment F on Query { posts { nodes { t } } }");
    assert_eq!(a.kind, Kind::FragmentsOnly);
}

#[test]
fn fragment_spread_is_refused() {
    let e = analyze("{ posts { ...Conn } }", "t.graphql").unwrap_err();
    assert!(e.line().contains("fragment"), "{}", e.line());
}

#[test]
fn several_operations_are_refused() {
    let e = analyze("query A { a } query B { b }", "t.graphql").unwrap_err();
    assert!(e.line().contains("2 operations"), "{}", e.line());
}

#[test]
fn cursor_name_collision_is_avoided() {
    let a = an("query P($gqlfreez_cursor_0: Int) { posts { nodes { t } } }");
    let q = a.page_one(100);
    assert!(q.contains("$gqlfreez_cursor_0_: String"), "{q}");
}

#[test]
fn comments_and_formatting_survive() {
    let src = "# keep me\n{\n  posts {\n    nodes { title }\n  }\n}\n";
    let q = an(src).page_one(100);
    assert!(q.starts_with("# keep me\n"), "{q}");
    assert!(q.contains("\n  posts(first: 100"), "{q}");
}

#[test]
fn limited_connection_is_left_alone_beside_another() {
    let src = "{ a(first: 2) { nodes { x } } b { nodes { y } } }";
    let a = an(src);
    let q = a.page_one(10);
    assert!(q.contains("a(first: 2) { nodes { x } }"), "{q}");
    assert_eq!(
        q,
        "query gqlfreez($gqlfreez_cursor_1: String) { a(first: 2) { nodes { x } } b(first: 10, after: $gqlfreez_cursor_1) { pageInfo { hasNextPage endCursor } nodes { y } } }"
    );
    let paginated = a.paginated();
    assert_eq!(paginated.len(), 1);
    assert_eq!(paginated[0].0, 1);
    assert_eq!(paginated[0].1.path, vec!["b".to_string()]);
}

#[test]
fn what_is_written_out_is_sent_as_it_is() {
    let query = "query P($c: String) { posts(first: 9, after: $c) { nodes { t } pageInfo { hasNextPage endCursor } } }";
    let a = an(query);
    assert!(a.connections[0].paginate);
    assert_eq!(a.page_one(50), query);
}

#[test]
fn text_is_only_added() {
    for query in [
        "{ posts { nodes { t } } }",
        "query P($a: Int) { x p: posts(a: $a, b: \"é\") { edges { t } pageInfo { endCursor } } # end\n y { nodes } }",
    ] {
        let sent = an(query).page_one(7);
        let mut rest = sent.chars();
        for c in query.chars() {
            assert!(rest.any(|d| d == c), "{sent}");
        }
    }
}

#[test]
fn every_auto_is_replaced() {
    let a = an("{ posts(first: auto, last: auto) { nodes { t } } }");
    assert_eq!(
        a.page_one(7),
        "query gqlfreez($gqlfreez_cursor_0: String) { posts(first: 7, last: 7, after: $gqlfreez_cursor_0) { pageInfo { hasNextPage endCursor } nodes { t } } }"
    );
}

#[test]
fn connection_behind_a_list_is_refused() {
    let e = analyze("{ posts { nodes { comments { nodes { t } } } } }", "t.graphql").unwrap_err();
    assert_eq!(
        e.line(),
        "t.graphql: posts.nodes: a list sits on the path to this connection — gqlfreez cannot paginate a connection nested inside a list"
    );
    let e = analyze(
        "{ blog { p: posts(first: 5) { l: edges { node { comments(first: auto) { nodes { t } } } } } } }",
        "t.graphql",
    )
    .unwrap_err();
    assert!(e.line().contains("blog.p.l: a list sits on the path"), "{}", e.line());
}

#[test]
fn connection_inside_another_is_refused() {
    let nested = "t.graphql: posts: a connection sits inside this one — gqlfreez cannot paginate a connection nested inside another; give the inner one a limit";
    for query in [
        "{ posts { nodes { t } author { books { nodes { t } } } } }",
        "{ posts(first: 2) { nodes { t } related { edges { node { id } } } } }",
        "{ posts { nodes { t } author { books { ... on Books { nodes { t } } } } } }",
        "{ posts { nodes { t } author { books { ...B } } } } fragment B on Books { ...C } fragment C on Books { edges { t } }",
    ] {
        assert_eq!(analyze(query, "t.graphql").unwrap_err().line(), nested, "{query}");
    }
    let e = analyze("{ posts { nodes { comments { ... on C { nodes { t } } } } } }", "t.graphql");
    assert!(e.unwrap_err().line().contains("posts.nodes: a list sits on the path"));
    an("{ posts { nodes { t } author { books(first: 3) { nodes { t } } } } }");
    an("{ posts { nodes { ... on Post { t } } } }");
    assert_eq!(an("{ graphs { nodes { edges { from to } } } }").connections.len(), 1);
}

#[test]
fn a_limit_is_a_limit_through_fragments_too() {
    for query in [
        "{ posts(first: 2) { nodes { t } ... on Posts { all: nodes { t } } } }",
        "{ posts(first: 2) { nodes { t } ...P } } fragment P on Posts { all: edges { t } }",
        "{ posts { nodes { labels(first: 5) { ...L } } } } fragment L on LabelConnection { nodes { name } }",
        "{ posts { nodes { labels(first: 5) { ... on L { nodes { name } } } } } }",
        "{ posts { nodes { ...F } } } fragment F on Post { t } fragment G on Post { comments { nodes { t } } }",
        "{ posts { nodes { ...F } } } fragment F on Post { ...F labels(last: 1) { nodes { t } } }",
        "{ posts { nodes { t } ... on Posts { nodes { u } } } }",
    ] {
        let a = an(query);
        assert_eq!(a.connections.len(), 1, "{query}");
        assert_eq!(a.connections[0].path, vec!["posts".to_string()]);
    }
}

#[test]
fn another_list_in_a_fragment_is_refused_where_pages_are_walked() {
    for query in [
        "{ r { posts { nodes { t } ... on Posts { all: nodes { t } } } } }",
        "{ r { posts(last: auto) { nodes { t } ...P } } } fragment P on Posts { ... on Posts { edges { t } } }",
    ] {
        assert_eq!(
            analyze(query, "t.graphql").unwrap_err().line(),
            "t.graphql: r.posts: a fragment selects another list of this connection — gqlfreez cannot yet read a connection through a fragment; inline it for now",
            "{query}"
        );
    }
}

#[test]
fn fragment_with_a_connection_is_refused_inside_another() {
    let message = "t.graphql: fragment spread `...F` — gqlfreez cannot yet read a connection through a fragment; inline it for now";
    for query in [
        "{ posts { nodes { ...F } } } fragment F on Post { comments { nodes { t } } }",
        "{ posts { nodes { ...F } } } fragment F on Post { comments { ...C } } fragment C on Comments { nodes { t } }",
        "{ posts(first: 1) { edges { node { ...F } } } } fragment F on Post { ...G } fragment G on Post { comments { nodes { t } } }",
    ] {
        assert_eq!(analyze(query, "t.graphql").unwrap_err().line(), message, "{query}");
    }
    let e = analyze(
        "{ posts { nodes { comments { ...F } } } } fragment F on Comments { nodes { t } }",
        "t.graphql",
    );
    assert!(e.unwrap_err().line().contains("posts.nodes: a list sits on the path"));
    let a = an("{ posts(first: 1) { nodes { ...F } } } fragment F on Post { t }");
    assert_eq!(a.connections.len(), 1);
}

#[test]
fn auto_is_refused_where_nothing_is_paginated() {
    for (query, argument) in [
        ("{ posts(first: auto) { items { t } } }", "first: auto"),
        ("{ posts(last: auto) }", "last: auto"),
        ("{ user(first: auto) { posts { nodes { t } } } }", "first: auto"),
        ("{ posts { nodes { tags(first: auto) { name } } } }", "first: auto"),
        ("{ a } fragment F on T { tags(first:auto) { name } }", "first:auto"),
    ] {
        assert_eq!(
            analyze(query, "t.graphql").unwrap_err().line(),
            format!("t.graphql: `{argument}` — `auto` stands for the page size of a connection that gqlfreez paginates; write a number here"),
            "{query}"
        );
    }
    an("{ posts(sort: auto) { items { t } } }");
}

#[test]
fn what_page_info_lacks_is_added() {
    for (info, asked) in [
        ("pageInfo { endCursor }", "pageInfo { hasNextPage endCursor }"),
        ("pageInfo { hasNextPage }", "pageInfo { endCursor hasNextPage }"),
        ("p: pageInfo { total }", "p: pageInfo { hasNextPage endCursor total }"),
        (
            "pageInfo { more: hasNextPage endCursor }",
            "pageInfo { hasNextPage more: hasNextPage endCursor }",
        ),
        (
            "pageInfo { hasNextPage @skip(if: $s) endCursor }",
            "pageInfo { hasNextPage hasNextPage @skip(if: $s) endCursor }",
        ),
        ("pageInfo { endCursor hasNextPage }", "pageInfo { endCursor hasNextPage }"),
        ("pageInfo @live { endCursor }", "pageInfo @live { hasNextPage endCursor }"),
        (
            "pageInfo @include(if: true) @skip( if : false ) { hasNextPage @live endCursor }",
            "pageInfo @include(if: true) @skip( if : false ) { hasNextPage @live endCursor }",
        ),
        (
            "pageInfo { hasNextPage endCursor } pageInfo @skip(if: $s) { total }",
            "pageInfo { hasNextPage endCursor } pageInfo @skip(if: $s) { total }",
        ),
        ("pageInfo", "pageInfo"),
    ] {
        let a = an(&format!("{{ posts {{ nodes {{ t }} {info} }} }}"));
        assert_eq!(
            a.page_one(5),
            format!("query gqlfreez($gqlfreez_cursor_0: String) {{ posts(first: 5, after: $gqlfreez_cursor_0) {{ nodes {{ t }} {asked} }} }}")
        );
        assert_eq!(a.derived(0, 5), a.page_one(5));
    }
}

#[test]
fn page_info_has_to_come_back() {
    for directive in ["@skip(if: true)", "@include(if: false)", "@skip(if: $s)", "@live @include(if: $s)", "@skip"] {
        let query = format!("{{ r {{ posts {{ nodes {{ t }} pageInfo {directive} {{ hasNextPage endCursor }} }} }} }}");
        assert_eq!(
            analyze(&query, "t.graphql").unwrap_err().line(),
            "t.graphql: r.posts: `pageInfo` has to come back with every page — take @skip or @include off it",
            "{query}"
        );
    }
    an("{ posts(first: 2) { nodes { t } pageInfo @skip(if: true) { endCursor } } }");
}

#[test]
fn limited_connection_behind_a_list_is_accepted() {
    let a = an("{ posts { nodes { comments(first: 3) { nodes { t } } } } }");
    assert_eq!(a.connections.len(), 1);
    assert_eq!(a.connections[0].path, vec!["posts".to_string()]);
}

#[test]
fn derived_query_is_exact() {
    let a = an("{ shop { catalog(x: 1) { items @live { edges { node { id } } } } } }");
    assert_eq!(
        a.derived(0, 50),
        "query gqlfreez($gqlfreez_cursor_0: String) { shop { catalog(x: 1) { items(first: 50, after: $gqlfreez_cursor_0) @live { pageInfo { hasNextPage endCursor } edges { node { id } } } } } }"
    );
    assert_eq!(a.connections[0].lists[0].0, ListField::Edges);
}

#[test]
fn user_cursor_is_sent_in_derived_queries() {
    let a = an("query P($cursor: String) { posts(first: 100, after: $cursor) { nodes { t } } }");
    assert_eq!(a.cursor_var(0), "cursor");
    assert_eq!(
        a.derived(0, 100),
        "query gqlfreez($cursor: String) { posts(first: 100, after: $cursor) { pageInfo { hasNextPage endCursor } nodes { t } } }"
    );
}

#[test]
fn accents_do_not_move_the_edits() {
    let a = an("# déjà vu — ✓\n{ posts(where: \"é\") { nodes { t } } }");
    assert_eq!(
        a.page_one(3),
        "# déjà vu — ✓\nquery gqlfreez($gqlfreez_cursor_0: String) { posts(where: \"é\", first: 3, after: $gqlfreez_cursor_0) { pageInfo { hasNextPage endCursor } nodes { t } } }"
    );
}

#[test]
fn empty_document_is_empty() {
    let a = an("scalar Nothing\n");
    assert_eq!(a.kind, Kind::Empty);
    assert!(a.connections.is_empty());
    assert_eq!(a.page_one(10), "scalar Nothing\n");
}

#[test]
fn several_operations_are_named() {
    let e = analyze("query A { a } { b } query { c }", "t.graphql").unwrap_err();
    assert_eq!(
        e.line(),
        "t.graphql: this file holds 3 operations (A, <anonymous>, <anonymous>) — gqlfreez expects one operation per file"
    );
}

#[test]
fn fragments_are_named_where_they_are_refused() {
    let e = analyze("{ posts { ...Conn } }", "t.graphql").unwrap_err();
    assert_eq!(
        e.line(),
        "t.graphql: fragment spread `...Conn` — gqlfreez cannot yet read a connection through a fragment; inline it for now"
    );
    let e = analyze("{ posts { ... on Query { a } } }", "t.graphql").unwrap_err();
    assert_eq!(
        e.line(),
        "t.graphql: inline fragment — gqlfreez cannot yet read a connection through a fragment; inline it for now"
    );
}

#[test]
fn place_of_the_variables() {
    assert!(matches!(an("query P($a: Int) { x }").var_insert, Some(VarInsert::Extend(15))));
    assert!(matches!(an("query P { x }").var_insert, Some(VarInsert::After(7))));
    assert!(matches!(an("query { x }").var_insert, Some(VarInsert::After(5))));
    assert!(matches!(an(" { x }").var_insert, Some(VarInsert::Shorthand(1))));
    assert_eq!(an("query P { x }").operation_name.as_deref(), Some("P"));
}
