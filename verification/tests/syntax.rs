//! How the nodes of a tree lie in its source, on many sources.

use apollo_parser::cst::CstNode;
use gqlfreez::query::analyze;

struct Node {
    kind: String,
    depth: usize,
    start: usize,
    end: usize,
}

fn nodes(source: &str) -> Option<Vec<Node>> {
    let tree = apollo_parser::Parser::new(source).parse();
    if tree.errors().next().is_some() {
        return None;
    }
    Some(
        tree.document()
            .syntax()
            .descendants()
            .map(|n| Node {
                kind: format!("{:?}", n.kind()),
                depth: n.ancestors().count(),
                start: usize::from(n.text_range().start()),
                end: usize::from(n.text_range().end()),
            })
            .collect(),
    )
}

fn bracketed(kind: &str) -> bool {
    kind == "ARGUMENTS" || kind == "VARIABLE_DEFINITIONS" || kind == "SELECTION_SET"
}

fn lies_in(source: &str, all: &[Node]) {
    for (i, n) in all.iter().enumerate() {
        assert!(n.start <= n.end && n.end <= source.len(), "{source}");
        assert!(source.is_char_boundary(n.start) && source.is_char_boundary(n.end), "{source}");
        if n.kind == "NAME" {
            assert!(n.start < n.end, "{source}");
        }
        if bracketed(&n.kind) {
            let text = &source[n.start..n.end];
            assert!(text.len() >= 2, "{source}: {text}");
            assert!(text.starts_with('(') || text.starts_with('{'), "{source}: {text}");
            assert!(text.ends_with(')') || text.ends_with('}'), "{source}: {text}");
        }
        let mut below = true;
        for m in &all[i + 1..] {
            below = below && m.depth > n.depth;
            if below {
                assert!(n.start <= m.start && m.end <= n.end, "{source}");
                if bracketed(&n.kind) {
                    assert!(n.start < m.start && m.end < n.end, "{source}");
                }
            } else {
                assert!(n.end <= m.start, "{source}");
            }
        }
    }
}

const DOCUMENTS: [&str; 9] = [
    "query Q($a: [Int!]! = [1], $b: T = {x: 1} @d) @e(f: \"s\") { x: y(a: $a, b: {c: [true, null, E]}) @i(if: $b) { z } }",
    "# é\n{ posts(first: auto, after: $c) { nodes { t } pageInfo { hasNextPage endCursor } } }",
    "{ a(b: \"\"\"block \"quoted\" é\"\"\") { b, c ,, d } } # end",
    "fragment F on T @d { a ... on U { b } ...G } query { a { ...F } }",
    "mutation M { query type on fragment mutation subscription input }",
    "subscription { a { b { c { d(e: -1.5e3) } } } }",
    "type T implements U & V @k(f: \"x\") { a(b: Int = 1): [T!]! } input I { a: Int } enum E { A B } union W = T | U",
    "extend schema @link(url: \"u\") { query: Q } scalar S directive @d(a: Int) repeatable on FIELD | QUERY",
    "{ repository(owner: \"x\", name: \"y\") { issues(last: auto) { edges { node { id } } } } }",
];

#[test]
fn nodes_lie_in_their_source() {
    for source in DOCUMENTS {
        let all = nodes(source).expect(source);
        lies_in(source, &all);
    }
}

#[test]
fn nodes_lie_in_whatever_is_left_of_a_source() {
    let mut accepted = 0;
    for source in DOCUMENTS {
        let cuts: Vec<usize> = (0..=source.len()).filter(|i| source.is_char_boundary(*i)).collect();
        for (k, from) in cuts.iter().enumerate() {
            for to in cuts[k..].iter().take(4).chain(cuts.last()) {
                let mut rest = source[..*from].to_string();
                rest.push_str(&source[*to..]);
                if let Some(all) = nodes(&rest) {
                    lies_in(&rest, &all);
                    accepted += 1;
                }
                if let Ok(a) = analyze(&rest, "f") {
                    assert!(a.page_one(5).len() >= a.source.len() - 3 * a.connections.len());
                    for i in 0..a.connections.len() {
                        assert!(a.derived(i, 5).starts_with("query gqlfreez($"));
                    }
                }
            }
        }
    }
    assert!(accepted > 100, "{accepted}");
}

#[test]
fn empty_brackets_and_deep_nesting() {
    for source in ["{ a() { b } }", "query () { a }", "query Q() { a }", "{ a {} }", "{}", "query Q {}"] {
        if let Some(all) = nodes(source) {
            lies_in(source, &all);
        }
    }
    let deep = format!("{}a{}", "{ a ".repeat(400), "}".repeat(400));
    if let Some(all) = nodes(&deep) {
        lies_in(&deep, &all);
    }
    let deeper = format!("{}a{}", "{ a ".repeat(600), "}".repeat(600));
    assert!(analyze(&deeper, "f").is_err());
}
