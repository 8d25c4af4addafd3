use gqlfreez::discover::{find, glob_fault, patterns, walk_fault};
use gqlfreez::path::{comes_before, extension, file_name, with_extension};

fn names(list: &[&str]) -> Vec<String> {
    list.iter().map(|s| s.to_string()).collect()
}

#[test]
fn finds_graphql_and_gql_sorted() {
    let found = find(names(&["b.graphql", "a.gql", "sub/c.graphql"])).unwrap();
    let sources: Vec<String> = found.iter().map(|q| q.source.clone()).collect();
    assert_eq!(sources, vec!["a.gql", "b.graphql", "sub/c.graphql"]);
    assert!(found[0].output.ends_with("a.json"));
}

#[test]
fn node_modules_is_never_walked() {
    let mut builder = ignore::overrides::OverrideBuilder::new("/d");
    for pattern in patterns("**/*.{graphql,gql}").unwrap() {
        builder.add(&pattern).unwrap();
    }
    let overrides = builder.build().unwrap();
    let found: Vec<&str> = ["/d/ok.graphql", "/d/node_modules/pkg/bad.graphql"]
        .into_iter()
        .filter(|p| overrides.matched(p, false).is_whitelist())
        .collect();
    assert_eq!(found.len(), 1, "{found:?}");
}

#[test]
fn output_collision_is_refused() {
    let e = find(names(&["x.graphql", "x.gql"])).unwrap_err();
    assert!(e.line().contains("both write to"), "{}", e.line());
    assert_eq!(
        e.line(),
        "config: x.gql and x.graphql both write to x.json — rename one of them"
    );
}

#[test]
fn collisions_ignore_case() {
    let e = find(names(&["d/X.gql", "d/a.gql", "d/x.gql"])).unwrap_err();
    assert_eq!(
        e.line(),
        "config: d/X.gql and d/x.gql both write to d/x.json — rename one of them"
    );
    let e = find(names(&["É.gql", "é.gql"])).unwrap_err();
    assert!(e.line().contains("both write to"), "{}", e.line());
}

#[test]
fn the_order_of_the_walk_makes_no_difference() {
    let one = find(names(&["/r/b/a.gql", "/r/b.gql", "/r/a/z.gql"])).unwrap();
    let two = find(names(&["/r/a/z.gql", "/r/b.gql", "/r/b/a.gql"])).unwrap();
    let sources = |qs: Vec<gqlfreez::discover::Query>| -> Vec<String> {
        qs.into_iter().map(|q| q.source).collect()
    };
    let first = sources(one);
    assert_eq!(first, sources(two));
    assert_eq!(first, vec!["/r/a/z.gql", "/r/b/a.gql", "/r/b.gql"]);
}

#[test]
fn a_broken_glob_is_refused() {
    let e = patterns("a{b").unwrap_err();
    assert!(e.line().starts_with("config: invalid glob \"a{b\": "), "{}", e.line());
    let list = patterns("*.gql").unwrap();
    assert_eq!(list.len(), 10);
    assert_eq!(list[0], "*.gql");
    assert_eq!(list[9], "!**/vendor/**");
    assert_eq!(glob_fault("x", "why").line(), "config: invalid glob \"x\": why");
    assert_eq!(walk_fault("/r", "why").line(), "config: walking /r: why");
}

#[test]
fn paths_are_taken_apart_like_the_system_does() {
    for p in [
        "a.graphql", "a/b.c.gql", ".hidden", "a/.hidden.gql", "a", "a/", "a/.", "..", "/", "", ".", "a/..", "x.", "/r//s/./t.gql", "./a.b",
    ] {
        let std = std::path::Path::new(p);
        assert_eq!(with_extension(p, "json"), std.with_extension("json").to_string_lossy(), "{p}");
        assert_eq!(file_name(p), std.file_name().map(|n| n.to_string_lossy().into_owned()), "{p}");
        assert_eq!(extension(p), std.extension().map(|n| n.to_string_lossy().into_owned()), "{p}");
    }
}

#[test]
fn paths_are_ordered_like_the_system_does() {
    let all = ["a", "a/b", "a.b", "a/../b", "./a", "/a", "/", "", "a//b", "a/./b", "b", "é", "..", "../a", "a b"];
    for p in all {
        for q in all {
            assert_eq!(
                comes_before(p, q),
                std::path::Path::new(p) < std::path::Path::new(q),
                "{p} {q}"
            );
        }
    }
}
