use gqlfreez::json::Json;
use gqlfreez::output::{
    commit, discard, render, stage, sweep_temporaries, temp_for, Staged,
};

fn num(n: i64) -> Json {
    Json::Number(serde_json::Number::from(n))
}

fn obj(entries: Vec<(&str, Json)>) -> Json {
    Json::Object(entries.into_iter().map(|(k, v)| (k.to_string(), v)).collect())
}

fn text(s: &str) -> Json {
    Json::Text(s.to_string())
}

#[test]
fn keys_are_sorted_and_file_ends_with_newline() {
    let out = render(&obj(vec![("b", num(1)), ("a", obj(vec![("d", num(2)), ("c", num(3))]))]));
    assert_eq!(
        out,
        "{\n  \"a\": {\n    \"c\": 3,\n    \"d\": 2\n  },\n  \"b\": 1\n}\n"
    );
}

#[test]
fn identical_content_is_not_rewritten() {
    let p = "x.json";
    let body = render(&obj(vec![("a", num(1))]));
    assert_eq!(stage(None, &body), Staged::Ready);
    assert_eq!(
        commit(p, true),
        Some(("x.json.gqlfreez-tmp".to_string(), "x.json".to_string()))
    );
    assert_eq!(stage(Some(&body), &body), Staged::Unchanged);
    assert_eq!(stage(Some(&body), &render(&obj(vec![("a", num(2))]))), Staged::Ready);
    assert_eq!(commit(p, false), None);
}

#[test]
fn crlf_on_disk_does_not_force_a_rewrite() {
    let body = render(&obj(vec![("a", num(1))]));
    let on_disk = body.replace('\n', "\r\n");
    assert_ne!(on_disk, body);
    assert_eq!(stage(Some(&on_disk), &body), Staged::Unchanged);
}

#[test]
fn line_breaks_in_strings_survive_crlf() {
    let body = render(&obj(vec![("a\nb", text("one\ntwo\r\n")), ("c", Json::Array(vec![]))]));
    let on_disk = body.replace('\n', "\r\n");
    assert_eq!(stage(Some(&on_disk), &body), Staged::Unchanged);
}

#[test]
fn what_is_not_json_is_rewritten() {
    let body = render(&obj(vec![("a", num(1))]));
    assert_eq!(stage(Some("not json"), &body), Staged::Ready);
    assert_eq!(stage(Some(""), &body), Staged::Ready);
    assert_eq!(stage(Some("{\"a\": 1.0}"), &body), Staged::Ready);
    assert_eq!(stage(Some("{\"a\":1}"), &body), Staged::Unchanged);
}

#[test]
fn what_cannot_be_read_back_is_written_again() {
    let mut deep = num(1);
    for _ in 0..200 {
        deep = Json::Array(vec![deep]);
    }
    let body = render(&deep);
    assert_eq!(stage(Some(&body), &body), Staged::Ready);
}

#[test]
fn rendered_text_is_read_back() {
    let number = |s: &str| Json::read(s).expect("JSON");
    let v = obj(vec![
        ("z", number("18446744073709551615")),
        ("y", Json::Array(vec![number("-9223372036854775808"), num(0), Json::Null])),
        ("a\u{0}\u{7f}\"\\", text("é\u{1f600}\n\t\u{2028}")),
        ("b", obj(vec![("q", Json::Bool(true)), ("p", Json::Array(vec![]))])),
        ("c", obj(vec![])),
    ]);
    assert!(v.reads_back());
    let body = render(&v);
    assert!(body.ends_with('\n'));
    let back = Json::read(&body).expect("JSON");
    assert!(back.agrees(&v.sorted()));
    assert_eq!(back.write(), v.write());
}

#[test]
fn deep_values_are_read_back_up_to_a_limit() {
    let mut v = num(1);
    for _ in 0..127 {
        v = Json::Array(vec![v]);
    }
    assert!(v.reads_back());
    assert!(Json::read(&render(&v)).expect("JSON").agrees(&v));
    v = obj(vec![("a", v)]);
    assert!(!v.reads_back());
    assert!(Json::read(&render(&v)).is_none());
    assert!(!Json::read("[1.5]").expect("JSON").reads_back());
}

#[test]
fn fractions_that_come_back_alone_come_back_in_a_file() {
    let read = |s: &str| Json::read(s).expect("JSON");
    for n in ["1.5", "-0.0", "0.1", "1e300", "123456789.125", "5e-324"] {
        let alone = read(n);
        assert!(read(&alone.write()).agrees(&alone), "{n}");
        let v = obj(vec![("b", Json::Array(vec![read(n), num(2)])), ("a", read(n))]);
        let body = render(&v);
        assert!(read(&body).agrees(&v.sorted()), "{body}");
        assert_eq!(stage(Some(&body), &body), Staged::Unchanged);
    }
}

#[test]
fn key_order_makes_no_difference() {
    let a = obj(vec![("x", num(1)), ("y", Json::Array(vec![obj(vec![("q", Json::Null), ("p", Json::Bool(true))])]))]);
    let b = obj(vec![("y", Json::Array(vec![obj(vec![("p", Json::Bool(true)), ("q", Json::Null)])])), ("x", num(1))]);
    assert_eq!(render(&a), render(&b));
    assert_eq!(a.write(), "{\"x\":1,\"y\":[{\"p\":true,\"q\":null}]}");
    assert_eq!(a.sorted().sorted().write(), a.sorted().write());
}

#[test]
fn the_first_of_two_entries_counts() {
    let v = obj(vec![("k", num(1)), ("k", num(2))]);
    assert_eq!(v.write(), "{\"k\":1}");
    assert_eq!(v.field("k").map(|n| n.write()), Some("1".to_string()));
    assert!(v.remove_field("k").field("k").is_none());
}

#[test]
fn reading_gives_back_what_was_written() {
    let v = obj(vec![
        ("b", Json::Array(vec![num(-3), text("é\n"), Json::Null])),
        ("a", Json::Bool(false)),
    ]);
    let back = Json::read(&v.write()).expect("JSON");
    assert!(back.agrees(&v.sorted()));
    assert!(!back.agrees(&num(1)));
    assert!(Json::read("{").is_none());
    assert_eq!(Json::read("{\"b\":1,\"a\":2}").map(|v| v.write()), Some("{\"a\":2,\"b\":1}".to_string()));
}

#[test]
fn values_are_compared_in_depth() {
    let read = |s: &str| Json::read(s).expect("JSON");
    assert!(read("[1, {\"a\": [true]}]").agrees(&read("[1,{\"a\":[true]}]")));
    assert!(!read("[1]").agrees(&read("[1,2]")));
    assert!(!read("{\"a\":1}").agrees(&read("{\"b\":1}")));
    assert!(!read("{\"a\":1}").agrees(&read("{\"a\":\"1\"}")));
    assert!(read("-0.0").agrees(&read("0.0")));
    assert!(!read("1").agrees(&read("2")));
}

#[test]
fn temporaries_stand_next_to_the_output() {
    assert_eq!(temp_for("a/b.json"), "a/b.json.gqlfreez-tmp");
    assert_eq!(discard("a/b.json"), "a/b.json.gqlfreez-tmp");
    assert_eq!(
        sweep_temporaries(&vec!["a.json".to_string(), "d/b.json".to_string()]),
        vec!["a.json.gqlfreez-tmp".to_string(), "d/b.json.gqlfreez-tmp".to_string()]
    );
}
