use gqlfreez::config::{
    choose_format, discover, flatten_projects, interpolate, resolve, schema_url, Directory,
    Documents, Endpoint, Extensions, Format, GraphqlConfig, Resolved, Schema, SchemaOptions,
};

fn pair(a: &str, b: &str) -> (String, String) {
    (a.to_string(), b.to_string())
}

fn plain(schema: Option<Schema>, endpoints: Vec<(String, Endpoint)>) -> GraphqlConfig {
    GraphqlConfig { schema, documents: None, extensions: Extensions { endpoints }, projects: None }
}

#[test]
fn interpolation_handles_defaults_and_escapes() {
    let env = vec![pair("GQLFREEZ_TEST_TOKEN", "secret")];
    let p = "c.yml";
    assert_eq!(
        interpolate("a ${GQLFREEZ_TEST_TOKEN} b", p, &env).unwrap(),
        "a secret b"
    );
    assert_eq!(
        interpolate("${GQLFREEZ_NOPE:fallback}", p, &env).unwrap(),
        "fallback"
    );
    assert_eq!(interpolate(r"\${LITERAL}", p, &env).unwrap(), "${LITERAL}");
}

#[test]
fn missing_variable_names_itself() {
    let e = interpolate("${GQLFREEZ_ABSENT_VAR}", "c.yml", &vec![]).unwrap_err();
    assert!(e.line().contains("GQLFREEZ_ABSENT_VAR"), "{}", e.line());
}

#[test]
fn missing_variable_is_reported_with_its_line() {
    let e = interpolate("a: 1\nb: ${ NOPE }", "c.yml", &vec![pair("X", "y")]).unwrap_err();
    assert_eq!(
        e.line(),
        "config: c.yml:2: ${NOPE} is not set in the environment.\nSet it, add it to .env / .env.local, or give it a default with ${NOPE:value}."
    );
}

#[test]
fn what_is_no_reference_stays() {
    let env = vec![pair("V", "${V}")];
    assert_eq!(interpolate("no dollar \\ here", "c", &env).unwrap(), "no dollar \\ here");
    assert_eq!(interpolate("$V ${V", "c", &env).unwrap(), "$V ${V");
    assert_eq!(interpolate("${V}", "c", &env).unwrap(), "${V}");
    assert_eq!(interpolate("${ V :x:y}${W: a:b }", "c", &env).unwrap(), "${V} a:b ");
}

#[test]
fn schema_with_headers_yields_endpoint() {
    let cfg = plain(
        Some(Schema::List(vec![Schema::WithHeaders(vec![(
            "https://example.com/graphql".to_string(),
            SchemaOptions { headers: vec![pair("Authorization", "Bearer x")] },
        )])])),
        vec![],
    );
    let r = resolve(cfg, "c.yml");
    assert_eq!(r.endpoint.as_deref(), Some("https://example.com/graphql"));
    assert_eq!(r.headers, vec![("Authorization".into(), "Bearer x".into())]);
    assert_eq!(r.origin.as_deref(), Some("c.yml"));
}

#[test]
fn endpoints_extension_wins_over_schema() {
    let cfg = plain(
        Some(Schema::Url("https://from-schema/graphql".to_string())),
        vec![(
            "default".to_string(),
            Endpoint::Full { url: "https://from-endpoints/graphql".to_string(), headers: vec![] },
        )],
    );
    let r = resolve(cfg, "c.yml");
    assert_eq!(
        r.endpoint.as_deref(),
        Some("https://from-endpoints/graphql")
    );
}

#[test]
fn local_schema_file_is_not_an_endpoint() {
    let cfg = plain(Some(Schema::Url("./schema.graphql".to_string())), vec![]);
    assert!(resolve(cfg, "c.yml").endpoint.is_none());
}

#[test]
fn default_endpoint_wins_and_the_first_stands_in() {
    let url = |s: &str| Endpoint::Url(s.to_string());
    let cfg = plain(None, vec![("a".to_string(), url("http://a")), ("default".to_string(), url("http://d"))]);
    assert_eq!(resolve(cfg, "c").endpoint.as_deref(), Some("http://d"));
    let cfg = plain(None, vec![("a".to_string(), url("http://a")), ("b".to_string(), url("http://b"))]);
    let r = resolve(cfg, "c");
    assert_eq!(r.endpoint.as_deref(), Some("http://a"));
    assert!(r.headers.is_empty());
}

#[test]
fn the_first_url_of_a_schema_counts() {
    let s = Schema::List(vec![
        Schema::Url("./local.graphql".to_string()),
        Schema::List(vec![Schema::Url("http://one".to_string())]),
        Schema::Url("https://two".to_string()),
    ]);
    assert_eq!(schema_url(&s), Some(("http://one".to_string(), vec![])));
    assert_eq!(schema_url(&Schema::List(vec![])), None);
}

#[test]
fn documents_are_the_first_ones() {
    let mut cfg = plain(None, vec![]);
    cfg.documents = Some(Documents::Many(vec!["a/**".to_string(), "b/**".to_string()]));
    assert_eq!(resolve(cfg, "c").documents.as_deref(), Some("a/**"));
    let mut cfg = plain(None, vec![]);
    cfg.documents = Some(Documents::One("x".to_string()));
    assert_eq!(resolve(cfg, "c").documents.as_deref(), Some("x"));
    let none = Resolved::default();
    assert!(none.endpoint.is_none() && none.documents.is_none() && none.origin.is_none());
}

#[test]
fn one_project_or_a_default_one_is_accepted() {
    let named = |n: &str| (n.to_string(), plain(Some(Schema::Url(n.to_string())), vec![]));
    let with = |ps: Vec<(String, GraphqlConfig)>| GraphqlConfig {
        schema: None,
        documents: None,
        extensions: Extensions { endpoints: vec![] },
        projects: Some(ps),
    };
    let schema = |c: GraphqlConfig| match c.schema {
        Some(Schema::Url(u)) => u,
        _ => String::new(),
    };
    assert_eq!(schema(flatten_projects(with(vec![named("only")]), "c").unwrap()), "only");
    assert_eq!(
        schema(flatten_projects(with(vec![named("a"), named("default")]), "c").unwrap()),
        "default"
    );
    assert_eq!(
        flatten_projects(with(vec![named("a"), named("b")]), "c.yml").unwrap_err().line(),
        "config: c.yml: multi-project configs are not supported yet (2 projects). Pass --endpoint, or keep a single project."
    );
    assert_eq!(schema(flatten_projects(named("flat").1, "c").unwrap()), "flat");
}

fn dir(path: &str, files: &[&str]) -> Directory {
    Directory { path: path.to_string(), files: files.iter().map(|f| f.to_string()).collect() }
}

#[test]
fn the_innermost_config_file_is_found() {
    let dirs = vec![dir("/a/b", &["x"]), dir("/a", &[".graphqlrc.yml"]), dir("/", &[".graphqlrc"])];
    assert_eq!(discover(&dirs).unwrap(), Some((1, ".graphqlrc.yml".to_string())));
    assert_eq!(discover(&vec![dir("/", &[])]).unwrap(), None);
}

#[test]
fn several_config_files_are_refused() {
    let e = discover(&vec![dir("/a", &[".graphqlrc", "graphql.config.toml"])]).unwrap_err();
    assert_eq!(
        e.line(),
        "config: found several config files in /a: graphql.config.toml, .graphqlrc — keep only one"
    );
}

#[test]
fn scripts_are_refused_plainly() {
    let e = discover(&vec![dir("/a", &["graphql.config.ts"])]).unwrap_err();
    assert_eq!(
        e.line(),
        "config: found graphql.config.ts in /a, which gqlfreez cannot evaluate (it is a binary, not a JS runtime).\nUse a declarative config instead: graphql.config.toml, graphql.config.yaml, graphql.config.yml, graphql.config.json, .graphqlrc.toml, .graphqlrc.yaml, .graphqlrc.yml, .graphqlrc.json, .graphqlrc.\nOr pass --endpoint directly."
    );
    let dirs = vec![dir("/a", &["graphql.config.ts", ".graphqlrc.json"])];
    assert_eq!(discover(&dirs).unwrap(), Some((0, ".graphqlrc.json".to_string())));
}

#[test]
fn the_format_follows_the_name() {
    assert_eq!(choose_format("/x/.graphqlrc.toml", "{"), Format::Toml);
    assert_eq!(choose_format("graphql.config.json", ""), Format::Json);
    assert_eq!(choose_format("/x/.graphqlrc", "\n  { \"schema\": 1 }"), Format::Json);
    assert_eq!(choose_format("/x/.graphqlrc", "schema: x"), Format::Yaml);
    assert_eq!(choose_format("/x/.graphqlrc.yml", "{ a: b }"), Format::Yaml);
}
