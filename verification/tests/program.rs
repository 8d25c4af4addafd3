use gqlfreez::cli::{
    answer, build_options, choose_level, refuse, refuse_options, Arguments, EXIT_CHANGED,
    EXIT_CONFIG, EXIT_FAILED, EXIT_OK,
};
use gqlfreez::config::Resolved;
use gqlfreez::defaults;
use gqlfreez::discover::Query;
use gqlfreez::engine::{announce, conclude, gather, plan, skipped, timed_out, Step};
use gqlfreez::query::Kind;
use gqlfreez::{Error, FileResult, Level, Logger, Options, Outcome};

fn arguments() -> Arguments {
    Arguments {
        endpoint: None,
        glob: defaults::GLOB.to_string(),
        headers: vec![],
        concurrency: defaults::CONCURRENCY,
        delay: defaults::DELAY,
        timeout: defaults::REQUEST_TIMEOUT,
        connect_timeout: defaults::CONNECT_TIMEOUT,
        file_timeout: defaults::FILE_TIMEOUT,
        retries: defaults::RETRIES,
        page_size: defaults::PAGE_SIZE,
        max_pages: defaults::MAX_PAGES,
        max_response_mb: 50,
        envelope: false,
        allow_partial: false,
        check: false,
        dry_run: false,
    }
}

fn build(args: &Arguments, config: Resolved) -> Result<Options, Error> {
    build_options(args, "/r".to_string(), Ok(config), Logger::default())
}

fn result(index: usize, outcome: Outcome) -> FileResult {
    FileResult {
        index,
        source: format!("q{index}.gql"),
        output: format!("q{index}.json"),
        outcome,
    }
}

#[test]
fn options_come_from_the_command_line_and_the_config() {
    let mut args = arguments();
    args.headers = vec!["X-A:  b: c ".to_string()];
    let config = Resolved {
        endpoint: Some("https://config".to_string()),
        headers: vec![("K".to_string(), "v".to_string())],
        documents: None,
        origin: None,
    };
    let o = build(&args, config).unwrap();
    assert_eq!(o.endpoint, "https://config");
    assert_eq!(
        o.headers,
        vec![("K".to_string(), "v".to_string()), ("X-A".to_string(), "b: c".to_string())]
    );
    assert_eq!(o.max_response_bytes, defaults::MAX_RESPONSE_BYTES);
    assert!(o.validate().is_ok());
    args.endpoint = Some("https://cli".to_string());
    let config = Resolved {
        endpoint: Some("https://config".to_string()),
        headers: vec![],
        documents: None,
        origin: None,
    };
    assert_eq!(build(&args, config).unwrap().endpoint, "https://cli");
}

#[test]
fn a_broken_config_does_not_matter_beside_an_endpoint() {
    let broken = || Err(Error::Config("found graphql.config.ts".to_string()));
    let mut args = arguments();
    let e = build_options(&args, "/r".to_string(), broken(), Logger::default()).unwrap_err();
    assert_eq!(e.line(), "config: found graphql.config.ts");
    args.endpoint = Some("https://example.com/graphql".to_string());
    let o = build_options(&args, "/r".to_string(), broken(), Logger::default()).unwrap();
    assert_eq!(o.endpoint, "https://example.com/graphql");
    assert!(o.headers.is_empty());
}

#[test]
fn a_header_without_a_colon_is_refused() {
    let mut args = arguments();
    args.headers = vec!["A: b".to_string(), "nope".to_string()];
    assert_eq!(
        build(&args, Resolved::default()).unwrap_err().line(),
        "config: --header expects \"Name: value\", got \"nope\""
    );
}

#[test]
fn senseless_options_are_refused() {
    let fault = |change: fn(&mut Options)| {
        let mut o = build(&arguments(), Resolved::default()).unwrap();
        o.endpoint = "http://x".to_string();
        change(&mut o);
        o.validate().map_err(|e| e.line())
    };
    assert_eq!(fault(|_| {}), Ok(()));
    assert_eq!(fault(|o| o.concurrency = 0), Err("config: --concurrency must be at least 1".to_string()));
    assert_eq!(fault(|o| o.page_size = 0), Err("config: --page-size must be at least 1".to_string()));
    assert_eq!(fault(|o| o.max_pages = 0), Err("config: --max-pages must be at least 1".to_string()));
    assert_eq!(
        fault(|o| o.endpoint = " \u{a0}".to_string()),
        Err("config: no GraphQL endpoint. Pass --endpoint, or set one in graphql-config (extensions.endpoints.default.url, or a schema URL).".to_string())
    );
    assert_eq!(
        fault(|o| o.endpoint = "ftp://\"x\"".to_string()),
        Err("config: the endpoint must be an http(s) URL, got \"ftp://\\\"x\\\"\"".to_string())
    );
}

#[test]
fn levels_decide_what_is_shown() {
    assert_eq!(choose_level(true, true, true), Level::Silent);
    assert_eq!(choose_level(false, true, true), Level::Quiet);
    assert_eq!(choose_level(false, false, true), Level::Verbose);
    assert_eq!(choose_level(false, false, false), Level::Standard);
    let shown = |level: Level| {
        let l = Logger::new(level, true);
        (l.warn("x").is_some(), l.status("x").is_some(), l.verbose("x").is_some())
    };
    assert_eq!(shown(Level::Silent), (false, false, false));
    assert_eq!(shown(Level::Quiet), (true, false, false));
    assert_eq!(shown(Level::Standard), (true, true, false));
    assert_eq!(shown(Level::Verbose), (true, true, true));
    assert_eq!(Logger::new(Level::Verbose, false).warn("x"), None);
    assert_eq!(Logger::default().status("line"), Some("line".to_string()));
}

#[test]
fn runs_are_announced() {
    assert_eq!(announce(1, "/r", "*").unwrap(), "Freezing 1 query…");
    assert_eq!(announce(12, "/r", "*").unwrap(), "Freezing 12 queries…");
    assert_eq!(
        announce(0, "/r", "*.\"gql\"").unwrap_err().line(),
        "config: no query file under /r matching \"*.\\\"gql\\\"\""
    );
}

#[test]
fn files_without_an_operation_are_skipped() {
    assert!(skipped(&Kind::Operation).is_none());
    match skipped(&Kind::FragmentsOnly) {
        Some(Outcome::Skipped { reason }) => assert_eq!(reason, "fragments only, no operation"),
        _ => panic!("not skipped"),
    }
    match skipped(&Kind::Empty) {
        Some(Outcome::Skipped { reason }) => assert_eq!(reason, "no definition"),
        _ => panic!("not skipped"),
    }
    assert_eq!(
        timed_out("f", 300).line(),
        "f: unusable server response: gave up after --file-timeout (300s)"
    );
}

#[test]
fn results_come_back_in_discovery_order() {
    let r = gather(
        &queries(3),
        vec![(2, Outcome::Unchanged), (0, Outcome::WouldChange), (1, Outcome::Frozen { pages: 1 })],
    );
    assert_eq!(r.iter().map(|r| r.index).collect::<Vec<_>>(), vec![0, 1, 2]);
    assert!(matches!(r[0].outcome, Outcome::WouldChange));
    assert!(matches!(r[1].outcome, Outcome::Frozen { pages: 1 }));
    assert!(matches!(r[2].outcome, Outcome::Unchanged));
    assert_eq!((r[1].source.as_str(), r[1].output.as_str()), ("q1.gql", "q1.json"));
    assert!(!r[0].is_failure());
    assert!(result(0, Outcome::Failed(Error::Config(String::new()))).is_failure());
}

fn queries(count: usize) -> Vec<Query> {
    (0..count)
        .map(|i| Query { source: format!("q{i}.gql"), output: format!("q{i}.json") })
        .collect()
}

#[test]
fn every_file_has_one_result() {
    let r = gather(&queries(3), vec![(1, Outcome::Failed(Error::Config(String::new())))]);
    assert_eq!(r.len(), 3);
    assert!(r[1].is_failure());
    for i in [0, 2] {
        match &r[i].outcome {
            Outcome::Skipped { reason } => {
                assert_eq!(reason, "not run, another file failed first")
            }
            o => panic!("{o:?}"),
        }
        assert_eq!(r[i].index, i);
    }
}

#[test]
fn what_is_dropped_is_not_called_frozen() {
    let failed = || {
        vec![
            result(0, Outcome::Frozen { pages: 1 }),
            result(1, Outcome::Failed(Error::Config(String::new()))),
            result(2, Outcome::Unchanged),
        ]
    };
    let mut results = failed();
    conclude(&mut results, false, false);
    assert!(matches!(results[0].outcome, Outcome::WouldChange));
    assert!(results[1].is_failure());
    assert!(matches!(results[2].outcome, Outcome::Unchanged));
    let mut fine = vec![result(0, Outcome::Frozen { pages: 2 })];
    conclude(&mut fine, false, false);
    assert!(matches!(fine[0].outcome, Outcome::Frozen { pages: 2 }));
    conclude(&mut fine, true, false);
    assert!(matches!(fine[0].outcome, Outcome::WouldChange));
}

#[test]
fn only_frozen_results_are_moved_into_place() {
    let results = vec![result(0, Outcome::Unchanged), result(1, Outcome::Frozen { pages: 1 })];
    let steps = plan(&results, false, false);
    assert_eq!(steps.len(), 1);
    match &steps[0] {
        Step::Move { at, from, to } => {
            assert_eq!((*at, from.as_str(), to.as_str()), (1, "q1.json.gqlfreez-tmp", "q1.json"))
        }
        Step::Discard(_) => panic!("discarded"),
    }
    assert!(plan(&results, false, true).is_empty());
    assert_eq!(plan(&results, true, false).len(), 2);
    let failed = vec![
        result(0, Outcome::Frozen { pages: 1 }),
        result(1, Outcome::Failed(Error::Config(String::new()))),
    ];
    for step in plan(&failed, false, false) {
        assert!(matches!(step, Step::Discard(_)));
    }
}

#[test]
fn runs_are_summed_up() {
    let results = vec![
        result(0, Outcome::Frozen { pages: 3 }),
        result(1, Outcome::Frozen { pages: 1 }),
        result(2, Outcome::Unchanged),
        result(3, Outcome::Skipped { reason: "why".to_string() }),
    ];
    let r = answer(&results, false, false, &Logger::new(Level::Verbose, true), 4, 56);
    assert_eq!(
        r.lines,
        vec![
            "q0.gql: 3 pages",
            "q3.gql: skipped — why",
            "2 frozen, 1 unchanged, 1 skipped — finished in 4.056s",
        ]
    );
    assert_eq!(r.code, EXIT_OK);
    let r = answer(&results[..0].iter().map(|_| result(0, Outcome::Unchanged)).collect(), false, false, &Logger::default(), 0, 7);
    assert_eq!(r.lines, vec!["0 frozen, 0 unchanged — finished in 0.007s"]);
}

#[test]
fn exit_codes_say_how_it_went() {
    let would = vec![result(0, Outcome::WouldChange), result(1, Outcome::Unchanged)];
    let r = answer(&would, true, false, &Logger::default(), 1, 234);
    assert_eq!(r.code, EXIT_CHANGED);
    assert_eq!(
        r.lines,
        vec![
            "1 would change, 1 unchanged — finished in 1.234s",
            "gqlfreez: 1 file(s) are out of date — run gqlfreez to refresh them",
        ]
    );
    assert_eq!(answer(&would, false, true, &Logger::default(), 1, 234).code, EXIT_OK);
    let failed = vec![
        result(0, Outcome::WouldChange),
        result(1, Outcome::Failed(Error::Io { path: "p".to_string(), source: "gone".to_string() })),
        result(2, Outcome::Failed(Error::Config("late".to_string()))),
    ];
    let r = answer(&failed, true, false, &Logger::new(Level::Silent, true), 1, 2);
    assert_eq!((r.lines, r.code), (vec!["gqlfreez: p: gone".to_string()], EXIT_FAILED));
    assert_eq!(refuse(&Error::Config("x".to_string())).code, EXIT_CONFIG);
    let io = Error::Io { path: "p".to_string(), source: "gone".to_string() };
    assert_eq!(refuse(&io).code, EXIT_FAILED);
    assert_eq!(refuse_options(&io).code, EXIT_CONFIG);
    assert_eq!(refuse_options(&io).lines, vec!["gqlfreez: p: gone"]);
}
