//! What the command line asks for, and what it answers.
use vstd::prelude::*;
use vstd::string::*;

use crate::config::Resolved;
use crate::engine::{FileResult, Outcome};
use crate::errors::{error_line, Error, ErrorModel};
use crate::fetch::header_models;
use crate::logger::{Level, Logger};
use crate::options::Options;
use crate::text::{
    chars_of, debug_text, decimal, digit, find_char, find_from, law_decimal_writes_the_number,
    law_first_is_found, opt_text, quoted, text_of, texts, trim, trimmed, value, write_decimal,
};

verus! {

// Exit codes, so a CI script never has to grep stderr.
pub const EXIT_OK: u8 = 0;

pub const EXIT_FAILED: u8 = 1;

pub const EXIT_CONFIG: u8 = 2;

pub const EXIT_CHANGED: u8 = 3;

// ---------------------------------------------------------------------------------------
// Arguments
// ---------------------------------------------------------------------------------------
/// What was asked for on the command line.
#[derive(Debug)]
pub struct Arguments {
    pub endpoint: Option<String>,
    pub glob: String,
    /// Each one as `Name: value`.
    pub headers: Vec<String>,
    pub concurrency: usize,
    /// In milliseconds.
    pub delay: u64,
    /// In seconds.
    pub timeout: u64,
    /// In seconds.
    pub connect_timeout: u64,
    /// In seconds.
    pub file_timeout: u64,
    pub retries: u32,
    pub page_size: usize,
    pub max_pages: usize,
    pub max_response_mb: u64,
    pub envelope: bool,
    pub allow_partial: bool,
    pub check: bool,
    pub dry_run: bool,
}

/// How much is shown: the quietest level that was asked for.
pub fn choose_level(silent: bool, quiet: bool, verbose: bool) -> (r: Level)
    ensures
        r == if silent {
            Level::Silent
        } else if quiet {
            Level::Quiet
        } else if verbose {
            Level::Verbose
        } else {
            Level::Standard
        },
{
    if silent {
        Level::Silent
    } else if quiet {
        Level::Quiet
    } else if verbose {
        Level::Verbose
    } else {
        Level::Standard
    }
}

/// A header as it was asked for: name and value, around the first colon.
pub open spec fn header_of(raw: Seq<char>) -> Option<(Seq<char>, Seq<char>)> {
    let colon = find_from(raw, ':', 0);
    if colon < raw.len() {
        Some((trimmed(raw.subrange(0, colon)), trimmed(raw.skip(colon + 1))))
    } else {
        None
    }
}

/// Headers, with the first `k` of those that were asked for after them; or what is wrong with
/// one of these.
pub open spec fn headers_with(
    config: Seq<(Seq<char>, Seq<char>)>,
    raw: Seq<Seq<char>>,
    k: int,
) -> Result<Seq<(Seq<char>, Seq<char>)>, Seq<char>>
    decreases k,
{
    if k <= 0 {
        Ok(config)
    } else {
        match headers_with(config, raw, k - 1) {
            Err(message) => Err(message),
            Ok(headers) => match header_of(raw[k - 1]) {
                Some(header) => Ok(headers.push(header)),
                None => Err("--header expects \"Name: value\", got "@ + debug_text(raw[k - 1])),
            },
        }
    }
}

/// What fails for some headers fails for more.
proof fn lemma_headers_with_fails(
    config: Seq<(Seq<char>, Seq<char>)>,
    raw: Seq<Seq<char>>,
    k: int,
    n: int,
)
    requires
        0 <= k <= n,
        headers_with(config, raw, k) is Err,
    ensures
        headers_with(config, raw, n) == headers_with(config, raw, k),
    decreases n - k,
{
    if k < n {
        lemma_headers_with_fails(config, raw, k, n - 1);
    }
}

/// A header as it was asked for.
fn read_header(raw: &str) -> (r: Option<(String, String)>)
    ensures
        match r {
            Some(header) => header_of(raw@) == Some((header.0@, header.1@)),
            None => header_of(raw@) is None,
        },
{
    let chars = chars_of(raw);
    let colon = find_char(&chars, ':', 0);
    if colon >= chars.len() {
        return None;
    }
    let name = text_of(&chars, 0, colon);
    let value = text_of(&chars, colon + 1, chars.len());
    assert(value@ =~= raw@.skip(colon + 1));
    Some((trim(name.as_str()), trim(value.as_str())))
}

/// Adds the headers that were asked for.
fn add_headers(config: Vec<(String, String)>, raw: &Vec<String>) -> (r: Result<
    Vec<(String, String)>,
    Error,
>)
    ensures
        match headers_with(header_models(config@), texts(raw@), raw@.len() as int) {
            Ok(headers) => r matches Ok(list) && header_models(list@) == headers,
            Err(message) => r matches Err(e) && e@ == ErrorModel::Config(message),
        },
{
    let ghost start = header_models(config@);
    let mut list = config;
    for i in 0..raw.len()
        invariant
            start == header_models(config@),
            headers_with(start, texts(raw@), i as int) == Ok::<_, Seq<char>>(header_models(list@)),
    {
        assert(texts(raw@)[i as int] == raw@[i as int]@);
        let ghost done = header_models(list@);
        match read_header(raw[i].as_str()) {
            Some(header) => {
                list.push(header);
                assert(header_models(list@) =~= done.push((header.0@, header.1@)));
            },
            None => {
                let mut message = "--header expects \"Name: value\", got ".to_owned();
                message.append(quoted(raw[i].as_str()).as_str());
                proof {
                    lemma_headers_with_fails(start, texts(raw@), i + 1, raw@.len() as int);
                }
                return Err(Error::Config(message));
            },
        }
    }
    Ok(list)
}

/// The headers that a configuration names; none where it cannot be used.
pub open spec fn config_headers(config: Result<Resolved, Error>) -> Seq<(Seq<char>, Seq<char>)> {
    match config {
        Ok(resolved) => header_models(resolved.headers@),
        Err(_) => seq![],
    }
}

/// The endpoint: the one of the command line, else the one of the configuration, else none.
pub open spec fn endpoint_of(args: Option<String>, config: Result<Resolved, Error>) -> Seq<char> {
    match args {
        Some(endpoint) => endpoint@,
        None => match config {
            Ok(Resolved { endpoint: Some(endpoint), .. }) => endpoint@,
            _ => seq![],
        },
    }
}

/// Builds the options out of the command line and the configuration. What the command line says
/// counts more: with an endpoint on it, a configuration that cannot be used does not matter.
pub fn build_options(
    args: &Arguments,
    root: String,
    config: Result<Resolved, Error>,
    logger: Logger,
) -> (r: Result<Options, Error>)
    requires
        args.max_response_mb * 1048576 <= u64::MAX,
    ensures
        match (
            config,
            headers_with(config_headers(config), texts(args.headers@), args.headers@.len() as int),
        ) {
            (Err(e), _) if args.endpoint is None => r == Err::<Options, Error>(e),
            (_, Err(message)) => r matches Err(e) && e@ == ErrorModel::Config(message),
            (_, Ok(headers)) => {
                &&& r matches Ok(o)
                &&& o.root == root
                &&& o.glob@ == args.glob@
                &&& o.endpoint@ == endpoint_of(args.endpoint, config)
                &&& header_models(o.headers@) == headers
                &&& o.concurrency == args.concurrency
                &&& o.page_size == args.page_size
                &&& o.retries == args.retries
                &&& o.delay == args.delay
                &&& o.connect_timeout == args.connect_timeout
                &&& o.request_timeout == args.timeout
                &&& o.file_timeout == args.file_timeout
                &&& o.max_pages == args.max_pages
                &&& o.max_response_bytes == args.max_response_mb * 1048576
                &&& o.allow_partial == args.allow_partial
                &&& o.envelope == args.envelope
                &&& !o.force
                &&& o.check == args.check
                &&& o.dry_run == args.dry_run
                &&& o.logger == logger
            },
        },
{
    let resolved = match config {
        Ok(resolved) => resolved,
        Err(e) => {
            if args.endpoint.is_none() {
                return Err(e);
            }
            Resolved::default()
        },
    };
    assert(header_models(resolved.headers@) =~= config_headers(config));
    let endpoint = match &args.endpoint {
        Some(endpoint) => endpoint.clone(),
        None => match resolved.endpoint {
            Some(endpoint) => endpoint,
            None => String::new(),
        },
    };
    let headers = match add_headers(resolved.headers, &args.headers) {
        Ok(headers) => headers,
        Err(e) => {
            return Err(e);
        },
    };
    Ok(
        Options {
            root,
            glob: args.glob.clone(),
            endpoint,
            headers,
            concurrency: args.concurrency,
            page_size: args.page_size,
            retries: args.retries,
            delay: args.delay,
            connect_timeout: args.connect_timeout,
            request_timeout: args.timeout,
            file_timeout: args.file_timeout,
            max_pages: args.max_pages,
            max_response_bytes: args.max_response_mb * 1048576,
            allow_partial: args.allow_partial,
            envelope: args.envelope,
            force: false,
            check: args.check,
            dry_run: args.dry_run,
            logger,
        },
    )
}

// ---------------------------------------------------------------------------------------
// Answers
// ---------------------------------------------------------------------------------------
/// What is shown at the end, and the exit code.
#[derive(Debug)]
pub struct Report {
    pub lines: Vec<String>,
    pub code: u8,
}

/// The line that reports an error.
pub open spec fn error_report(e: ErrorModel) -> Seq<char> {
    "gqlfreez: "@ + error_line(e)
}

/// The line that reports an error.
fn report_error(e: &Error) -> (r: String)
    ensures
        r@ == error_report(e@),
{
    let mut r = "gqlfreez: ".to_owned();
    r.append(e.line().as_str());
    r
}

/// What is answered when the run could not begin: a configuration problem, or a failure.
pub fn refuse(e: &Error) -> (r: Report)
    ensures
        texts(r.lines@) == seq![error_report(e@)],
        r.code == if e is Config {
            EXIT_CONFIG
        } else {
            EXIT_FAILED
        },
{
    let mut lines: Vec<String> = Vec::new();
    lines.push(report_error(e));
    assert(texts(lines@) =~= seq![error_report(e@)]);
    let code = match e {
        Error::Config(_) => EXIT_CONFIG,
        _ => EXIT_FAILED,
    };
    Report { lines, code }
}

/// What is answered when the options could not be built: a configuration problem, whatever the
/// error.
pub fn refuse_options(e: &Error) -> (r: Report)
    ensures
        texts(r.lines@) == seq![error_report(e@)],
        r.code == EXIT_CONFIG,
{
    let mut lines: Vec<String> = Vec::new();
    lines.push(report_error(e));
    assert(texts(lines@) =~= seq![error_report(e@)]);
    Report { lines, code: EXIT_CONFIG }
}

/// The position of the first result that failed, from position `i` on.
pub open spec fn first_failure(results: Seq<FileResult>, i: int) -> Option<int>
    decreases results.len() - i,
{
    if i < 0 || i >= results.len() {
        None
    } else if results[i].outcome is Failed {
        Some(i)
    } else {
        first_failure(results, i + 1)
    }
}

/// How many of the first `k` results came out how.
pub struct Tally {
    pub frozen: nat,
    pub unchanged: nat,
    pub would: nat,
    pub skipped: nat,
}

/// How many of the first `k` results came out how.
pub open spec fn tally(results: Seq<FileResult>, k: int) -> Tally
    decreases k,
{
    if k <= 0 {
        Tally { frozen: 0, unchanged: 0, would: 0, skipped: 0 }
    } else {
        let t = tally(results, k - 1);
        match results[k - 1].outcome {
            Outcome::Frozen { .. } => Tally { frozen: t.frozen + 1, ..t },
            Outcome::Unchanged => Tally { unchanged: t.unchanged + 1, ..t },
            Outcome::WouldChange => Tally { would: t.would + 1, ..t },
            Outcome::Skipped { .. } => Tally { skipped: t.skipped + 1, ..t },
            Outcome::Failed(_) => t,
        }
    }
}

/// What there is to say in detail of a result.
pub open spec fn detail(result: FileResult) -> Option<Seq<char>> {
    match result.outcome {
        Outcome::Frozen { pages } => if pages > 1 {
            Some(result.source@ + ": "@ + decimal(pages as nat) + " pages"@)
        } else {
            None
        },
        Outcome::Skipped { reason } => Some(result.source@ + ": skipped — "@ + reason@),
        _ => None,
    }
}

/// What is said in detail of the first `k` results.
pub open spec fn details(results: Seq<FileResult>, logger: Logger, k: int) -> Seq<Seq<char>>
    decreases k,
{
    if k <= 0 {
        seq![]
    } else {
        let earlier = details(results, logger, k - 1);
        match detail(results[k - 1]) {
            Some(line) => if logger.shows(Level::Verbose) {
                earlier.push(line)
            } else {
                earlier
            },
            None => earlier,
        }
    }
}

/// A number of milliseconds below a second, in three digits.
pub open spec fn three_digits(millis: nat) -> Seq<char> {
    if millis < 10 {
        "00"@ + decimal(millis)
    } else if millis < 100 {
        "0"@ + decimal(millis)
    } else {
        decimal(millis)
    }
}

/// The line that sums up a run.
pub open spec fn summary_line(t: Tally, dry: bool, seconds: nat, millis: nat) -> Seq<char> {
    let counts = if dry {
        decimal(t.would) + " would change, "@ + decimal(t.unchanged) + " unchanged"@
    } else {
        decimal(t.frozen) + " frozen, "@ + decimal(t.unchanged) + " unchanged"@
    };
    let skipped = if t.skipped > 0 {
        ", "@ + decimal(t.skipped) + " skipped"@
    } else {
        seq![]
    };
    counts + skipped + " — finished in "@ + decimal(seconds) + "."@ + three_digits(millis) + "s"@
}

/// What a run is answered: its lines.
pub open spec fn answer_lines(
    results: Seq<FileResult>,
    check: bool,
    dry_run: bool,
    logger: Logger,
    seconds: nat,
    millis: nat,
) -> Seq<Seq<char>> {
    match first_failure(results, 0) {
        Some(i) => seq![error_report(results[i].outcome->Failed_0@)],
        None => {
            let t = tally(results, results.len() as int);
            let all = details(results, logger, results.len() as int);
            let summed = if logger.shows(Level::Standard) {
                all.push(summary_line(t, check || dry_run, seconds, millis))
            } else {
                all
            };
            if check && t.would > 0 {
                summed.push(
                    "gqlfreez: "@ + decimal(t.would)
                        + " file(s) are out of date — run gqlfreez to refresh them"@,
                )
            } else {
                summed
            }
        },
    }
}

/// What a run is answered: its exit code.
pub open spec fn answer_code(results: Seq<FileResult>, check: bool) -> u8 {
    match first_failure(results, 0) {
        Some(_) => EXIT_FAILED,
        None => if check && tally(results, results.len() as int).would > 0 {
            EXIT_CHANGED
        } else {
            EXIT_OK
        },
    }
}

/// The position of the first result that failed.
fn find_failure(results: &Vec<FileResult>) -> (r: Option<usize>)
    ensures
        match r {
            Some(i) => first_failure(results@, 0) == Some(i as int) && i < results@.len()
                && results@[i as int].outcome is Failed,
            None => first_failure(results@, 0) is None,
        },
{
    for i in 0..results.len()
        invariant
            first_failure(results@, 0) == first_failure(results@, i as int),
    {
        if results[i].is_failure() {
            return Some(i);
        }
    }
    None
}

/// What there is to say in detail of a result.
fn describe(result: &FileResult) -> (r: Option<String>)
    ensures
        opt_text(r) == detail(*result),
{
    match &result.outcome {
        Outcome::Frozen { pages } => if *pages > 1 {
            let mut line = result.source.clone();
            line.append(": ");
            line.append(write_decimal(*pages as u64).as_str());
            line.append(" pages");
            Some(line)
        } else {
            None
        },
        Outcome::Skipped { reason } => {
            let mut line = result.source.clone();
            line.append(": skipped — ");
            line.append(reason.as_str());
            Some(line)
        },
        _ => None,
    }
}

/// The counts of a tally.
struct Counts {
    frozen: u64,
    unchanged: u64,
    would: u64,
    skipped: u64,
}

impl Counts {
    /// The tally that these are the counts of.
    spec fn tally(self) -> Tally {
        Tally {
            frozen: self.frozen as nat,
            unchanged: self.unchanged as nat,
            would: self.would as nat,
            skipped: self.skipped as nat,
        }
    }
}

/// How many results came out how.
fn count(results: &Vec<FileResult>) -> (r: Counts)
    ensures
        r.tally() == tally(results@, results@.len() as int),
{
    let mut c = Counts { frozen: 0, unchanged: 0, would: 0, skipped: 0 };
    let n = results.len();
    for i in 0..n
        invariant
            n == results@.len(),
            c.tally() == tally(results@, i as int),
            c.frozen <= i,
            c.unchanged <= i,
            c.would <= i,
            c.skipped <= i,
    {
        match results[i].outcome {
            Outcome::Frozen { .. } => {
                c.frozen = c.frozen + 1;
            },
            Outcome::Unchanged => {
                c.unchanged = c.unchanged + 1;
            },
            Outcome::WouldChange => {
                c.would = c.would + 1;
            },
            Outcome::Skipped { .. } => {
                c.skipped = c.skipped + 1;
            },
            Outcome::Failed(_) => {},
        }
    }
    c
}

/// The line that sums up a run.
fn sum_up(c: &Counts, dry: bool, seconds: u64, millis: u64) -> (r: String)
    ensures
        r@ == summary_line(c.tally(), dry, seconds as nat, millis as nat),
{
    let mut r = if dry {
        write_decimal(c.would)
    } else {
        write_decimal(c.frozen)
    };
    if dry {
        r.append(" would change, ");
    } else {
        r.append(" frozen, ");
    }
    r.append(write_decimal(c.unchanged).as_str());
    r.append(" unchanged");
    let ghost counts = r@;
    if c.skipped > 0 {
        r.append(", ");
        r.append(write_decimal(c.skipped).as_str());
        r.append(" skipped");
        assert(r@ =~= counts + (", "@ + decimal(c.skipped as nat) + " skipped"@));
    } else {
        assert(r@ =~= counts + Seq::<char>::empty());
    }
    r.append(" — finished in ");
    r.append(write_decimal(seconds).as_str());
    r.append(".");
    let ghost head = r@;
    if millis < 10 {
        r.append("00");
    } else if millis < 100 {
        r.append("0");
    }
    r.append(write_decimal(millis).as_str());
    assert(r@ =~= head + three_digits(millis as nat));
    r.append("s");
    r
}

/// What a run is answered.
pub fn answer(
    results: &Vec<FileResult>,
    check: bool,
    dry_run: bool,
    logger: &Logger,
    seconds: u64,
    millis: u64,
) -> (r: Report)
    ensures
        texts(r.lines@) == answer_lines(
            results@,
            check,
            dry_run,
            *logger,
            seconds as nat,
            millis as nat,
        ),
        r.code == answer_code(results@, check),
{
    let mut lines: Vec<String> = Vec::new();
    assert(texts(lines@) =~= seq![]);
    // Failing fast is a CLI policy: the engine itself returns one result per file.
    if let Some(i) = find_failure(results) {
        if let Outcome::Failed(e) = &results[i].outcome {
            lines.push(report_error(e));
            assert(texts(lines@) =~= seq![error_report(e@)]);
        }
        return Report { lines, code: EXIT_FAILED };
    }
    for i in 0..results.len()
        invariant
            texts(lines@) == details(results@, *logger, i as int),
    {
        let ghost done = texts(lines@);
        if let Some(line) = describe(&results[i]) {
            if let Some(shown) = logger.verbose(line.as_str()) {
                lines.push(shown);
                assert(texts(lines@) =~= done.push(shown@));
            }
        }
    }
    let c = count(results);
    let ghost all = texts(lines@);
    if let Some(shown) = logger.status(
        sum_up(&c, check || dry_run, seconds, millis).as_str(),
    ) {
        lines.push(shown);
        assert(texts(lines@) =~= all.push(shown@));
    }
    if check && c.would > 0 {
        let ghost summed = texts(lines@);
        let mut line = "gqlfreez: ".to_owned();
        line.append(write_decimal(c.would).as_str());
        line.append(" file(s) are out of date — run gqlfreez to refresh them");
        lines.push(line);
        assert(texts(lines@) =~= summed.push(line@));
        return Report { lines, code: EXIT_CHANGED };
    }
    Report { lines, code: EXIT_OK }
}

/// The exit code says how a run went: 1 if and only if a file failed; else 3 if and only if
/// `--check` found a file out of date; else 0.
pub proof fn law_exit_code(results: Seq<FileResult>, check: bool)
    ensures
        answer_code(results, check) == EXIT_FAILED <==> exists|i: int|
            0 <= i < results.len() && (#[trigger] results[i]).outcome is Failed,
        answer_code(results, check) == EXIT_CHANGED <==> {
            &&& check
            &&& exists|i: int|
                0 <= i < results.len() && (#[trigger] results[i]).outcome is WouldChange
            &&& forall|i: int|
                0 <= i < results.len() ==> !((#[trigger] results[i]).outcome is Failed)
        },
{
    lemma_first_failure(results, 0);
    lemma_would(results, results.len() as int);
}

proof fn lemma_first_failure(results: Seq<FileResult>, k: int)
    requires
        0 <= k <= results.len(),
    ensures
        first_failure(results, k) is Some <==> exists|i: int|
            k <= i < results.len() && (#[trigger] results[i]).outcome is Failed,
    decreases results.len() - k,
{
    if k < results.len() && !(results[k].outcome is Failed) {
        lemma_first_failure(results, k + 1);
    }
}

proof fn lemma_would(results: Seq<FileResult>, k: int)
    requires
        0 <= k <= results.len(),
    ensures
        tally(results, k).would > 0 <==> exists|i: int|
            0 <= i < k && (#[trigger] results[i]).outcome is WouldChange,
    decreases k,
{
    if k > 0 {
        lemma_would(results, k - 1);
        if results[k - 1].outcome is WouldChange {
            assert(results[k - 1].outcome is WouldChange);
        }
    }
}

/// The exit codes are those that scripts rely on.
pub proof fn law_exit_codes()
    ensures
        EXIT_OK == 0,
        EXIT_FAILED == 1,
        EXIT_CONFIG == 2,
        EXIT_CHANGED == 3,
{
}

/// A header is split at its first colon; white space around name and value does not count. A text
/// without a colon is no header.
pub proof fn law_header_is_split(name: Seq<char>, value: Seq<char>)
    requires
        forall|k: int| 0 <= k < name.len() ==> #[trigger] name[k] != ':',
    ensures
        header_of(name + seq![':'] + value) == Some((trimmed(name), trimmed(value))),
        header_of(name) is None,
{
    let raw = name + seq![':'] + value;
    let colon = find_from(raw, ':', 0);
    law_first_is_found(raw, ':', 0);
    law_first_is_found(name, ':', 0);
    assert(raw[name.len() as int] == ':');
    if colon < name.len() {
        assert(raw[colon] == name[colon]);
    }
    assert(colon == name.len());
    assert(raw.subrange(0, colon) =~= name);
    assert(raw.skip(colon + 1) =~= value);
}

/// The headers of the configuration come first, those of the command line after them, all of them
/// and in their order; one that is no header fails, and nothing else does.
pub proof fn law_headers_are_added(
    config: Seq<(Seq<char>, Seq<char>)>,
    raw: Seq<Seq<char>>,
    k: int,
)
    requires
        0 <= k <= raw.len(),
    ensures
        match headers_with(config, raw, k) {
            Ok(headers) => {
                &&& headers.len() == config.len() + k
                &&& forall|i: int| 0 <= i < config.len() ==> #[trigger] headers[i] == config[i]
                &&& forall|i: int|
                    0 <= i < k ==> header_of(#[trigger] raw[i]) == Some(headers[config.len() + i])
            },
            Err(_) => exists|i: int| 0 <= i < k && header_of(#[trigger] raw[i]) is None,
        },
    decreases k,
{
    if k > 0 {
        law_headers_are_added(config, raw, k - 1);
        if let Ok(earlier) = headers_with(config, raw, k - 1) {
            if header_of(raw[k - 1]) is Some {
                let headers = headers_with(config, raw, k)->Ok_0;
                assert forall|i: int| 0 <= i < k implies header_of(#[trigger] raw[i]) == Some(
                    headers[config.len() + i],
                ) by {
                    if i < k - 1 {
                        assert(headers[config.len() + i] == earlier[config.len() + i]);
                    }
                }
            } else {
                assert(header_of(raw[k - 1]) is None);
            }
        } else {
            let i = choose|i: int| 0 <= i < k - 1 && header_of(#[trigger] raw[i]) is None;
            assert(header_of(raw[i]) is None);
        }
    }
}

/// An endpoint on the command line counts more than the one of the configuration, which counts
/// when there is none; and the headers of the configuration are the ones that it has.
pub proof fn law_command_line_counts_more(
    given: Option<String>,
    config: Result<Resolved, Error>,
    i: int,
)
    ensures
        given matches Some(endpoint) ==> endpoint_of(given, config) == endpoint@,
        given is None && config is Ok ==> match (config->Ok_0).endpoint {
            Some(endpoint) => endpoint_of(given, config) == endpoint@,
            None => endpoint_of(given, config).len() == 0,
        },
        config is Ok ==> {
            &&& config_headers(config).len() == (config->Ok_0).headers@.len()
            &&& 0 <= i < (config->Ok_0).headers@.len() ==> config_headers(config)[i].0
                == (config->Ok_0).headers@[i].0@ && config_headers(config)[i].1
                == (config->Ok_0).headers@[i].1@
        },
        config is Err ==> config_headers(config).len() == 0,
{
}

/// Counting adds up: over the results of two lists it is the sum of both, and a single result
/// counts once, for what it is.
pub proof fn law_counts_add_up(a: Seq<FileResult>, b: Seq<FileResult>, r: FileResult)
    ensures
        ({
            let all = tally(a + b, (a + b).len() as int);
            let x = tally(a, a.len() as int);
            let y = tally(b, b.len() as int);
            &&& all.frozen == x.frozen + y.frozen
            &&& all.unchanged == x.unchanged + y.unchanged
            &&& all.would == x.would + y.would
            &&& all.skipped == x.skipped + y.skipped
        }),
        ({
            let one = tally(seq![r], 1);
            &&& one.frozen == if r.outcome is Frozen { 1nat } else { 0nat }
            &&& one.unchanged == if r.outcome is Unchanged { 1nat } else { 0nat }
            &&& one.would == if r.outcome is WouldChange { 1nat } else { 0nat }
            &&& one.skipped == if r.outcome is Skipped { 1nat } else { 0nat }
        }),
{
    lemma_tally_prefix(a, a + b, a.len() as int);
    lemma_tally_rest(a, b, b.len() as int);
    reveal_with_fuel(tally, 2);
    assert(seq![r][0] == r);
}

proof fn lemma_tally_prefix(a: Seq<FileResult>, all: Seq<FileResult>, k: int)
    requires
        0 <= k <= a.len() <= all.len(),
        forall|i: int| 0 <= i < a.len() ==> #[trigger] all[i] == a[i],
    ensures
        tally(all, k) == tally(a, k),
    decreases k,
{
    if k > 0 {
        lemma_tally_prefix(a, all, k - 1);
        assert(all[k - 1] == a[k - 1]);
    }
}

proof fn lemma_tally_rest(a: Seq<FileResult>, b: Seq<FileResult>, k: int)
    requires
        0 <= k <= b.len(),
    ensures
        ({
            let all = tally(a + b, a.len() + k);
            let x = tally(a, a.len() as int);
            let y = tally(b, k);
            &&& all.frozen == x.frozen + y.frozen
            &&& all.unchanged == x.unchanged + y.unchanged
            &&& all.would == x.would + y.would
            &&& all.skipped == x.skipped + y.skipped
        }),
    decreases k,
{
    if k > 0 {
        lemma_tally_rest(a, b, k - 1);
        assert((a + b)[a.len() + k - 1] == b[k - 1]);
    } else {
        lemma_tally_prefix(a, a + b, a.len() as int);
    }
}

/// The failure that is reported is the first one, in discovery order, and it is all that is said.
pub proof fn law_first_failure_is_reported(
    results: Seq<FileResult>,
    i: int,
    check: bool,
    dry_run: bool,
    logger: Logger,
    seconds: nat,
    millis: nat,
)
    requires
        0 <= i < results.len(),
        results[i].outcome is Failed,
        forall|k: int| 0 <= k < i ==> !((#[trigger] results[k]).outcome is Failed),
    ensures
        answer_lines(results, check, dry_run, logger, seconds, millis) == seq![
            error_report(results[i].outcome->Failed_0@),
        ],
{
    lemma_failure_found(results, i, 0);
}

proof fn lemma_failure_found(results: Seq<FileResult>, i: int, from: int)
    requires
        0 <= from <= i < results.len(),
        results[i].outcome is Failed,
        forall|k: int| 0 <= k < i ==> !((#[trigger] results[k]).outcome is Failed),
    ensures
        first_failure(results, from) == Some(i),
    decreases i - from,
{
    if from < i {
        assert(!(results[from].outcome is Failed));
        lemma_failure_found(results, i, from + 1);
    }
}

/// In detail, each file with more than one page is named with its pages, and each one that was
/// skipped with the reason; nothing is said of the others, and nothing below that level of
/// detail.
pub proof fn law_details(results: Seq<FileResult>, logger: Logger, k: int, i: int)
    requires
        0 <= k <= results.len(),
        0 <= i < k,
    ensures
        !logger.shows(Level::Verbose) ==> details(results, logger, k).len() == 0,
        logger.shows(Level::Verbose) ==> {
            &&& results[i].outcome matches Outcome::Frozen { pages } ==> pages > 1 ==> details(
                results,
                logger,
                k,
            ).contains(results[i].source@ + ": "@ + decimal(pages as nat) + " pages"@)
            &&& results[i].outcome matches Outcome::Skipped { reason } ==> details(
                results,
                logger,
                k,
            ).contains(results[i].source@ + ": skipped — "@ + reason@)
        },
        details(results, logger, k).len() <= k,
    decreases k,
{
    let all = details(results, logger, k);
    let earlier = details(results, logger, k - 1);
    if k > 1 {
        law_details(results, logger, k - 1, if i < k - 1 { i } else { 0 });
    }
    if i < k - 1 {
        assert forall|line: Seq<char>| earlier.contains(line) implies #[trigger] all.contains(line) by {
            let m = choose|m: int| 0 <= m < earlier.len() && earlier[m] == line;
            assert(all[m] == line);
        }
    } else if logger.shows(Level::Verbose) {
        if let Some(line) = detail(results[i]) {
            assert(all[earlier.len() as int] == line);
        }
    }
}

/// Where all went well, the run is summed up in one line, where lines of that sort are shown; and
/// with `--check`, files that are out of date are counted in one more.
pub proof fn law_run_is_summed_up(
    results: Seq<FileResult>,
    check: bool,
    dry_run: bool,
    logger: Logger,
    seconds: nat,
    millis: nat,
)
    requires
        forall|k: int| 0 <= k < results.len() ==> !((#[trigger] results[k]).outcome is Failed),
    ensures
        ({
            let lines = answer_lines(results, check, dry_run, logger, seconds, millis);
            let n = details(results, logger, results.len() as int).len();
            let t = tally(results, results.len() as int);
            let shown = if logger.shows(Level::Standard) { 1nat } else { 0nat };
            let late = if check && t.would > 0 { 1nat } else { 0nat };
            &&& lines.len() == n + shown + late
            &&& shown == 1 ==> lines[n as int] == summary_line(t, check || dry_run, seconds, millis)
            &&& late == 1 ==> lines.last() == "gqlfreez: "@ + decimal(t.would)
                + " file(s) are out of date — run gqlfreez to refresh them"@
        }),
{
    lemma_first_failure(results, 0);
}

/// The summary begins with how many files were, or would be, written, and then those unchanged.
pub proof fn law_summary_counts(t: Tally, seconds: nat, millis: nat)
    ensures
        (decimal(t.frozen) + " frozen, "@ + decimal(t.unchanged) + " unchanged"@).is_prefix_of(
            summary_line(t, false, seconds, millis),
        ),
        (decimal(t.would) + " would change, "@ + decimal(t.unchanged)
            + " unchanged"@).is_prefix_of(summary_line(t, true, seconds, millis)),
        t.skipped > 0 ==> (decimal(t.frozen) + " frozen, "@ + decimal(t.unchanged)
            + " unchanged"@ + ", "@ + decimal(t.skipped) + " skipped"@).is_prefix_of(
            summary_line(t, false, seconds, millis),
        ),
{
    let a = decimal(t.frozen) + " frozen, "@ + decimal(t.unchanged) + " unchanged"@;
    let b = decimal(t.would) + " would change, "@ + decimal(t.unchanged) + " unchanged"@;
    let c = a + ", "@ + decimal(t.skipped) + " skipped"@;
    let x = summary_line(t, false, seconds, millis);
    let y = summary_line(t, true, seconds, millis);
    assert(a =~= x.subrange(0, a.len() as int));
    assert(b =~= y.subrange(0, b.len() as int));
    if t.skipped > 0 {
        assert(c =~= x.subrange(0, c.len() as int));
    }
}

/// Whether lines are what there is to say in detail of the results at the given places, and there
/// is something to say of no other one.
pub open spec fn are_details(
    results: Seq<FileResult>,
    k: int,
    lines: Seq<Seq<char>>,
    at: Seq<int>,
) -> bool {
    &&& at.len() == lines.len()
    &&& forall|i: int, j: int| 0 <= i < j < at.len() ==> #[trigger] at[i] < #[trigger] at[j]
    &&& forall|i: int|
        0 <= i < at.len() ==> {
            &&& 0 <= #[trigger] at[i] < k
            &&& match results[at[i]].outcome {
                Outcome::Frozen { pages } => pages > 1 && lines[i] == results[at[i]].source@ + ": "@
                    + decimal(pages as nat) + " pages"@,
                Outcome::Skipped { reason } => lines[i] == results[at[i]].source@ + ": skipped — "@
                    + reason@,
                _ => false,
            }
        }
    &&& forall|j: int|
        0 <= j < k && match (#[trigger] results[j]).outcome {
            Outcome::Frozen { pages } => pages > 1,
            Outcome::Skipped { .. } => true,
            _ => false,
        } ==> at.contains(j)
}

/// In detail there is one line for each result with more than one page and each one that was
/// skipped, in the order of the results, and no other line.
pub proof fn law_one_detail_for_each_result(results: Seq<FileResult>, logger: Logger, k: int)
    requires
        0 <= k <= results.len(),
        logger.shows(Level::Verbose),
    ensures
        exists|at: Seq<int>| #[trigger] are_details(results, k, details(results, logger, k), at),
{
    let at = lemma_details(results, logger, k);
}

proof fn lemma_details(results: Seq<FileResult>, logger: Logger, k: int) -> (at: Seq<int>)
    requires
        0 <= k <= results.len(),
        logger.shows(Level::Verbose),
    ensures
        are_details(results, k, details(results, logger, k), at),
    decreases k,
{
    if k == 0 {
        Seq::empty()
    } else {
        let before = lemma_details(results, logger, k - 1);
        if detail(results[k - 1]) is Some {
            let at = before.push(k - 1);
            assert(at[before.len() as int] == k - 1);
            assert forall|j: int|
                0 <= j < k && match (#[trigger] results[j]).outcome {
                    Outcome::Frozen { pages } => pages > 1,
                    Outcome::Skipped { .. } => true,
                    _ => false,
                } implies at.contains(j) by {
                if j < k - 1 {
                    let i = choose|i: int| 0 <= i < before.len() && before[i] == j;
                    assert(at[i] == j);
                }
            }
            at
        } else {
            before
        }
    }
}

/// Milliseconds are written in three digits that stand for them.
pub proof fn law_milliseconds_have_three_digits(millis: nat)
    requires
        millis < 1000,
    ensures
        three_digits(millis).len() == 3,
        value(three_digits(millis)) == millis,
{
    reveal_strlit("0");
    reveal_strlit("00");
    reveal_with_fuel(decimal, 3);
    reveal_with_fuel(value, 4);
    let text = three_digits(millis);
    law_decimal_writes_the_number(millis);
    if millis < 10 {
        assert(text =~= seq!['0', '0', digit(millis)]);
        assert(text.drop_last() =~= seq!['0', '0']);
        assert(seq!['0', '0'].drop_last() =~= seq!['0']);
        assert(seq!['0'].drop_last() =~= seq![]);
    } else if millis < 100 {
        assert(text =~= seq!['0', digit(millis / 10), digit(millis)]);
        assert(text.drop_last() =~= seq!['0', digit(millis / 10)]);
        assert(seq!['0', digit(millis / 10)].drop_last() =~= seq!['0']);
        assert(seq!['0'].drop_last() =~= seq![]);
    } else {
        assert(text =~= seq![digit(millis / 100), digit(millis / 10), digit(millis)]);
    }
}

/// The summary ends with the time that the run took, and says of skipped files how many there
/// are, where there are any.
pub proof fn law_summary_ends_with_the_time(t: Tally, dry: bool, seconds: nat, millis: nat)
    ensures
        (" — finished in "@ + decimal(seconds) + "."@ + three_digits(millis) + "s"@).is_suffix_of(
            summary_line(t, dry, seconds, millis),
        ),
        t.skipped > 0 ==> (", "@ + decimal(t.skipped) + " skipped"@ + (" — finished in "@ + decimal(
            seconds,
        ) + "."@ + three_digits(millis) + "s"@)).is_suffix_of(summary_line(t, dry, seconds, millis)),
        t.skipped == 0 ==> (" unchanged"@ + (" — finished in "@ + decimal(seconds) + "."@
            + three_digits(millis) + "s"@)).is_suffix_of(summary_line(t, dry, seconds, millis)),
{
    let line = summary_line(t, dry, seconds, millis);
    let end = " — finished in "@ + decimal(seconds) + "."@ + three_digits(millis) + "s"@;
    assert(end =~= line.subrange(line.len() - end.len(), line.len() as int));
    let more = ", "@ + decimal(t.skipped) + " skipped"@ + end;
    if t.skipped > 0 {
        assert(more =~= line.subrange(line.len() - more.len(), line.len() as int));
    } else {
        let last = " unchanged"@ + end;
        assert(last =~= line.subrange(line.len() - last.len(), line.len() as int));
    }
}

/// An error is reported in the name of the program, with all that its line says.
pub proof fn law_errors_are_reported(e: ErrorModel)
    ensures
        error_report(e) == "gqlfreez: "@ + error_line(e),
{
}

} // verus!
