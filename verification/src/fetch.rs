//! Talking to the GraphQL endpoint: what is sent, and what is made of what comes back.
//!
//! The exchange itself is the caller's: it hands over what the response said, and is told
//! whether that is a result, a failure, or worth another try.
use vstd::prelude::*;
use vstd::string::*;
use vstd::utf8::*;

use crate::errors::{error_line, Error, ErrorModel};
use crate::json::{
    canonical, compact, entries_model, field, items_model, lemma_slot, slot, Entries, Json, JsonModel,
};
use crate::paginate::{opt_json, Request};
use crate::text::{
    chars_of, contains, debug_text, decimal, join, joined, law_decimal_writes_the_number,
    law_parts_are_joined, lowered, occurs, occurs_at, opt_text, quoted, same, starts_with, text_of,
    texts, to_upper, uppered, value, write_decimal,
};

verus! {

// ---------------------------------------------------------------------------------------
// Headers
// ---------------------------------------------------------------------------------------
/// The characters of which a header name is made.
pub open spec fn is_token(c: char) -> bool {
    ||| 'a' <= c <= 'z'
    ||| 'A' <= c <= 'Z'
    ||| '0' <= c <= '9'
    ||| c == '!' || c == '#' || c == '$' || c == '%' || c == '&' || c == '\''
    ||| c == '*' || c == '+' || c == '-' || c == '.' || c == '^' || c == '_'
    ||| c == '`' || c == '|' || c == '~'
}

/// A header name in lower case; nothing where it is no header name.
pub open spec fn header_name(name: Seq<char>) -> Option<Seq<char>> {
    if 0 < name.len() <= 65535 && forall|i: int| 0 <= i < name.len() ==> is_token(#[trigger] name[i]) {
        Some(lowered(name))
    } else {
        None
    }
}

/// Whether a text can be the value of a header: no control characters but tabs.
pub open spec fn is_header_value(value: Seq<char>) -> bool {
    forall|i: int|
        0 <= i < value.len() ==> {
            let c = #[trigger] value[i];
            c == '\t' || (c >= ' ' && c != '\u{7f}')
        }
}

/// `reqwest::header::HeaderName::from_str`, and the name as it is written.
///
/// Claimed of it: a name is made of token characters, at least one and at most 65535 of them,
/// and is written in lower case.
#[verifier::external_body]
fn read_header_name(name: &str) -> (r: Option<String>)
    ensures
        opt_text(r) == header_name(name@),
{
    name.parse::<reqwest::header::HeaderName>().ok().map(|n| n.as_str().to_owned())
}

/// `reqwest::header::HeaderValue::from_str`.
///
/// Claimed of it: a value is anything without control characters but tabs.
#[verifier::external_body]
fn check_header_value(value: &str) -> (r: bool)
    ensures
        r == is_header_value(value@),
{
    reqwest::header::HeaderValue::from_str(value).is_ok()
}

/// A list of headers, by name and value.
pub open spec fn header_models(headers: Seq<(String, String)>) -> Seq<(Seq<char>, Seq<char>)> {
    Seq::new(headers.len(), |i: int| (headers[i].0@, headers[i].1@))
}

/// The position of a header in a list, from position `i` on.
pub open spec fn header_slot(list: Seq<(Seq<char>, Seq<char>)>, name: Seq<char>, i: int) -> Option<
    int,
>
    decreases list.len() - i,
{
    if i < 0 || i >= list.len() {
        None
    } else if list[i].0 == name {
        Some(i)
    } else {
        header_slot(list, name, i + 1)
    }
}

/// A list of headers with one more; a header that was there already has its value replaced.
pub open spec fn with_header(
    list: Seq<(Seq<char>, Seq<char>)>,
    name: Seq<char>,
    value: Seq<char>,
) -> Seq<(Seq<char>, Seq<char>)> {
    match header_slot(list, name, 0) {
        Some(i) => list.update(i, (name, value)),
        None => list.push((name, value)),
    }
}

/// The headers to send, made of the first `k` headers that were asked for; or what is wrong with
/// the first one that cannot be sent.
pub open spec fn headers_upto(headers: Seq<(Seq<char>, Seq<char>)>, k: int) -> Result<
    Seq<(Seq<char>, Seq<char>)>,
    Seq<char>,
>
    decreases k,
{
    if k <= 0 {
        Ok(seq![])
    } else {
        match headers_upto(headers, k - 1) {
            Err(message) => Err(message),
            Ok(list) => match header_name(headers[k - 1].0) {
                None => Err("invalid header name "@ + debug_text(headers[k - 1].0)),
                Some(name) => if is_header_value(headers[k - 1].1) {
                    Ok(with_header(list, name, headers[k - 1].1))
                } else {
                    Err("invalid value for header "@ + name)
                },
            },
        }
    }
}

/// The headers to send with every request, or what is wrong with them.
pub open spec fn all_headers(headers: Seq<(Seq<char>, Seq<char>)>) -> Result<
    Seq<(Seq<char>, Seq<char>)>,
    Seq<char>,
> {
    match headers_upto(headers, headers.len() as int) {
        Ok(list) => Ok(
            with_header(
                list,
                "accept"@,
                "application/graphql-response+json, application/json;q=0.9"@,
            ),
        ),
        Err(message) => Err(message),
    }
}

/// Adds a header, or replaces its value.
fn set_header(list: &mut Vec<(String, String)>, name: String, value: String)
    ensures
        header_models(final(list)@) == with_header(header_models(old(list)@), name@, value@),
{
    let ghost before = header_models(list@);
    let mut i: usize = 0;
    while i < list.len()
        invariant
            before == header_models(list@),
            before == header_models(old(list)@),
            header_slot(before, name@, 0) == header_slot(before, name@, i as int),
        decreases list@.len() - i,
    {
        assert(before[i as int] == (list@[i as int].0@, list@[i as int].1@));
        if same(list[i].0.as_str(), name.as_str()) {
            list[i].1 = value;
            assert(header_models(list@) =~= before.update(i as int, (name@, value@)));
            return ;
        }
        i = i + 1;
    }
    list.push((name, value));
    assert(header_models(list@) =~= before.push((name@, value@)));
}

/// What fails for some headers fails for more.
proof fn lemma_headers_fail(headers: Seq<(Seq<char>, Seq<char>)>, k: int, n: int)
    requires
        0 <= k <= n,
        headers_upto(headers, k) is Err,
    ensures
        headers_upto(headers, n) == headers_upto(headers, k),
    decreases n - k,
{
    if k < n {
        lemma_headers_fail(headers, k, n - 1);
    }
}

/// The headers to send with every request: those that were asked for, and what is accepted.
pub fn request_headers(headers: &Vec<(String, String)>) -> (r: Result<
    Vec<(String, String)>,
    Error,
>)
    ensures
        match all_headers(header_models(headers@)) {
            Ok(list) => r matches Ok(out) && header_models(out@) == list,
            Err(message) => r matches Err(e) && e@ == ErrorModel::Config(message),
        },
{
    let ghost asked = header_models(headers@);
    let mut list: Vec<(String, String)> = Vec::new();
    assert(header_models(list@) =~= seq![]);
    for i in 0..headers.len()
        invariant
            asked == header_models(headers@),
            headers_upto(asked, i as int) == Ok::<_, Seq<char>>(header_models(list@)),
    {
        assert(asked[i as int] == (headers@[i as int].0@, headers@[i as int].1@));
        let name = match read_header_name(headers[i].0.as_str()) {
            Some(name) => name,
            None => {
                let mut message = "invalid header name ".to_owned();
                message.append(quoted(headers[i].0.as_str()).as_str());
                proof {
                    lemma_headers_fail(asked, i + 1, asked.len() as int);
                }
                return Err(Error::Config(message));
            },
        };
        if !check_header_value(headers[i].1.as_str()) {
            let mut message = "invalid value for header ".to_owned();
            message.append(name.as_str());
            proof {
                lemma_headers_fail(asked, i + 1, asked.len() as int);
            }
            return Err(Error::Config(message));
        }
        set_header(&mut list, name, headers[i].1.clone());
    }
    set_header(
        &mut list,
        "accept".to_owned(),
        "application/graphql-response+json, application/json;q=0.9".to_owned(),
    );
    Ok(list)
}

// ---------------------------------------------------------------------------------------
// The request
// ---------------------------------------------------------------------------------------
/// The body of a request. Variables are left out where there are none. An empty operation name
/// is never sent: servers treat it as "no operation with that name".
pub open spec fn body(
    query: Seq<char>,
    operation: Option<Seq<char>>,
    variables: JsonModel,
) -> JsonModel {
    let a: Entries = seq![("query"@, JsonModel::Text(query))];
    let b: Entries = if variables matches JsonModel::Object(entries) && entries.len() == 0 {
        seq![]
    } else {
        seq![("variables"@, variables)]
    };
    let c: Entries = match operation {
        Some(name) => if name.len() == 0 {
            seq![]
        } else {
            seq![("operationName"@, JsonModel::Text(name))]
        },
        None => seq![],
    };
    JsonModel::Object(a + b + c)
}

/// Whether a value is an object without entries.
fn is_empty_object(value: &Json) -> (r: bool)
    ensures
        r == (value@ matches JsonModel::Object(entries) && entries.len() == 0),
{
    match value {
        Json::Object(entries) => {
            assert(entries_model(entries@).len() == entries@.len());
            entries.len() == 0
        },
        _ => false,
    }
}

/// The body of a request.
pub fn request_body(request: &Request) -> (r: Json)
    ensures
        r@ == body(request.query@, opt_text(request.operation), request.variables@),
{
    let mut entries: Vec<(String, Json)> = Vec::new();
    entries.push(("query".to_owned(), Json::Text(request.query.clone())));
    if !is_empty_object(&request.variables) {
        entries.push(("variables".to_owned(), request.variables.copy()));
    }
    if let Some(name) = &request.operation {
        if chars_of(name.as_str()).len() > 0 {
            entries.push(("operationName".to_owned(), Json::Text(name.clone())));
        }
    }
    assert(JsonModel::Object(entries_model(entries@)) == body(
        request.query@,
        opt_text(request.operation),
        request.variables@,
    )) by {
        let all = body(request.query@, opt_text(request.operation), request.variables@)->Object_0;
        assert(entries_model(entries@) =~= all);
    }
    Json::Object(entries)
}

/// The text to send.
pub fn request_text(request: &Request) -> (r: String)
    ensures
        r@ == compact(
            canonical(body(request.query@, opt_text(request.operation), request.variables@)),
        ),
{
    request_body(request).write()
}

// ---------------------------------------------------------------------------------------
// What the server says
// ---------------------------------------------------------------------------------------
/// One error of a GraphQL response.
#[derive(Debug)]
pub struct GraphQlError {
    pub message: String,
    /// Where in the response, when the server said so.
    pub path: Option<Vec<Json>>,
    /// An object: whatever the server adds.
    pub extensions: Json,
    pub kind: Option<String>,
}

/// What a [`GraphQlError`] stands for.
pub struct GraphQlErrorModel {
    pub message: Seq<char>,
    pub path: Option<Seq<JsonModel>>,
    pub extensions: JsonModel,
    pub kind: Option<Seq<char>>,
}

impl View for GraphQlError {
    type V = GraphQlErrorModel;

    open spec fn view(&self) -> GraphQlErrorModel {
        GraphQlErrorModel {
            message: self.message@,
            path: match self.path {
                Some(path) => Some(items_model(path@)),
                None => None,
            },
            extensions: self.extensions@,
            kind: opt_text(self.kind),
        }
    }
}

/// A GraphQL response.
#[derive(Debug)]
pub struct GraphQlResponse {
    pub data: Option<Json>,
    pub errors: Vec<GraphQlError>,
}

/// What a list of errors stands for.
pub open spec fn error_models(errors: Seq<GraphQlError>) -> Seq<GraphQlErrorModel> {
    Seq::new(errors.len(), |i: int| errors[i]@)
}

/// The codes worth retrying. Everything else is deterministic: a validation error will fail
/// identically three times in a row.
pub open spec fn is_retryable_code(code: Seq<char>) -> bool {
    ||| code == "RATE_LIMITED"@
    ||| code == "THROTTLED"@
    ||| code == "TIMEOUT"@
    ||| code == "SERVICE_UNAVAILABLE"@
    ||| code == "INTERNAL_SERVER_ERROR"@
}

impl GraphQlErrorModel {
    /// The code of an error: its type, else the code in its extensions.
    pub open spec fn code(self) -> Option<Seq<char>> {
        match self.kind {
            Some(kind) => Some(kind),
            None => match field(self.extensions, "code"@) {
                Some(JsonModel::Text(code)) => Some(code),
                _ => None,
            },
        }
    }

    /// Whether waiting could fix an error.
    pub open spec fn retryable(self) -> bool {
        self.code() matches Some(code) && is_retryable_code(uppered(code))
    }

    /// An error on one line: its message, where it is and its code.
    pub open spec fn line(self) -> Seq<char> {
        let at = match self.path {
            Some(path) => " at "@ + joined(segments(path), "."@),
            None => seq![],
        };
        let code = match self.code() {
            Some(code) => " ["@ + code + "]"@,
            None => seq![],
        };
        self.message + at + code
    }
}

/// One step of the path of an error.
pub open spec fn segment(v: JsonModel) -> Seq<char> {
    match v {
        JsonModel::Text(text) => text,
        _ => compact(canonical(v)),
    }
}

/// The steps of the path of an error.
pub open spec fn segments(path: Seq<JsonModel>) -> Seq<Seq<char>> {
    Seq::new(path.len(), |i: int| segment(path[i]))
}

/// The first five errors, one after the other, and how many more there are.
pub open spec fn summary(errors: Seq<GraphQlErrorModel>) -> Seq<char> {
    let shown = if errors.len() > 5 {
        5
    } else {
        errors.len() as int
    };
    let lines = Seq::new(shown as nat, |i: int| errors[i].line());
    let all = if errors.len() > 5 {
        lines.push("… and "@ + decimal((errors.len() - 5) as nat) + " more"@)
    } else {
        lines
    };
    joined(all, "; "@)
}

impl GraphQlError {
    /// The code of the error.
    pub fn code(&self) -> (r: Option<String>)
        ensures
            opt_text(r) == self@.code(),
    {
        match &self.kind {
            Some(kind) => Some(kind.clone()),
            None => match self.extensions.field("code") {
                Some(Json::Text(code)) => Some(code.clone()),
                _ => None,
            },
        }
    }

    /// Whether waiting could fix the error.
    pub fn retryable(&self) -> (r: bool)
        ensures
            r == self@.retryable(),
    {
        match self.code() {
            Some(code) => {
                let upper = to_upper(code.as_str());
                same(upper.as_str(), "RATE_LIMITED") || same(upper.as_str(), "THROTTLED") || same(
                    upper.as_str(),
                    "TIMEOUT",
                ) || same(upper.as_str(), "SERVICE_UNAVAILABLE") || same(
                    upper.as_str(),
                    "INTERNAL_SERVER_ERROR",
                )
            },
            None => false,
        }
    }

    /// The error on one line.
    fn line(&self) -> (r: String)
        ensures
            r@ == self@.line(),
    {
        let mut r = self.message.clone();
        match &self.path {
            Some(path) => {
                let mut parts: Vec<String> = Vec::new();
                for i in 0..path.len()
                    invariant
                        parts@.len() == i,
                        forall|j: int|
                            0 <= j < i ==> (#[trigger] parts@[j])@ == segment(path@[j]@),
                {
                    parts.push(render_path_segment(&path[i]));
                }
                assert(texts(parts@) =~= segments(items_model(path@)));
                r.append(" at ");
                r.append(join(&parts, ".").as_str());
                assert(r@ =~= self@.message + (" at "@ + joined(
                    segments(items_model(path@)),
                    "."@,
                )));
            },
            None => {
                assert(r@ =~= self@.message + Seq::<char>::empty());
            },
        }
        let ghost head = r@;
        match self.code() {
            Some(code) => {
                r.append(" [");
                r.append(code.as_str());
                r.append("]");
                assert(r@ =~= head + (" ["@ + code@ + "]"@));
            },
            None => {
                assert(r@ =~= head + Seq::<char>::empty());
            },
        }
        r
    }
}

/// One step of the path of an error.
fn render_path_segment(v: &Json) -> (r: String)
    ensures
        r@ == segment(v@),
{
    match v {
        Json::Text(text) => text.clone(),
        other => other.write(),
    }
}

/// The first five errors, and how many more there are.
pub fn summarize(errors: &Vec<GraphQlError>) -> (r: String)
    ensures
        r@ == summary(error_models(errors@)),
{
    let mut lines: Vec<String> = Vec::new();
    let shown: usize = if errors.len() > 5 {
        5
    } else {
        errors.len()
    };
    for i in 0..shown
        invariant
            shown <= errors@.len(),
            lines@.len() == i,
            forall|j: int| 0 <= j < i ==> (#[trigger] lines@[j])@ == errors@[j]@.line(),
    {
        lines.push(errors[i].line());
    }
    let ghost models = error_models(errors@);
    assert(texts(lines@) =~= Seq::new(shown as nat, |i: int| models[i].line()));
    if errors.len() > 5 {
        let ghost done = texts(lines@);
        let mut more = "… and ".to_owned();
        more.append(write_decimal((errors.len() - 5) as u64).as_str());
        more.append(" more");
        lines.push(more);
        assert(texts(lines@) =~= done.push(more@));
    }
    join(&lines, "; ")
}

// ---------------------------------------------------------------------------------------
// What is made of a reply
// ---------------------------------------------------------------------------------------
/// What the head of an HTTP response says.
#[derive(Debug)]
pub struct Reply {
    /// The status code: three digits, the first one not 0.
    pub status: u16,
    /// The `Retry-After` header, where it can be read.
    pub retry_after: Option<String>,
    /// The `Location` header, where it can be read.
    pub location: Option<String>,
    /// The `Content-Type` header, where it can be read.
    pub content_type: Option<String>,
}

/// What a [`Reply`] stands for.
pub struct ReplyModel {
    pub status: u16,
    pub retry_after: Option<Seq<char>>,
    pub location: Option<Seq<char>>,
    pub content_type: Option<Seq<char>>,
}

impl View for Reply {
    type V = ReplyModel;

    open spec fn view(&self) -> ReplyModel {
        ReplyModel {
            status: self.status,
            retry_after: opt_text(self.retry_after),
            location: opt_text(self.location),
            content_type: opt_text(self.content_type),
        }
    }
}

/// A failure, and whether waiting could fix it.
#[derive(Debug)]
pub enum Fault {
    Fatal(Error),
    Transient {
        error: Error,
        /// What the server asked us to wait, in seconds, when it said so.
        wait: Option<u64>,
    },
}

/// What a [`Fault`] stands for.
pub enum FaultModel {
    Fatal(ErrorModel),
    Transient { error: ErrorModel, wait: Option<u64> },
}

impl View for Fault {
    type V = FaultModel;

    open spec fn view(&self) -> FaultModel {
        match *self {
            Fault::Fatal(error) => FaultModel::Fatal(error@),
            Fault::Transient { error, wait } => FaultModel::Transient { error: error@, wait },
        }
    }
}

/// A status code with its reason, as in `404 Not Found`.
pub uninterp spec fn status_text(status: u16) -> Seq<char>;

/// The text that bytes are read as, whatever they are.
pub uninterp spec fn lossy_text(bytes: Seq<u8>) -> Seq<char>;

/// `<reqwest::StatusCode as Display>::fmt`, on the status with that code.
///
/// Claimed of it: what is written depends on the code alone, and begins with it. Codes that
/// are no status codes are left out.
#[verifier::external_body]
fn write_status(status: u16) -> (r: String)
    requires
        100 <= status <= 999,
    ensures
        r@ == status_text(status),
        (decimal(status as nat) + " "@).is_prefix_of(r@),
{
    reqwest::StatusCode::from_u16(status).expect("a status code").to_string()
}

/// `String::from_utf8_lossy`.
///
/// Claimed of it: the text depends on the bytes alone; bytes that encode a text are read as
/// that text.
#[verifier::external_body]
fn read_lossy(bytes: &Vec<u8>) -> (r: String)
    ensures
        r@ == lossy_text(bytes@),
        valid_utf8(bytes@) ==> r@ == decode_utf8(bytes@),
{
    String::from_utf8_lossy(bytes).into_owned()
}

/// Whether a text consists of decimal digits.
pub open spec fn all_digits(s: Seq<char>) -> bool {
    forall|i: int| 0 <= i < s.len() ==> '0' <= #[trigger] s[i] <= '9'
}

/// The number that digits write.
pub open spec fn number(digits: Seq<char>) -> nat
    decreases digits.len(),
{
    if digits.len() == 0 {
        0
    } else {
        (number(digits.drop_last()) * 10 + (digits.last() as int - 48)) as nat
    }
}

/// The number that a text writes: digits, with a plus sign before them or none. Nothing where
/// the text is no number, or one that does not fit.
pub open spec fn parsed_number(text: Seq<char>) -> Option<nat> {
    let digits = if text.len() > 0 && text[0] == '+' {
        text.drop_first()
    } else {
        text
    };
    if digits.len() > 0 && all_digits(digits) && number(digits) <= u64::MAX {
        Some(number(digits))
    } else {
        None
    }
}

/// More digits write a greater number.
proof fn lemma_number_grows(digits: Seq<char>, k: int)
    requires
        all_digits(digits),
        0 <= k <= digits.len(),
    ensures
        number(digits.take(k)) <= number(digits),
    decreases digits.len(),
{
    if k < digits.len() {
        let rest = digits.drop_last();
        lemma_number_grows(rest, k);
        assert(rest.take(k) =~= digits.take(k));
    } else {
        assert(digits.take(k) =~= digits);
    }
}

/// The number that a text writes.
pub fn parse_number(text: &str) -> (r: Option<u64>)
    ensures
        match r {
            Some(n) => parsed_number(text@) == Some(n as nat),
            None => parsed_number(text@) is None,
        },
{
    let chars = chars_of(text);
    let from: usize = if chars.len() > 0 && chars[0] == '+' {
        1
    } else {
        0
    };
    let ghost digits = chars@.skip(from as int);
    proof {
        assert(from == 1 ==> digits =~= text@.drop_first());
        assert(from == 0 ==> digits =~= text@);
    }
    if from >= chars.len() {
        return None;
    }
    let mut n: u64 = 0;
    assert(digits.take(0) =~= seq![]);
    for i in from..chars.len()
        invariant
            from <= chars@.len(),
            chars@ == text@,
            digits == chars@.skip(from as int),
            digits.len() > 0,
            digits == (if text@.len() > 0 && text@[0] == '+' {
                text@.drop_first()
            } else {
                text@
            }),
            all_digits(digits.take(i - from)),
            n == number(digits.take(i - from)),
    {
        let c = chars[i];
        let ghost k = i - from;
        assert(digits[k] == c);
        if c < '0' || c > '9' {
            return None;
        }
        proof {
            assert(digits.take(k + 1).drop_last() =~= digits.take(k));
            assert(digits.take(k + 1).last() == c);
            assert forall|j: int| 0 <= j < k + 1 implies '0' <= #[trigger] digits.take(k + 1)[j]
                <= '9' by {
                if j < k {
                    assert(digits.take(k)[j] == digits.take(k + 1)[j]);
                }
            }
        }
        let d: u64 = (c as u8 - 48) as u64;
        if n > (u64::MAX - d) / 10 {
            proof {
                assert(n * 10 + d > u64::MAX);
                if all_digits(digits) {
                    lemma_number_grows(digits, k + 1);
                }
            }
            return None;
        }
        n = n * 10 + d;
    }
    proof {
        assert(digits.take(digits.len() as int) =~= digits);
    }
    Some(n)
}

/// What the server asked us to wait, in seconds.
pub open spec fn wait_of(reply: ReplyModel) -> Option<u64> {
    match reply.retry_after {
        Some(text) => match parsed_number(text) {
            Some(n) => Some(n as u64),
            None => None,
        },
        None => None,
    }
}

/// What the server asked us to wait, in seconds.
fn read_wait(reply: &Reply) -> (r: Option<u64>)
    ensures
        r == wait_of(reply@),
{
    match &reply.retry_after {
        Some(text) => parse_number(text.as_str()),
        None => None,
    }
}

/// The media type of a reply; empty where there is none.
pub open spec fn media(reply: ReplyModel) -> Seq<char> {
    match reply.content_type {
        Some(text) => text,
        None => seq![],
    }
}

/// What is wrong with the head of a reply: it redirects.
pub open spec fn head_fault(reply: ReplyModel, file: Seq<char>) -> Option<FaultModel> {
    if 300 <= reply.status < 400 {
        let target = match reply.location {
            Some(location) => location,
            None => "<no Location header>"@,
        };
        Some(
            FaultModel::Fatal(
                ErrorModel::Response {
                    path: file,
                    message: "the endpoint redirects to "@ + target + " (HTTP "@ + status_text(
                        reply.status,
                    )
                        + "). A redirected POST silently becomes a GET — fix the URL in your config."@,
                },
            ),
        )
    } else {
        None
    }
}

/// Refuses a redirection.
pub fn check_head(reply: &Reply, file: &str) -> (r: Result<(), Fault>)
    requires
        100 <= reply.status <= 999,
    ensures
        match head_fault(reply@, file@) {
            Some(fault) => r matches Err(f) && f@ == fault,
            None => r is Ok,
        },
{
    if reply.status < 300 || reply.status >= 400 {
        return Ok(());
    }
    let target = match &reply.location {
        Some(location) => location.clone(),
        None => "<no Location header>".to_owned(),
    };
    let mut message = "the endpoint redirects to ".to_owned();
    message.append(target.as_str());
    message.append(" (HTTP ");
    message.append(write_status(reply.status).as_str());
    message.append(
        "). A redirected POST silently becomes a GET — fix the URL in your config.",
    );
    Err(Fault::Fatal(Error::Response { path: file.to_owned(), message }))
}

/// Takes in one more piece of a body, and stops as soon as the cap is passed rather than after
/// allocating it. Counted after decompression: a 5 MB gzip response can expand to gigabytes.
pub fn push_chunk(body: &mut Vec<u8>, chunk: &Vec<u8>, cap: u64, file: &str) -> (r: Result<
    (),
    Fault,
>)
    ensures
        final(body)@ == old(body)@ + chunk@,
        if old(body)@.len() + chunk@.len() > cap {
            r matches Err(f) && f@ == FaultModel::Fatal(
                ErrorModel::Response {
                    path: file@,
                    message: "the response went past --max-response-bytes ("@ + decimal(cap as nat)
                        + " bytes). Narrow the query, or raise the limit."@,
                },
            )
        } else {
            r is Ok
        },
{
    body.extend_from_slice(chunk.as_slice());
    assert(body@ =~= old(body)@ + chunk@);
    if body.len() as u64 > cap {
        let mut message = "the response went past --max-response-bytes (".to_owned();
        message.append(write_decimal(cap).as_str());
        message.append(" bytes). Narrow the query, or raise the limit.");
        return Err(Fault::Fatal(Error::Response { path: file.to_owned(), message }));
    }
    Ok(())
}

/// What is wrong with a reply that is not JSON; the text is what its body is read as. A WAF, a
/// maintenance page or a proxy answers HTML with a 200.
pub open spec fn media_fault(reply: ReplyModel, text: Seq<char>, file: Seq<char>) -> Option<
    FaultModel,
> {
    if occurs(media(reply), "json"@) {
        None
    } else {
        let shown = if media(reply).len() == 0 {
            "<none>"@
        } else {
            media(reply)
        };
        let head = if text.len() > 200 {
            text.take(200)
        } else {
            text
        };
        Some(
            FaultModel::Transient {
                error: ErrorModel::Response {
                    path: file,
                    message: "expected JSON, got HTTP "@ + status_text(reply.status)
                        + " with Content-Type "@ + debug_text(shown) + ".\nFirst bytes: "@ + head,
                },
                wait: wait_of(reply),
            },
        )
    }
}

/// The media type of a reply.
fn read_media(reply: &Reply) -> (r: String)
    ensures
        r@ == media(reply@),
{
    match &reply.content_type {
        Some(text) => text.clone(),
        None => String::new(),
    }
}

/// Refuses a reply that is not JSON, given the text that its body is read as.
pub fn check_media_text(reply: &Reply, text: &str, file: &str) -> (r: Result<(), Fault>)
    requires
        100 <= reply.status <= 999,
    ensures
        match media_fault(reply@, text@, file@) {
            Some(fault) => r matches Err(f) && f@ == fault,
            None => r is Ok,
        },
{
    let media = read_media(reply);
    if contains(media.as_str(), "json") {
        return Ok(());
    }
    let shown = if chars_of(media.as_str()).len() == 0 {
        "<none>".to_owned()
    } else {
        media
    };
    let chars = chars_of(text);
    let count: usize = if chars.len() > 200 {
        200
    } else {
        chars.len()
    };
    let head = text_of(&chars, 0, count);
    proof {
        if text@.len() > 200 {
            assert(head@ =~= text@.take(200));
        } else {
            assert(head@ =~= text@);
        }
    }
    let mut message = "expected JSON, got HTTP ".to_owned();
    message.append(write_status(reply.status).as_str());
    message.append(" with Content-Type ");
    message.append(quoted(shown.as_str()).as_str());
    message.append(".\nFirst bytes: ");
    message.append(head.as_str());
    Err(
        Fault::Transient {
            error: Error::Response { path: file.to_owned(), message },
            wait: read_wait(reply),
        },
    )
}

/// Refuses a reply that is not JSON.
pub fn check_media(reply: &Reply, body: &Vec<u8>, file: &str) -> (r: Result<(), Fault>)
    requires
        100 <= reply.status <= 999,
    ensures
        match media_fault(reply@, lossy_text(body@), file@) {
            Some(fault) => r matches Err(f) && f@ == fault,
            None => r is Ok,
        },
        valid_utf8(body@) ==> match media_fault(reply@, decode_utf8(body@), file@) {
            Some(fault) => r matches Err(f) && f@ == fault,
            None => r is Ok,
        },
{
    check_media_text(reply, read_lossy(body).as_str(), file)
}

/// What a [`GraphQlResponse`] stands for.
pub struct ResponseModel {
    pub data: Option<JsonModel>,
    pub errors: Seq<GraphQlErrorModel>,
}

impl View for GraphQlResponse {
    type V = ResponseModel;

    open spec fn view(&self) -> ResponseModel {
        ResponseModel { data: opt_json(self.data), errors: error_models(self.errors@) }
    }
}

/// A result, and what there is to warn about.
#[derive(Debug)]
pub struct Accepted {
    pub data: Json,
    pub warning: Option<String>,
}

/// Whether a response has `data` that is not null.
pub open spec fn has_data(response: ResponseModel) -> bool {
    response.data matches Some(data) && data != JsonModel::Null
}

/// Whether waiting could fix one of the errors.
pub open spec fn any_retryable(errors: Seq<GraphQlErrorModel>) -> bool {
    exists|i: int| 0 <= i < errors.len() && (#[trigger] errors[i]).retryable()
}

/// A failure of the server, not of the query.
pub open spec fn server_fault(reply: ReplyModel, message: Seq<char>, file: Seq<char>) -> FaultModel {
    FaultModel::Transient {
        error: ErrorModel::Response { path: file, message },
        wait: wait_of(reply),
    }
}

/// A failure of the query that no waiting can fix.
pub open spec fn query_fault(message: Seq<char>, file: Seq<char>) -> FaultModel {
    FaultModel::Fatal(ErrorModel::GraphQl { path: file, message })
}

/// What is made of a GraphQL response: its data, with a warning where it is partial and that is
/// allowed; or the failure that it is.
pub open spec fn response_verdict(
    reply: ReplyModel,
    response: ResponseModel,
    allow_partial: bool,
    file: Seq<char>,
) -> Result<(JsonModel, Option<Seq<char>>), FaultModel> {
    let graphql = "application/graphql-response+json"@.is_prefix_of(media(reply));
    if !graphql && 500 <= reply.status < 600 {
        Err(
            server_fault(
                reply,
                "HTTP "@ + status_text(reply.status) + " from the server"@,
                file,
            ),
        )
    } else if reply.status == 429 {
        Err(server_fault(reply, "HTTP 429 Too Many Requests"@, file))
    } else if response.errors.len() > 0 {
        if any_retryable(response.errors) {
            Err(
                FaultModel::Transient {
                    error: ErrorModel::GraphQl { path: file, message: summary(response.errors) },
                    wait: wait_of(reply),
                },
            )
        } else if !(has_data(response) && allow_partial) {
            Err(query_fault(summary(response.errors), file))
        } else {
            Ok((response.data->0, Some(file + ": "@ + summary(response.errors))))
        }
    } else if has_data(response) {
        Ok((response.data->0, None))
    } else {
        Err(
            query_fault(
                "HTTP "@ + status_text(reply.status) + ": the response has no `data`"@,
                file,
            ),
        )
    }
}

/// Whether a status says that the server failed, or that it is asked too often: waiting could
/// fix that.
pub open spec fn is_passing(status: u16) -> bool {
    500 <= status < 600 || status == 429
}

/// What is made of a reply whose body was read as JSON, or was not. A body that cannot be read
/// is worth another try where the status says that waiting could help.
pub open spec fn verdict(
    reply: ReplyModel,
    parsed: Result<ResponseModel, Seq<char>>,
    allow_partial: bool,
    file: Seq<char>,
) -> Result<(JsonModel, Option<Seq<char>>), FaultModel> {
    match parsed {
        Err(why) => {
            let message = "HTTP "@ + status_text(reply.status) + ": malformed JSON: "@ + why;
            if is_passing(reply.status) {
                Err(server_fault(reply, message, file))
            } else {
                Err(FaultModel::Fatal(ErrorModel::Response { path: file, message }))
            }
        },
        Ok(response) => response_verdict(reply, response, allow_partial, file),
    }
}

/// Whether waiting could fix one of the errors.
fn some_retryable(errors: &Vec<GraphQlError>) -> (r: bool)
    ensures
        r == any_retryable(error_models(errors@)),
{
    let ghost models = error_models(errors@);
    for i in 0..errors.len()
        invariant
            models == error_models(errors@),
            forall|j: int| 0 <= j < i ==> !(#[trigger] models[j]).retryable(),
    {
        if errors[i].retryable() {
            assert(models[i as int].retryable());
            return true;
        }
    }
    false
}

/// Makes a result, or a failure, of a reply whose body was read as JSON, or was not.
///
/// Per GraphQL-over-HTTP, a response in the graphql media type is read regardless of the status
/// code; a legacy `application/json` response carries its meaning in the body too.
pub fn judge(
    reply: &Reply,
    parsed: Result<GraphQlResponse, String>,
    allow_partial: bool,
    file: &str,
) -> (r: Result<Accepted, Fault>)
    requires
        100 <= reply.status <= 999,
    ensures
        match verdict(
            reply@,
            match parsed {
                Ok(response) => Ok(response@),
                Err(why) => Err(why@),
            },
            allow_partial,
            file@,
        ) {
            Ok((data, warning)) => {
                &&& r matches Ok(accepted)
                &&& accepted.data@ == data
                &&& opt_text(accepted.warning) == warning
            },
            Err(fault) => r matches Err(f) && f@ == fault,
        },
{
    let response = match parsed {
        Ok(response) => response,
        Err(why) => {
            let mut message = "HTTP ".to_owned();
            message.append(write_status(reply.status).as_str());
            message.append(": malformed JSON: ");
            message.append(why.as_str());
            let error = Error::Response { path: file.to_owned(), message };
            if (reply.status >= 500 && reply.status < 600) || reply.status == 429 {
                return Err(Fault::Transient { error, wait: read_wait(reply) });
            }
            return Err(Fault::Fatal(error));
        },
    };
    let media = read_media(reply);
    let graphql = starts_with(media.as_str(), "application/graphql-response+json");
    if !graphql && reply.status >= 500 && reply.status < 600 {
        let mut message = "HTTP ".to_owned();
        message.append(write_status(reply.status).as_str());
        message.append(" from the server");
        return Err(
            Fault::Transient {
                error: Error::Response { path: file.to_owned(), message },
                wait: read_wait(reply),
            },
        );
    }
    if reply.status == 429 {
        return Err(
            Fault::Transient {
                error: Error::Response {
                    path: file.to_owned(),
                    message: "HTTP 429 Too Many Requests".to_owned(),
                },
                wait: read_wait(reply),
            },
        );
    }
    assert(error_models(response.errors@).len() == response.errors@.len());
    if response.errors.len() > 0 {
        let summary = summarize(&response.errors);
        if some_retryable(&response.errors) {
            return Err(
                Fault::Transient {
                    error: Error::GraphQl { path: file.to_owned(), message: summary },
                    wait: read_wait(reply),
                },
            );
        }
        // Field errors: `data` is there, some fields are null. Fatal unless allowed.
        return match response.data {
            Some(Json::Null) | None => Err(
                Fault::Fatal(Error::GraphQl { path: file.to_owned(), message: summary }),
            ),
            Some(data) => if allow_partial {
                let mut warning = file.to_owned();
                warning.append(": ");
                warning.append(summary.as_str());
                Ok(Accepted { data, warning: Some(warning) })
            } else {
                Err(Fault::Fatal(Error::GraphQl { path: file.to_owned(), message: summary }))
            },
        };
    }
    match response.data {
        Some(Json::Null) | None => {
            let mut message = "HTTP ".to_owned();
            message.append(write_status(reply.status).as_str());
            message.append(": the response has no `data`");
            Err(Fault::Fatal(Error::GraphQl { path: file.to_owned(), message }))
        },
        Some(data) => Ok(Accepted { data, warning: None }),
    }
}

/// What the failure to get a response at all is: worth another try.
pub open spec fn unsent(why: Seq<char>, file: Seq<char>) -> FaultModel {
    FaultModel::Transient { error: ErrorModel::Response { path: file, message: why }, wait: None }
}

/// The failure to get a response at all.
pub fn send_fault(why: &str, file: &str) -> (r: Fault)
    ensures
        r@ == unsent(why@, file@),
{
    Fault::Transient {
        error: Error::Response { path: file.to_owned(), message: why.to_owned() },
        wait: None,
    }
}

/// What the failure to get the whole of a response is: worth another try when time ran out.
pub open spec fn unread(why: Seq<char>, timed_out: bool, file: Seq<char>) -> FaultModel {
    let error = ErrorModel::Response {
        path: file,
        message: "while reading the response: "@ + why,
    };
    if timed_out {
        FaultModel::Transient { error, wait: None }
    } else {
        FaultModel::Fatal(error)
    }
}

/// The failure to get the whole of a response. The timeout is for the request as a whole, so it
/// can run out while the body is read.
pub fn read_fault(why: &str, timed_out: bool, file: &str) -> (r: Fault)
    ensures
        r@ == unread(why@, timed_out, file@),
{
    let mut message = "while reading the response: ".to_owned();
    message.append(why);
    let error = Error::Response { path: file.to_owned(), message };
    if timed_out {
        Fault::Transient { error, wait: None }
    } else {
        Fault::Fatal(error)
    }
}

// ---------------------------------------------------------------------------------------
// Trying again
// ---------------------------------------------------------------------------------------
/// What to do after a failure.
#[derive(Debug)]
pub enum Retry {
    GiveUp(Error),
    /// Wait that many seconds, then send the request again.
    Wait { seconds: u64, notice: String },
}

/// What to do after a failure, once `attempt` requests have failed before: the number of
/// seconds to wait and the line that says so, or the error.
pub open spec fn after(
    fault: FaultModel,
    attempt: u32,
    retries: u32,
    file: Seq<char>,
) -> Result<(u64, Seq<char>), ErrorModel> {
    match fault {
        FaultModel::Fatal(error) => Err(error),
        FaultModel::Transient { error, wait } => if attempt >= retries {
            Err(error)
        } else {
            let seconds = match wait {
                Some(seconds) => seconds,
                None => 2,
            };
            Ok(
                (
                    seconds,
                    file + ": "@ + error_line(error) + " — retrying in "@ + decimal(seconds as nat)
                        + "s ("@ + decimal((attempt + 1) as nat) + "/"@ + decimal(retries as nat)
                        + ")"@,
                ),
            )
        },
    }
}

/// What to do after a failure: another try on transient failures only, as long as there are
/// some left.
pub fn after_fault(fault: Fault, attempt: u32, retries: u32, file: &str) -> (r: Retry)
    ensures
        match after(fault@, attempt, retries, file@) {
            Ok((seconds, notice)) => r matches Retry::Wait { seconds: s, notice: n } && s == seconds
                && n@ == notice,
            Err(error) => r matches Retry::GiveUp(e) && e@ == error,
        },
{
    match fault {
        Fault::Fatal(error) => Retry::GiveUp(error),
        Fault::Transient { error, wait } => {
            if attempt >= retries {
                return Retry::GiveUp(error);
            }
            let seconds: u64 = match wait {
                Some(seconds) => seconds,
                None => 2,
            };
            let mut notice = file.to_owned();
            notice.append(": ");
            notice.append(error.line().as_str());
            notice.append(" — retrying in ");
            notice.append(write_decimal(seconds).as_str());
            notice.append("s (");
            notice.append(write_decimal(attempt as u64 + 1).as_str());
            notice.append("/");
            notice.append(write_decimal(retries as u64).as_str());
            notice.append(")");
            Retry::Wait { seconds, notice }
        },
    }
}

// ---------------------------------------------------------------------------------------
// Laws
// ---------------------------------------------------------------------------------------
/// How many requests are sent when each one fails as listed, from failure `i` on: one, and one
/// more for each failure after which another try is made.
pub open spec fn requests_sent(faults: Seq<FaultModel>, retries: u32, file: Seq<char>, i: int) -> nat
    decreases faults.len() - i,
{
    if i < 0 || i >= faults.len() || i > u32::MAX || after(faults[i], i as u32, retries, file)
        is Err {
        1
    } else {
        1 + requests_sent(faults, retries, file, i + 1)
    }
}

/// However often it fails, a request is sent no more than once and as often as there are
/// retries.
pub proof fn law_retries_are_bounded(faults: Seq<FaultModel>, retries: u32, file: Seq<char>, i: int)
    requires
        0 <= i <= retries,
    ensures
        requests_sent(faults, retries, file, i) <= retries - i + 1,
    decreases faults.len() - i,
{
    if i < faults.len() && after(faults[i], i as u32, retries, file) is Ok {
        law_retries_are_bounded(faults, retries, file, i + 1);
    }
}

/// An error whose code is not worth retrying is reported at once: a response with such errors
/// only, whatever its status says but for rate limits and server failures, is not asked for
/// again, however many retries there are.
pub proof fn law_query_errors_are_not_retried(
    reply: ReplyModel,
    response: ResponseModel,
    file: Seq<char>,
    attempt: u32,
    retries: u32,
)
    requires
        response.errors.len() > 0,
        forall|i: int| 0 <= i < response.errors.len() ==> !(#[trigger] response.errors[i]).retryable(),
        reply.status < 500,
        reply.status != 429,
    ensures
        response_verdict(reply, response, false, file) matches Err(fault) && after(
            fault,
            attempt,
            retries,
            file,
        ) == Err::<(u64, Seq<char>), _>(
            ErrorModel::GraphQl { path: file, message: summary(response.errors) },
        ),
{
}

/// A server failure is worth another try, as long as there are some left, whatever came with it:
/// a 5xx, unless it is a GraphQL response that can be read, and a 429.
pub proof fn law_server_failures_are_retried(
    reply: ReplyModel,
    parsed: Result<ResponseModel, Seq<char>>,
    allow_partial: bool,
    file: Seq<char>,
    attempt: u32,
    retries: u32,
)
    requires
        is_passing(reply.status),
        reply.status == 429 || parsed is Err || !"application/graphql-response+json"@.is_prefix_of(
            media(reply),
        ),
        attempt < retries,
    ensures
        verdict(reply, parsed, allow_partial, file) matches Err(fault) && after(
            fault,
            attempt,
            retries,
            file,
        ) is Ok,
{
}

/// A timeout is worth another try, as long as there are some left, whether it hits before the
/// response or while its body is read.
pub proof fn law_timeouts_are_retried(
    why: Seq<char>,
    file: Seq<char>,
    attempt: u32,
    retries: u32,
)
    requires
        attempt < retries,
    ensures
        after(unread(why, true, file), attempt, retries, file) is Ok,
        after(unsent(why, file), attempt, retries, file) is Ok,
{
}

/// A rate limit in a 200 is worth another try, as long as there are some left.
pub proof fn law_rate_limits_are_retried(
    reply: ReplyModel,
    response: ResponseModel,
    allow_partial: bool,
    file: Seq<char>,
    attempt: u32,
    retries: u32,
)
    requires
        any_retryable(response.errors),
        attempt < retries,
    ensures
        response_verdict(reply, response, allow_partial, file) matches Err(fault) && after(
            fault,
            attempt,
            retries,
            file,
        ) is Ok,
{
}

/// Whether a header that was asked for can be sent.
pub open spec fn can_be_sent(header: (Seq<char>, Seq<char>)) -> bool {
    header_name(header.0) is Some && is_header_value(header.1)
}

/// Whether header `i` of the first `k` is the last one of its name, which is `name` in any letter
/// case.
pub open spec fn is_last_of_name(
    headers: Seq<(Seq<char>, Seq<char>)>,
    k: int,
    i: int,
    name: Seq<char>,
) -> bool {
    &&& 0 <= i < k
    &&& lowered(headers[i].0) == name
    &&& forall|j: int| i < j < k ==> lowered((#[trigger] headers[j]).0) != name
}

/// Every header that was asked for is sent, once, with the last value that it was given; names
/// are the same in any letter case. What is accepted is for the library to say. Headers are
/// refused only where one of them cannot be sent.
pub proof fn law_headers_are_sent(
    headers: Seq<(Seq<char>, Seq<char>)>,
    name: Seq<char>,
    value: Seq<char>,
)
    ensures
        all_headers(headers) is Ok <==> forall|i: int|
            0 <= i < headers.len() ==> can_be_sent(#[trigger] headers[i]),
        all_headers(headers) matches Ok(list) ==> {
            &&& forall|i: int, j: int|
                0 <= i < j < list.len() ==> (#[trigger] list[i]).0 != (#[trigger] list[j]).0
            &&& list.contains((name, value)) <==> if name == "accept"@ {
                value == "application/graphql-response+json, application/json;q=0.9"@
            } else {
                exists|i: int|
                    #[trigger] is_last_of_name(headers, headers.len() as int, i, name) && value
                        == headers[i].1
            }
        },
{
    lemma_headers(headers, headers.len() as int, name, value);
    if let Ok(list) = headers_upto(headers, headers.len() as int) {
        lemma_with_header(
            list,
            "accept"@,
            "application/graphql-response+json, application/json;q=0.9"@,
            name,
            value,
        );
    }
}

proof fn lemma_header_slot(list: Seq<(Seq<char>, Seq<char>)>, name: Seq<char>, i: int)
    requires
        0 <= i <= list.len(),
    ensures
        match header_slot(list, name, i) {
            Some(k) => i <= k < list.len() && list[k].0 == name,
            None => forall|k: int| i <= k < list.len() ==> (#[trigger] list[k]).0 != name,
        },
    decreases list.len() - i,
{
    if i < list.len() && list[i].0 != name {
        lemma_header_slot(list, name, i + 1);
    }
}

proof fn lemma_with_header(
    list: Seq<(Seq<char>, Seq<char>)>,
    new: Seq<char>,
    text: Seq<char>,
    name: Seq<char>,
    value: Seq<char>,
)
    requires
        forall|i: int, j: int|
            0 <= i < j < list.len() ==> (#[trigger] list[i]).0 != (#[trigger] list[j]).0,
    ensures
        ({
            let longer = with_header(list, new, text);
            &&& forall|i: int, j: int|
                0 <= i < j < longer.len() ==> (#[trigger] longer[i]).0 != (#[trigger] longer[j]).0
            &&& longer.contains((name, value)) <==> if name == new {
                value == text
            } else {
                list.contains((name, value))
            }
        }),
{
    lemma_header_slot(list, new, 0);
    let longer = with_header(list, new, text);
    let at = match header_slot(list, new, 0) {
        Some(k) => k,
        None => list.len() as int,
    };
    assert(longer[at] == (new, text));
    if name != new && list.contains((name, value)) {
        let i = choose|i: int| 0 <= i < list.len() && list[i] == (name, value);
        assert(longer[i] == (name, value));
    }
    if longer.contains((name, value)) {
        let i = choose|i: int| 0 <= i < longer.len() && longer[i] == (name, value);
        if i != at {
            assert(list[i] == (name, value));
        }
    }
}

proof fn lemma_headers(
    headers: Seq<(Seq<char>, Seq<char>)>,
    k: int,
    name: Seq<char>,
    value: Seq<char>,
)
    requires
        0 <= k <= headers.len(),
    ensures
        headers_upto(headers, k) is Ok <==> forall|i: int|
            0 <= i < k ==> can_be_sent(#[trigger] headers[i]),
        headers_upto(headers, k) matches Ok(list) ==> {
            &&& forall|i: int, j: int|
                0 <= i < j < list.len() ==> (#[trigger] list[i]).0 != (#[trigger] list[j]).0
            &&& list.contains((name, value)) <==> exists|i: int|
                #[trigger] is_last_of_name(headers, k, i, name) && value == headers[i].1
        },
    decreases k,
{
    if k > 0 {
        lemma_headers(headers, k - 1, name, value);
        assert(can_be_sent(headers[k - 1]) || headers_upto(headers, k) is Err);
        if let Ok(list) = headers_upto(headers, k) {
            let before = headers_upto(headers, k - 1)->Ok_0;
            let new = lowered(headers[k - 1].0);
            lemma_with_header(before, new, headers[k - 1].1, name, value);
            if name == new {
                assert(is_last_of_name(headers, k, k - 1, name));
                assert forall|i: int| #[trigger] is_last_of_name(headers, k, i, name) implies i == k
                    - 1 by {
                    if i < k - 1 {
                        assert(lowered(headers[k - 1].0) != name);
                    }
                }
            } else {
                assert forall|i: int| #[trigger] is_last_of_name(headers, k, i, name)
                    <==> is_last_of_name(headers, k - 1, i, name) by {
                    if is_last_of_name(headers, k, i, name) {
                        assert(is_last_of_name(headers, k - 1, i, name));
                    }
                    if is_last_of_name(headers, k - 1, i, name) {
                        assert forall|j: int| i < j < k implies lowered((#[trigger] headers[j]).0)
                            != name by {}
                    }
                }
                if exists|i: int|
                    #[trigger] is_last_of_name(headers, k - 1, i, name) && value == headers[i].1 {
                    let i = choose|i: int|
                        #[trigger] is_last_of_name(headers, k - 1, i, name) && value == headers[i].1;
                    assert(is_last_of_name(headers, k, i, name));
                }
            }
        }
    }
}

/// A request holds the query; the variables, if there are any; the name of the operation, if it
/// has one; and nothing else.
pub proof fn law_body_holds_the_request(
    query: Seq<char>,
    operation: Option<Seq<char>>,
    variables: JsonModel,
    key: Seq<char>,
)
    ensures
        field(body(query, operation, variables), key) == if key == "query"@ {
            Some(JsonModel::Text(query))
        } else if key == "variables"@ && variables != JsonModel::Object(seq![]) {
            Some(variables)
        } else if key == "operationName"@ && operation is Some && (operation->0).len() > 0 {
            Some(JsonModel::Text(operation->0))
        } else {
            None
        },
{
    let entries = body(query, operation, variables)->Object_0;
    reveal_strlit("query");
    reveal_strlit("variables");
    reveal_strlit("operationName");
    assert("query"@.len() == 5 && "variables"@.len() == 9 && "operationName"@.len() == 13);
    if let JsonModel::Object(given) = variables {
        if given.len() == 0 {
            assert(given =~= seq![]);
        }
    }
    lemma_slot(entries, key, 0);
    assert(entries[0] == ("query"@, JsonModel::Text(query)));
    let named = operation is Some && (operation->0).len() > 0;
    if variables != JsonModel::Object(seq![]) {
        assert(entries[1] == ("variables"@, variables));
        if named {
            assert(entries[2] == ("operationName"@, JsonModel::Text(operation->0)));
        }
    } else if named {
        assert(entries[1] == ("operationName"@, JsonModel::Text(operation->0)));
    }
    let found = slot(entries, key);
    if found is Some {
        assert(found->0 == 0 || found->0 == 1 || found->0 == 2);
    }
}

/// The code of an error is its type; without one, the code in its extensions.
pub proof fn law_code_of_an_error(e: GraphQlErrorModel, code: Seq<char>)
    ensures
        e.kind == Some(code) ==> e.code() == Some(code),
        e.kind is None && field(e.extensions, "code"@) == Some(JsonModel::Text(code)) ==> e.code()
            == Some(code),
        e.kind is None && !(field(e.extensions, "code"@) matches Some(JsonModel::Text(_)))
            ==> e.code() is None,
{
}

/// An error is worth another try exactly where its code, in any letter case, is one of the five
/// that speak of the moment and not of the query.
pub proof fn law_codes_worth_retrying(e: GraphQlErrorModel)
    ensures
        e.retryable() <==> (e.code() matches Some(code) && {
            let upper = uppered(code);
            ||| upper == "RATE_LIMITED"@
            ||| upper == "THROTTLED"@
            ||| upper == "TIMEOUT"@
            ||| upper == "SERVICE_UNAVAILABLE"@
            ||| upper == "INTERNAL_SERVER_ERROR"@
        }),
{
}

/// The line of an error has its message, then where it is, then its code.
pub proof fn law_line_of_an_error(e: GraphQlErrorModel)
    ensures
        e.message.is_prefix_of(e.line()),
        e.path is None && e.code() is None ==> e.line() == e.message,
        e.path is None && e.code() is Some ==> e.line() == e.message + " ["@ + e.code()->0 + "]"@,
        e.path is Some && e.code() is None ==> e.line() == e.message + " at "@ + joined(
            segments(e.path->0),
            "."@,
        ),
        e.path is Some && e.code() is Some ==> e.line() == e.message + " at "@ + joined(
            segments(e.path->0),
            "."@,
        ) + " ["@ + e.code()->0 + "]"@,
{
    let line = e.line();
    assert(e.message =~= line.take(e.message.len() as int));
    if e.path is None && e.code() is None {
        assert(line =~= e.message);
    } else if e.path is None {
        assert(line =~= e.message + " ["@ + e.code()->0 + "]"@);
    } else if e.code() is None {
        assert(line =~= e.message + " at "@ + joined(segments(e.path->0), "."@));
    } else {
        assert(line =~= e.message + " at "@ + joined(segments(e.path->0), "."@) + " ["@ + e.code()->0
            + "]"@);
    }
}

/// Up to five errors are summed up one after the other; of more of them, the first five, and how
/// many more there are.
pub proof fn law_errors_are_summed_up(errors: Seq<GraphQlErrorModel>, next: GraphQlErrorModel)
    ensures
        summary(seq![next]) == next.line(),
        0 < errors.len() < 5 ==> summary(errors.push(next)) == summary(errors) + "; "@ + next.line(),
        errors.len() > 5 ==> summary(errors) == summary(errors.take(5)) + "; "@ + ("… and "@
            + decimal((errors.len() - 5) as nat) + " more"@),
{
    let one = Seq::new(1, |i: int| seq![next][i].line());
    assert(one =~= seq![next.line()]);
    law_parts_are_joined(seq![next.line()], seq![next.line()], "; "@);
    if 0 < errors.len() < 5 {
        let all = errors.push(next);
        let lines = Seq::new(errors.len(), |i: int| errors[i].line());
        let more = Seq::new(all.len(), |i: int| all[i].line());
        assert(more =~= lines + seq![next.line()]);
        law_parts_are_joined(lines, seq![next.line()], "; "@);
    }
    if errors.len() > 5 {
        let first = errors.take(5);
        let lines = Seq::new(5, |i: int| errors[i].line());
        let same = Seq::new(5, |i: int| first[i].line());
        assert(lines =~= same);
        let rest = seq!["… and "@ + decimal((errors.len() - 5) as nat) + " more"@];
        assert(lines.push(rest[0]) =~= lines + rest);
        law_parts_are_joined(lines, rest, "; "@);
        law_parts_are_joined(rest, lines, "; "@);
    }
}

/// A number is read from decimal digits that stand for it, with a plus sign in front or none, as
/// long as it fits; anything else is no number.
pub proof fn law_number_is_read(text: Seq<char>, digits: Seq<char>, n: nat)
    ensures
        digits.len() > 0 && all_digits(digits) && value(digits) <= u64::MAX ==> parsed_number(digits)
            == Some(value(digits)) && parsed_number(seq!['+'] + digits) == Some(value(digits)),
        n <= u64::MAX ==> parsed_number(decimal(n)) == Some(n),
        parsed_number(text) is Some ==> {
            let rest = if text[0] == '+' {
                text.skip(1)
            } else {
                text
            };
            rest.len() > 0 && all_digits(rest) && value(rest) <= u64::MAX
        },
{
    lemma_value(digits);
    lemma_value(text);
    lemma_value(text.skip(1));
    lemma_value(decimal(n));
    law_decimal_writes_the_number(n);
    assert((seq!['+'] + digits).drop_first() =~= digits);
    if text.len() > 0 {
        assert(text.drop_first() =~= text.skip(1));
    }
    if digits.len() > 0 && all_digits(digits) {
        assert('0' <= digits[0] <= '9');
    }
    assert('0' <= decimal(n)[0] <= '9');
}

proof fn lemma_value(digits: Seq<char>)
    ensures
        number(digits) == value(digits),
    decreases digits.len(),
{
    if digits.len() > 0 {
        lemma_value(digits.drop_last());
    }
}

/// The server is waited for as long as its `Retry-After` says, where that is a number of seconds.
pub proof fn law_wait_is_what_the_server_says(reply: ReplyModel, seconds: u64)
    ensures
        reply.retry_after == Some(decimal(seconds as nat)) ==> wait_of(reply) == Some(seconds),
        reply.retry_after is None ==> wait_of(reply) is None,
        wait_of(reply) == Some(seconds) ==> (reply.retry_after matches Some(text) && parsed_number(
            text,
        ) == Some(seconds as nat)),
        reply.retry_after matches Some(text) ==> parsed_number(text) is None ==> wait_of(
            reply,
        ) is None,
{
    law_number_is_read(seq![], seq![], seconds as nat);
}

/// A redirection is refused, and nothing else is by its head; the refusal says where it leads.
pub proof fn law_redirections_are_refused(reply: ReplyModel, file: Seq<char>)
    ensures
        head_fault(reply, file) is None <==> !(300 <= reply.status <= 399),
        head_fault(reply, file) matches Some(fault) ==> (fault matches FaultModel::Fatal(
            ErrorModel::Response { path, message },
        ) && path == file && (reply.location matches Some(target) ==> occurs(message, target))),
{
    if let Some(fault) = head_fault(reply, file) {
        if let Some(target) = reply.location {
            let before = "the endpoint redirects to "@;
            let message = fault->Fatal_0->Response_message;
            assert(message.subrange(before.len() as int, before.len() as int + target.len()) =~= target);
            assert(occurs_at(message, target, before.len() as int));
        }
    }
}

/// A reply is taken for JSON exactly where its content type says so; any other one is worth
/// another try, and the fault shows how its body begins.
pub proof fn law_only_json_is_read(reply: ReplyModel, text: Seq<char>, file: Seq<char>)
    ensures
        media_fault(reply, text, file) is None <==> (reply.content_type matches Some(kind) && occurs(
            kind,
            "json"@,
        )),
        media_fault(reply, text, file) matches Some(fault) ==> (fault matches FaultModel::Transient {
            error: ErrorModel::Response { path, message },
            wait,
        } && path == file && wait == wait_of(reply) && text.take(
            if text.len() > 200 {
                200
            } else {
                text.len() as int
            },
        ).is_suffix_of(message)),
{
    if reply.content_type is None {
        reveal_strlit("json");
        assert(!occurs(media(reply), "json"@)) by {
            if occurs(media(reply), "json"@) {
                let at = choose|at: int| #[trigger] occurs_at(media(reply), "json"@, at);
            }
        }
    }
    if let Some(fault) = media_fault(reply, text, file) {
        let message = fault->error->Response_message;
        let head = text.take(
            if text.len() > 200 {
                200
            } else {
                text.len() as int
            },
        );
        assert(text.take(text.len() as int) =~= text);
        assert(head =~= message.subrange(message.len() - head.len(), message.len() as int));
    }
}

/// Whether the status of a reply stands for itself: a server failure, unless the reply is a
/// GraphQL response, or a rate limit.
pub open spec fn is_refusal(reply: ReplyModel) -> bool {
    ||| reply.status == 429
    ||| 500 <= reply.status <= 599 && !(reply.content_type matches Some(kind)
        && "application/graphql-response+json"@.is_prefix_of(kind))
}

/// The data of a response is the result, as it came, exactly where the reply is no refusal, there
/// is data, and there is no error, or only such that no waiting can fix and partial data is
/// allowed; that is then warned about, with all that the errors say.
pub proof fn law_data_is_the_result(
    reply: ReplyModel,
    response: ResponseModel,
    allow_partial: bool,
    file: Seq<char>,
)
    ensures
        response_verdict(reply, response, allow_partial, file) is Ok <==> {
            &&& !is_refusal(reply)
            &&& response.data is Some
            &&& response.data->0 != JsonModel::Null
            &&& response.errors.len() == 0 || allow_partial && forall|i: int|
                0 <= i < response.errors.len() ==> !(#[trigger] response.errors[i]).retryable()
        },
        response_verdict(reply, response, allow_partial, file) matches Ok((data, warning)) ==> {
            &&& response.data == Some(data)
            &&& warning == if response.errors.len() == 0 {
                None
            } else {
                Some(file + ": "@ + summary(response.errors))
            }
        },
        verdict(reply, Ok(response), allow_partial, file) == response_verdict(
            reply,
            response,
            allow_partial,
            file,
        ),
{
    reveal_strlit("application/graphql-response+json");
    if reply.content_type is None {
        assert(!"application/graphql-response+json"@.is_prefix_of(media(reply)));
    }
}

/// A response that is no result is worth another try exactly where the reply is a refusal, or
/// waiting could fix one of its errors; what the errors say is reported.
pub proof fn law_failures_worth_retrying(
    reply: ReplyModel,
    response: ResponseModel,
    allow_partial: bool,
    file: Seq<char>,
)
    ensures
        response_verdict(reply, response, allow_partial, file) matches Err(fault) ==> {
            &&& fault is Transient <==> is_refusal(reply) || exists|i: int|
                0 <= i < response.errors.len() && (#[trigger] response.errors[i]).retryable()
            &&& fault matches FaultModel::Transient { wait, .. } ==> wait == wait_of(reply)
            &&& !is_refusal(reply) && response.errors.len() > 0 ==> (match fault {
                FaultModel::Fatal(error) => error,
                FaultModel::Transient { error, .. } => error,
            }) == (ErrorModel::GraphQl { path: file, message: summary(response.errors) })
        },
{
    reveal_strlit("application/graphql-response+json");
    if reply.content_type is None {
        assert(!"application/graphql-response+json"@.is_prefix_of(media(reply)));
    }
}

/// A body that is no JSON is never a result: it is worth another try exactly where the server
/// failed or is asked too often.
pub proof fn law_malformed_body_is_no_result(
    reply: ReplyModel,
    why: Seq<char>,
    allow_partial: bool,
    file: Seq<char>,
)
    ensures
        verdict(reply, Err(why), allow_partial, file) matches Err(fault) && match fault {
            FaultModel::Transient { error, wait } => {
                &&& 500 <= reply.status <= 599 || reply.status == 429
                &&& wait == wait_of(reply)
                &&& error matches ErrorModel::Response { path, message }
                &&& path == file
                &&& why.is_suffix_of(message)
            },
            FaultModel::Fatal(error) => {
                &&& !(500 <= reply.status <= 599) && reply.status != 429
                &&& error matches ErrorModel::Response { path, message }
                &&& path == file
                &&& why.is_suffix_of(message)
            },
        },
{
    let message = "HTTP "@ + status_text(reply.status) + ": malformed JSON: "@ + why;
    assert(why =~= message.subrange(message.len() - why.len(), message.len() as int));
}

/// After a failure that is worth it, the request is sent again, as long as there are retries
/// left, once the time has passed that the server asked for, or two seconds; any other failure is
/// reported as it is.
pub proof fn law_what_follows_a_failure(
    fault: FaultModel,
    attempt: u32,
    retries: u32,
    file: Seq<char>,
)
    ensures
        match fault {
            FaultModel::Fatal(error) => after(fault, attempt, retries, file) == Err::<
                (u64, Seq<char>),
                _,
            >(error),
            FaultModel::Transient { error, wait } => match after(fault, attempt, retries, file) {
                Ok((seconds, notice)) => {
                    &&& attempt < retries
                    &&& wait matches Some(asked) ==> seconds == asked
                    &&& wait is None ==> seconds == 2
                    &&& (file + ": "@ + error_line(error)).is_prefix_of(notice)
                },
                Err(e) => e == error && attempt >= retries,
            },
        },
{
    if let FaultModel::Transient { error, .. } = fault {
        if let Ok((seconds, notice)) = after(fault, attempt, retries, file) {
            let begin = file + ": "@ + error_line(error);
            assert(begin =~= notice.take(begin.len() as int));
        }
    }
}

/// No retry is saved: a request that keeps failing for the moment is sent once and as often as
/// there are retries.
pub proof fn law_all_retries_are_used(faults: Seq<FaultModel>, retries: u32, file: Seq<char>, i: int)
    requires
        0 <= i <= retries,
        faults.len() > retries,
        forall|k: int| 0 <= k < faults.len() ==> (#[trigger] faults[k]) is Transient,
    ensures
        requests_sent(faults, retries, file, i) == retries - i + 1,
    decreases retries - i,
{
    assert(faults[i] is Transient);
    if i < retries {
        law_all_retries_are_used(faults, retries, file, i + 1);
    }
}

/// A response that breaks off is worth another try exactly where time ran out; one that never
/// came always is.
pub proof fn law_broken_off_responses(why: Seq<char>, timed_out: bool, file: Seq<char>)
    ensures
        unread(why, timed_out, file) is Transient <==> timed_out,
        unsent(why, file) is Transient,
        match unread(why, timed_out, file) {
            FaultModel::Fatal(error) => error,
            FaultModel::Transient { error, .. } => error,
        } matches ErrorModel::Response { path, message } && path == file && why.is_suffix_of(message),
        unsent(why, file)->error == (ErrorModel::Response { path: file, message: why }),
{
    let message = "while reading the response: "@ + why;
    assert(why =~= message.subrange(message.len() - why.len(), message.len() as int));
}

} // verus!
