//! Walking Relay connections to the end, and merging the pages.
//!
//! Driven by the query, never by scanning the response: `pageInfo` only appears in a response
//! if it was asked for, so scanning cannot catch the naive
//! `posts(first: 2000) { nodes { title } }` that a server silently truncates.
//!
//! The requests themselves are sent by the caller: a [`Session`] says what to ask for next, and
//! is handed each page that came back.
use vstd::prelude::*;
use vstd::string::*;

use crate::errors::{Error, ErrorModel};
use crate::json::{
    entries_model, field, follow, graft, items_model, law_graft_is_found, law_graft_leaves_the_rest,
    law_removed_field_is_gone, lemma_same_field, lemma_same_graft, lemma_with_field, with_entry, with_field, without_field, Entries, Json, JsonModel, Reach,
};
use crate::query::{
    analysis_fits, list_models, listed_fault, listed_message, Analysis, AnalysisModel, Connection,
    ConnectionModel, ListField,
};
use crate::text::{debug_text, decimal, join, joined, listed, opt_text, quoted, texts, write_decimal};

verus! {

// ---------------------------------------------------------------------------------------
// One connection
// ---------------------------------------------------------------------------------------
/// What the `pageInfo` of a connection says: whether there is a next page, and the cursor that
/// leads to it. Nothing without a `hasNextPage`.
pub open spec fn page_info(node: JsonModel, key: Seq<char>) -> Option<(bool, Option<Seq<char>>)> {
    match field(node, key) {
        Some(info) => match field(info, "hasNextPage"@) {
            Some(has_next) => Some(
                (
                    has_next == JsonModel::Bool(true),
                    match field(info, "endCursor"@) {
                        Some(JsonModel::Text(cursor)) => Some(cursor),
                        _ => None,
                    },
                ),
            ),
            None => None,
        },
        None => None,
    }
}

/// What the `pageInfo` of a connection says.
pub fn read_page_info(node: &Json, key: &str) -> (r: Option<(bool, Option<String>)>)
    ensures
        match r {
            Some(state) => page_info(node@, key@) == Some((state.0, opt_text(state.1))),
            None => page_info(node@, key@) is None,
        },
{
    let info = match node.field(key) {
        Some(info) => info,
        None => {
            return None;
        },
    };
    let has_next = match info.field("hasNextPage") {
        Some(Json::Bool(b)) => *b,
        Some(_) => false,
        None => {
            return None;
        },
    };
    let cursor = match info.field("endCursor") {
        Some(Json::Text(cursor)) => Some(cursor.clone()),
        _ => None,
    };
    Some((has_next, cursor))
}

/// What is said of a path with a list on it.
pub open spec fn listed_error(file: Seq<char>, path: Seq<Seq<char>>, depth: int) -> ErrorModel {
    ErrorModel::GraphQl { path: file, message: listed_message(path.take(depth)) }
}

/// The error for a path with a list on it.
fn listed_path(path: &Vec<String>, depth: usize, file: &str) -> (r: Error)
    requires
        depth <= path@.len(),
    ensures
        r@ == listed_error(file@, texts(path@), depth as int),
{
    let mut head: Vec<String> = Vec::new();
    for i in 0..depth
        invariant
            depth <= path@.len(),
            texts(head@) == texts(path@).take(i as int),
    {
        let ghost done = texts(head@);
        head.push(path[i].clone());
        assert(texts(head@) =~= done.push(path@[i as int]@));
    }
    Error::GraphQl { path: file.to_owned(), message: listed_fault(&head) }
}

/// Walk a response path. A list in the middle means the connection is not addressable.
pub fn follow_mut<'a>(root: &'a mut Json, path: &Vec<String>, file: &str) -> (r: Result<
    Option<&'a mut Json>,
    Error,
>)
    ensures
        match follow(old(root)@, texts(path@), 0) {
            Reach::Found(v) => {
                &&& r matches Ok(Some(m))
                &&& (*m)@ == v
                &&& final(root)@ == graft(old(root)@, texts(path@), 0, (*final(m))@)
            },
            Reach::Missing => r matches Ok(None) && final(root)@ == old(root)@,
            Reach::Listed(d) => {
                &&& r matches Err(e)
                &&& e@ == listed_error(file@, texts(path@), d)
                &&& final(root)@ == old(root)@
            },
        },
{
    match root.reach_mut(path, 0) {
        Ok(found) => Ok(found),
        Err(depth) => Err(listed_path(path, depth, file)),
    }
}

/// Where a walk along a connection has got to.
#[derive(Debug)]
pub struct Walk {
    /// Whether the last page that said so has a next one.
    pub has_next: bool,
    /// The cursor that leads to it.
    pub cursor: Option<String>,
    /// What page 1 gave as `startCursor`.
    pub start_cursor: Option<Json>,
    /// What page 1 gave as `hasPreviousPage`.
    pub has_previous: Option<Json>,
    /// Pages fetched after the first.
    pub extra_pages: usize,
    /// Cursors that were sent.
    pub seen: Vec<String>,
}

/// What a [`Walk`] stands for.
pub struct WalkModel {
    pub has_next: bool,
    pub cursor: Option<Seq<char>>,
    pub start_cursor: Option<JsonModel>,
    pub has_previous: Option<JsonModel>,
    pub extra_pages: int,
    pub seen: Seq<Seq<char>>,
}

/// The optional meaning of an optional value.
pub open spec fn opt_json(v: Option<Json>) -> Option<JsonModel> {
    match v {
        Some(value) => Some(value@),
        None => None,
    }
}

impl View for Walk {
    type V = WalkModel;

    open spec fn view(&self) -> WalkModel {
        WalkModel {
            has_next: self.has_next,
            cursor: opt_text(self.cursor),
            start_cursor: opt_json(self.start_cursor),
            has_previous: opt_json(self.has_previous),
            extra_pages: self.extra_pages as int,
            seen: texts(self.seen@),
        }
    }
}

/// The response key of `pageInfo`: the user's, else the one that was added.
pub open spec fn page_key(c: ConnectionModel) -> Seq<char> {
    match c.page_info_key {
        Some(key) => key,
        None => "pageInfo"@,
    }
}

/// What is under a key of what is under a key.
pub open spec fn inner_field(node: JsonModel, key: Seq<char>, name: Seq<char>) -> Option<JsonModel> {
    match field(node, key) {
        Some(info) => field(info, name),
        None => None,
    }
}

/// The walk that begins at page 1; none where the connection, or its `pageInfo`, is not in the
/// response. `Err` with what is wrong with the response: a list sits on the path, or `pageInfo`
/// does not say whether there is a next page.
pub open spec fn begun(merged: JsonModel, c: ConnectionModel) -> Result<
    Option<WalkModel>,
    Seq<char>,
> {
    match follow(merged, c.path, 0) {
        Reach::Found(node) => match page_info(node, page_key(c)) {
            Some((has_next, cursor)) => Ok(
                Some(
                    WalkModel {
                        has_next,
                        cursor,
                        start_cursor: inner_field(node, page_key(c), "startCursor"@),
                        has_previous: inner_field(node, page_key(c), "hasPreviousPage"@),
                        extra_pages: 0,
                        seen: seq![],
                    },
                ),
            ),
            None => if field(node, page_key(c)) is Some {
                Err(
                    joined(c.path, "."@)
                        + ": `pageInfo` came back without `hasNextPage` — the result would be incomplete"@,
                )
            } else {
                Ok(None)
            },
        },
        Reach::Missing => Ok(None),
        Reach::Listed(depth) => Err(listed_message(c.path.take(depth))),
    }
}

/// What a walk does next: the cursor to send, nothing at the end of the connection, or what is
/// wrong with going on.
pub open spec fn next_cursor(w: WalkModel, path: Seq<Seq<char>>, max_pages: int) -> Result<
    Option<Seq<char>>,
    Seq<char>,
> {
    let at = joined(path, "."@);
    if !w.has_next {
        Ok(None)
    } else {
        match w.cursor {
            None => Err(
                at + ": the server says there is a next page but gives no endCursor"@,
            ),
            Some(cursor) => if w.seen.contains(cursor) {
                Err(
                    at + ": the server returned the same endCursor twice ("@ + debug_text(cursor)
                        + ") — it is ignoring `after:`, so pagination cannot advance"@,
                )
            } else if w.extra_pages + 1 >= max_pages {
                Err(
                    at + ": stopped at --max-pages ("@ + decimal(max_pages as nat)
                        + "). Raise it, or narrow the query."@,
                )
            } else {
                Ok(Some(cursor))
            },
        }
    }
}

/// A page with the value under a key taken out of it.
pub open spec fn taken(page: JsonModel, key: Seq<char>) -> JsonModel {
    match field(page, key) {
        Some(_) => with_field(page, key, JsonModel::Null),
        None => page,
    }
}

/// A connection with the lists of one more page appended to its own. A key that the response
/// did not have is never invented.
pub open spec fn joined_lists(
    target: JsonModel,
    page: JsonModel,
    lists: Seq<(ListField, Seq<char>)>,
) -> JsonModel
    decreases lists.len(),
{
    if lists.len() == 0 {
        target
    } else {
        let key = lists[0].1;
        let longer = match (field(page, key), field(target, key)) {
            (Some(JsonModel::Array(more)), Some(JsonModel::Array(items))) => with_field(
                target,
                key,
                JsonModel::Array(items + more),
            ),
            _ => target,
        };
        // What was taken is not there to be taken again.
        joined_lists(longer, taken(page, key), lists.drop_first())
    }
}

/// The walk and the merged response after one more page; or what is wrong with the page: a list
/// sits on the path, or what leads on to the next page is not in it.
pub open spec fn delivered(
    w: WalkModel,
    merged: JsonModel,
    page: JsonModel,
    c: ConnectionModel,
) -> Result<(WalkModel, JsonModel), Seq<char>> {
    match follow(page, c.path, 0) {
        Reach::Listed(depth) => Err(listed_message(c.path.take(depth))),
        Reach::Missing => Err(
            joined(c.path, "."@)
                + ": a page came back without this connection — the result would be incomplete"@,
        ),
        Reach::Found(node) => match page_info(node, page_key(c)) {
            None => Err(
                joined(c.path, "."@)
                    + ": a page came back without `hasNextPage` — the result would be incomplete"@,
            ),
            Some((has_next, cursor)) => Ok(
                (
                    WalkModel { has_next, cursor, extra_pages: w.extra_pages + 1, ..w },
                    match follow(merged, c.path, 0) {
                        Reach::Found(target) => graft(
                            merged,
                            c.path,
                            0,
                            joined_lists(target, node, c.lists),
                        ),
                        _ => merged,
                    },
                ),
            ),
        },
    }
}

/// A `pageInfo` that describes the merged result. `hasNextPage` is the one of the last page
/// fetched — never forced to false, which would be a lie.
pub open spec fn described(info: JsonModel, w: WalkModel) -> JsonModel {
    let a = with_field(info, "hasNextPage"@, JsonModel::Bool(w.has_next));
    let b = match w.cursor {
        Some(cursor) => with_field(a, "endCursor"@, JsonModel::Text(cursor)),
        None => a,
    };
    let c = match w.start_cursor {
        Some(cursor) => with_field(b, "startCursor"@, cursor),
        None => b,
    };
    match w.has_previous {
        Some(value) => with_field(c, "hasPreviousPage"@, value),
        None => c,
    }
}

/// The merged response at the end of a walk.
pub open spec fn finished(merged: JsonModel, w: WalkModel, c: ConnectionModel) -> JsonModel {
    match follow(merged, c.path, 0) {
        Reach::Found(node) => match field(node, page_key(c)) {
            Some(JsonModel::Object(info)) => graft(
                merged,
                c.path,
                0,
                with_field(node, page_key(c), described(JsonModel::Object(info), w)),
            ),
            _ => merged,
        },
        _ => merged,
    }
}

/// The response key of `pageInfo`.
fn key_of_info(conn: &Connection) -> (r: String)
    ensures
        r@ == page_key(conn@),
{
    match &conn.page_info_key {
        Some(key) => key.clone(),
        None => "pageInfo".to_owned(),
    }
}

/// What is under a key of what is under a key.
fn read_inner(node: &Json, key: &str, name: &str) -> (r: Option<Json>)
    ensures
        opt_json(r) == inner_field(node@, key@, name@),
{
    match node.field(key) {
        Some(info) => match info.field(name) {
            Some(value) => Some(value.copy()),
            None => None,
        },
        None => None,
    }
}

/// Begins a walk at page 1.
pub fn begin(merged: &Json, conn: &Connection, file: &str) -> (r: Result<Option<Walk>, Error>)
    ensures
        match begun(merged@, conn@) {
            Ok(Some(walk)) => r matches Ok(Some(w)) && w@ == walk,
            Ok(None) => r matches Ok(None),
            Err(message) => r matches Err(e) && e@ == (ErrorModel::GraphQl {
                path: file@,
                message,
            }),
        },
{
    let key = key_of_info(conn);
    match merged.reach(&conn.path, 0) {
        Err(depth) => Err(listed_path(&conn.path, depth, file)),
        Ok(None) => Ok(None),
        Ok(Some(node)) => match read_page_info(node, key.as_str()) {
            None => {
                if node.field(key.as_str()).is_some() {
                    let mut message = join(&conn.path, ".");
                    message.append(
                        ": `pageInfo` came back without `hasNextPage` — the result would be incomplete",
                    );
                    return Err(Error::GraphQl { path: file.to_owned(), message });
                }
                // No pageInfo in the response: the field was not the connection we took it for.
                Ok(None)
            },
            Some((has_next, cursor)) => {
                let seen: Vec<String> = Vec::new();
                assert(texts(seen@) =~= seq![]);
                Ok(
                    Some(
                        Walk {
                            has_next,
                            cursor,
                            start_cursor: read_inner(node, key.as_str(), "startCursor"),
                            has_previous: read_inner(node, key.as_str(), "hasPreviousPage"),
                            extra_pages: 0,
                            seen,
                        },
                    ),
                )
            },
        },
    }
}

impl Walk {
    /// The cursor to send next; nothing at the end of the connection.
    pub fn next(&self, conn: &Connection, max_pages: usize, file: &str) -> (r: Result<
        Option<String>,
        Error,
    >)
        ensures
            match next_cursor(self@, conn@.path, max_pages as int) {
                Ok(Some(cursor)) => r matches Ok(Some(c)) && c@ == cursor,
                Ok(None) => r matches Ok(None),
                Err(message) => r matches Err(e) && e@ == (ErrorModel::GraphQl {
                    path: file@,
                    message,
                }),
            },
    {
        if !self.has_next {
            return Ok(None);
        }
        let mut message = join(&conn.path, ".");
        let cursor = match &self.cursor {
            Some(cursor) => cursor,
            None => {
                message.append(": the server says there is a next page but gives no endCursor");
                return Err(Error::GraphQl { path: file.to_owned(), message });
            },
        };
        // A server that ignores the cursor loops forever; catch it on the second call rather
        // than after --max-pages requests.
        if listed(cursor.as_str(), &self.seen) {
            message.append(": the server returned the same endCursor twice (");
            message.append(quoted(cursor.as_str()).as_str());
            message.append(") — it is ignoring `after:`, so pagination cannot advance");
            return Err(Error::GraphQl { path: file.to_owned(), message });
        }
        if max_pages == 0 || self.extra_pages >= max_pages - 1 {
            message.append(": stopped at --max-pages (");
            message.append(write_decimal(max_pages as u64).as_str());
            message.append("). Raise it, or narrow the query.");
            return Err(Error::GraphQl { path: file.to_owned(), message });
        }
        Ok(Some(cursor.clone()))
    }
}

/// Takes the value under a key out of a page.
fn take_field(page: &mut Json, key: &str) -> (r: Option<Json>)
    ensures
        opt_json(r) == field(old(page)@, key@),
        final(page)@ == taken(old(page)@, key@),
{
    match page.field_mut(key) {
        Some(slot) => {
            let mut value = Json::Null;
            std::mem::swap(&mut value, slot);
            Some(value)
        },
        None => None,
    }
}

/// Appends items to the list under a key, where there is one.
fn extend_field(target: &mut Json, key: &str, more: Vec<Json>)
    ensures
        final(target)@ == match field(old(target)@, key@) {
            Some(JsonModel::Array(items)) => with_field(
                old(target)@,
                key@,
                JsonModel::Array(items + items_model(more@)),
            ),
            _ => old(target)@,
        },
{
    proof {
        lemma_same_field(target@, key@);
    }
    match target.field_mut(key) {
        Some(Json::Array(items)) => {
            let ghost before = items@;
            let mut rest = more;
            items.append(&mut rest);
            assert(items_model(items@) =~= items_model(before) + items_model(more@));
        },
        _ => {},
    }
}

/// Appends the lists of one more page.
fn join_lists(target: &mut Json, page: &mut Json, lists: &Vec<(ListField, String)>)
    ensures
        final(target)@ == joined_lists(old(target)@, old(page)@, list_models(lists@)),
{
    let ghost models = list_models(lists@);
    assert(models.skip(0) =~= models);
    for i in 0..lists.len()
        invariant
            models == list_models(lists@),
            joined_lists(target@, page@, models.skip(i as int)) == joined_lists(
                old(target)@,
                old(page)@,
                models,
            ),
    {
        let key = lists[i].1.as_str();
        assert(models.skip(i as int)[0].1 == key@);
        assert(models.skip(i as int).drop_first() =~= models.skip(i + 1));
        match take_field(page, key) {
            Some(Json::Array(items)) => extend_field(target, key, items),
            // Never invent a key the response did not have.
            _ => {},
        }
    }
}

impl Walk {
    /// Takes in one more page, appending its items into the skeleton kept from page 1.
    pub fn deliver(&mut self, merged: &mut Json, page: Json, conn: &Connection, file: &str) -> (r:
        Result<(), Error>)
        requires
            old(self).extra_pages < usize::MAX,
            follow(old(merged)@, conn@.path, 0) is Found,
        ensures
            match delivered(old(self)@, old(merged)@, page@, conn@) {
                Ok((walk, all)) => r is Ok && final(self)@ == walk && final(merged)@ == all,
                Err(message) => {
                    &&& r matches Err(e)
                    &&& e@ == (ErrorModel::GraphQl { path: file@, message })
                    &&& final(self)@ == old(self)@
                    &&& final(merged)@ == old(merged)@
                },
            },
    {
        let key = key_of_info(conn);
        let mut page = page;
        match follow_mut(&mut page, &conn.path, file) {
            Err(e) => Err(e),
            Ok(None) => {
                let mut message = join(&conn.path, ".");
                message.append(
                    ": a page came back without this connection — the result would be incomplete",
                );
                Err(Error::GraphQl { path: file.to_owned(), message })
            },
            Ok(Some(node)) => match read_page_info(node, key.as_str()) {
                None => {
                    let mut message = join(&conn.path, ".");
                    message.append(
                        ": a page came back without `hasNextPage` — the result would be incomplete",
                    );
                    Err(Error::GraphQl { path: file.to_owned(), message })
                },
                Some((has_next, cursor)) => {
                    match follow_mut(merged, &conn.path, file) {
                        Ok(Some(target)) => join_lists(target, node, &conn.lists),
                        _ => {},
                    }
                    self.extra_pages = self.extra_pages + 1;
                    self.has_next = has_next;
                    self.cursor = cursor;
                    Ok(())
                },
            },
        }
    }

    /// Rebuilds a `pageInfo` that describes the merged result.
    pub fn finish(self, merged: &mut Json, conn: &Connection)
        ensures
            final(merged)@ == finished(old(merged)@, self@, conn@),
    {
        let key = key_of_info(conn);
        proof {
            lemma_same_graft(merged@, texts(conn.path@), 0);
            if let Reach::Found(node) = follow(merged@, conn@.path, 0) {
                lemma_same_field(node, key@);
            }
        }
        match merged.reach_mut(&conn.path, 0) {
            Ok(Some(node)) => match node.field_mut(key.as_str()) {
                Some(info) => {
                    if let Json::Object(_) = info {
                        info.set_field("hasNextPage", Json::Bool(self.has_next));
                        if let Some(cursor) = self.cursor {
                            info.set_field("endCursor", Json::Text(cursor));
                        }
                        if let Some(cursor) = self.start_cursor {
                            info.set_field("startCursor", cursor);
                        }
                        if let Some(value) = self.has_previous {
                            info.set_field("hasPreviousPage", value);
                        }
                    }
                },
                None => {},
            },
            _ => {},
        }
    }
}

// ---------------------------------------------------------------------------------------
// A whole query
// ---------------------------------------------------------------------------------------
/// What to ask the endpoint.
#[derive(Debug)]
pub struct Request {
    pub query: String,
    pub operation: Option<String>,
    /// An object: the variables and their values.
    pub variables: Json,
}

/// The variables of page 1: every cursor starts at null, whether the variable is the user's or
/// ours. Those of the first `k` connections.
pub open spec fn first_variables(a: AnalysisModel, k: int) -> Entries
    decreases k,
{
    if k <= 0 {
        seq![]
    } else if a.connections[k - 1].paginate {
        with_entry(first_variables(a, k - 1), a.cursor(k - 1), JsonModel::Null)
    } else {
        first_variables(a, k - 1)
    }
}

/// What to ask for page 1: the user's query, with whatever pagination plumbing it was missing.
pub fn first_request(analysis: &Analysis, page_size: usize) -> (r: Request)
    requires
        analysis_fits(analysis@),
    ensures
        r.query@ == analysis@.page_one(page_size as nat),
        opt_text(r.operation) == analysis@.operation_name,
        r.variables@ == JsonModel::Object(
            first_variables(analysis@, analysis@.connections.len() as int),
        ),
{
    let mut variables = Json::Object(Vec::new());
    assert(entries_model(seq![]) =~= seq![]);
    for i in 0..analysis.connections.len()
        invariant
            variables@ == JsonModel::Object(first_variables(analysis@, i as int)),
    {
        assert(analysis@.connections[i as int] == analysis.connections@[i as int]@);
        if analysis.connections[i].paginate {
            variables.set_field(analysis.cursor_var(i).as_str(), Json::Null);
        }
    }
    let operation = match &analysis.operation_name {
        Some(name) => Some(name.clone()),
        None => None,
    };
    Request { query: analysis.page_one(page_size), operation, variables }
}

/// What to ask for the page of connection `index` behind a cursor.
pub fn page_request(analysis: &Analysis, index: usize, page_size: usize, cursor: &str) -> (r:
    Request)
    requires
        analysis_fits(analysis@),
        index < analysis.connections@.len(),
    ensures
        r.query@ == analysis@.derived(index as int, page_size as nat),
        opt_text(r.operation) == Some("gqlfreez"@),
        r.variables@ == JsonModel::Object(
            seq![(analysis@.cursor(index as int), JsonModel::Text(cursor@))],
        ),
{
    let mut entries: Vec<(String, Json)> = Vec::new();
    entries.push((analysis.cursor_var(index), Json::Text(cursor.to_owned())));
    assert(entries_model(entries@) =~= seq![
        (analysis@.cursor(index as int), JsonModel::Text(cursor@)),
    ]);
    Request {
        query: analysis.derived(index, page_size),
        operation: Some("gqlfreez".to_owned()),
        variables: Json::Object(entries),
    }
}

/// One query file on its way to completion: the pages fetched so far, merged.
#[derive(Debug)]
pub struct Session {
    pub merged: Json,
    /// Pages fetched by the walks that are over, page 1 included.
    pub pages: usize,
    /// The connection whose turn it is.
    pub at: usize,
    /// The walk along that connection, once it has begun.
    pub walk: Option<Walk>,
}

/// What a [`Session`] stands for.
pub struct SessionModel {
    pub merged: JsonModel,
    pub pages: int,
    pub at: int,
    pub walk: Option<WalkModel>,
}

impl View for Session {
    type V = SessionModel;

    open spec fn view(&self) -> SessionModel {
        SessionModel {
            merged: self.merged@,
            pages: self.pages as int,
            at: self.at as int,
            walk: match self.walk {
                Some(walk) => Some(walk@),
                None => None,
            },
        }
    }
}

/// What a session asks its caller to do.
#[derive(Debug)]
pub enum Todo {
    /// Fetch the page of a connection behind a cursor, and hand it over.
    Send { index: usize, cursor: String },
    /// Nothing: `merged` is the result.
    Finished,
}

/// Whether the user did not ask for all of the `pageInfo` that a connection is paginated by.
pub open spec fn is_padded(c: ConnectionModel) -> bool {
    c.paginate && (c.page_info_key is None || c.lacks_next || c.lacks_cursor)
}

/// The `pageInfo` of the user, without what was added to it.
pub open spec fn lean(info: JsonModel, c: ConnectionModel) -> JsonModel {
    let rest = if c.lacks_next {
        without_field(info, "hasNextPage"@)
    } else {
        info
    };
    if c.lacks_cursor {
        without_field(rest, "endCursor"@)
    } else {
        rest
    }
}

/// A connection without the `pageInfo`, or the part of it, that was added.
pub open spec fn tidy(node: JsonModel, c: ConnectionModel) -> JsonModel {
    match c.page_info_key {
        None => without_field(node, "pageInfo"@),
        Some(key) => match field(node, key) {
            Some(info) => with_field(node, key, lean(info, c)),
            None => node,
        },
    }
}

/// The merged response without what was added to the first `k` connections: the user never asked
/// for it.
pub open spec fn stripped(
    merged: JsonModel,
    a: AnalysisModel,
    file: Seq<char>,
    k: int,
) -> Result<JsonModel, ErrorModel>
    decreases k,
{
    if k <= 0 {
        Ok(merged)
    } else {
        match stripped(merged, a, file, k - 1) {
            Err(e) => Err(e),
            Ok(rest) => {
                let c = a.connections[k - 1];
                if is_padded(c) {
                    match follow(rest, c.path, 0) {
                        Reach::Found(node) => Ok(graft(rest, c.path, 0, tidy(node, c))),
                        Reach::Missing => Ok(rest),
                        Reach::Listed(depth) => Err(listed_error(file, c.path, depth)),
                    }
                } else {
                    Ok(rest)
                }
            },
        }
    }
}

/// A page count, as far as it can be counted.
pub open spec fn counted(pages: int) -> int {
    if pages > usize::MAX {
        usize::MAX as int
    } else {
        pages
    }
}

/// A session up to the next thing that its caller has to do: the page to fetch, by connection
/// and cursor, or nothing.
pub open spec fn advanced(
    s: SessionModel,
    a: AnalysisModel,
    max_pages: int,
    file: Seq<char>,
) -> (SessionModel, Result<Option<(int, Seq<char>)>, ErrorModel>)
    decreases
            a.connections.len() - s.at,
            (if s.walk is None {
                1int
            } else {
                0int
            }),
{
    if s.at < 0 || s.at >= a.connections.len() {
        match stripped(s.merged, a, file, a.connections.len() as int) {
            Ok(merged) => (SessionModel { merged, ..s }, Ok(None)),
            Err(e) => (s, Err(e)),
        }
    } else {
        let c = a.connections[s.at];
        match s.walk {
            None => if !c.paginate {
                advanced(SessionModel { at: s.at + 1, ..s }, a, max_pages, file)
            } else {
                match begun(s.merged, c) {
                    Err(message) => (s, Err(ErrorModel::GraphQl { path: file, message })),
                    Ok(None) => advanced(SessionModel { at: s.at + 1, ..s }, a, max_pages, file),
                    Ok(Some(walk)) => advanced(
                        SessionModel { walk: Some(walk), ..s },
                        a,
                        max_pages,
                        file,
                    ),
                }
            },
            Some(walk) => match next_cursor(walk, c.path, max_pages) {
                Err(message) => (s, Err(ErrorModel::GraphQl { path: file, message })),
                Ok(None) => advanced(
                    SessionModel {
                        merged: finished(s.merged, walk, c),
                        pages: counted(s.pages + walk.extra_pages),
                        at: s.at + 1,
                        walk: None,
                    },
                    a,
                    max_pages,
                    file,
                ),
                Ok(Some(cursor)) => (
                    SessionModel {
                        walk: Some(WalkModel { seen: walk.seen.push(cursor), ..walk }),
                        ..s
                    },
                    Ok(Some((s.at, cursor))),
                ),
            },
        }
    }
}

/// Whether a session is in order: a walk goes along a connection that is in the response.
pub open spec fn session_fits(s: SessionModel, a: AnalysisModel) -> bool {
    &&& 0 <= s.at <= a.connections.len()
    &&& s.walk is Some ==> s.at < a.connections.len() && a.connections[s.at].paginate && follow(
        s.merged,
        a.connections[s.at].path,
        0,
    ) is Found
}

/// Takes out of a connection what was added to it.
fn tidy_up(node: &mut Json, conn: &Connection)
    ensures
        final(node)@ == tidy(old(node)@, conn@),
{
    match &conn.page_info_key {
        None => {
            let mut value = Json::Null;
            std::mem::swap(&mut value, node);
            *node = value.remove_field("pageInfo");
        },
        Some(key) => match node.field_mut(key.as_str()) {
            Some(info) => {
                let mut value = Json::Null;
                std::mem::swap(&mut value, info);
                if conn.lacks_next {
                    value = value.remove_field("hasNextPage");
                }
                if conn.lacks_cursor {
                    value = value.remove_field("endCursor");
                }
                *info = value;
            },
            None => {},
        },
    }
}

/// Takes what was added out of the merged response.
fn strip(merged: &mut Json, analysis: &Analysis, file: &str) -> (r: Result<(), Error>)
    ensures
        match stripped(old(merged)@, analysis@, file@, analysis@.connections.len() as int) {
            Ok(rest) => r is Ok && final(merged)@ == rest,
            Err(e) => r matches Err(error) && error@ == e,
        },
{
    for i in 0..analysis.connections.len()
        invariant
            stripped(old(merged)@, analysis@, file@, i as int) == Ok::<_, ErrorModel>(merged@),
    {
        assert(analysis@.connections[i as int] == analysis.connections@[i as int]@);
        let conn = &analysis.connections[i];
        if conn.paginate && (conn.page_info_key.is_none() || conn.lacks_next
            || conn.lacks_cursor) {
            match follow_mut(merged, &conn.path, file) {
                Ok(Some(node)) => tidy_up(node, conn),
                Ok(None) => {},
                Err(e) => {
                    proof {
                        lemma_stripped_fails(
                            old(merged)@,
                            analysis@,
                            file@,
                            i + 1,
                            analysis@.connections.len() as int,
                        );
                    }
                    return Err(e);
                },
            }
        }
    }
    Ok(())
}

/// What fails for some connections fails for more.
proof fn lemma_stripped_fails(merged: JsonModel, a: AnalysisModel, file: Seq<char>, k: int, n: int)
    requires
        0 <= k <= n,
        stripped(merged, a, file, k) is Err,
    ensures
        stripped(merged, a, file, n) == stripped(merged, a, file, k),
    decreases n - k,
{
    if k < n {
        lemma_stripped_fails(merged, a, file, k, n - 1);
    }
}

impl Session {
    /// A session that begins with the response to page 1.
    pub fn start(first: Json) -> (r: Session)
        ensures
            r@ == (SessionModel { merged: first@, pages: 1, at: 0, walk: None }),
    {
        Session { merged: first, pages: 1, at: 0, walk: None }
    }

    /// What is to be done next.
    pub fn next(&mut self, analysis: &Analysis, max_pages: usize, file: &str) -> (r: Result<
        Todo,
        Error,
    >)
        requires
            session_fits(old(self)@, analysis@),
        ensures
            match advanced(old(self)@, analysis@, max_pages as int, file@) {
                (s, Ok(Some(page))) => {
                    &&& r matches Ok(Todo::Send { index, cursor })
                    &&& index == page.0
                    &&& cursor@ == page.1
                    &&& final(self)@ == s
                    &&& session_fits(s, analysis@)
                    &&& s.at == index
                    &&& s.walk matches Some(walk)
                    &&& walk.extra_pages + 1 < max_pages
                },
                (s, Ok(None)) => r matches Ok(Todo::Finished) && final(self)@ == s,
                (_, Err(e)) => r matches Err(error) && error@ == e,
            },
    {
        let count = analysis.connections.len();
        while self.at < count
            invariant
                count == analysis.connections@.len(),
                session_fits(self@, analysis@),
                advanced(self@, analysis@, max_pages as int, file@) == advanced(
                    old(self)@,
                    analysis@,
                    max_pages as int,
                    file@,
                ),
            decreases
                    count - self.at,
                    (if self.walk is None {
                        1int
                    } else {
                        0int
                    }),
        {
            assert(analysis@.connections[self.at as int] == analysis.connections@[self.at as int]@);
            let conn = &analysis.connections[self.at];
            let mut walk: Option<Walk> = None;
            std::mem::swap(&mut walk, &mut self.walk);
            match walk {
                None => {
                    if !conn.paginate {
                        self.at = self.at + 1;
                    } else {
                        match begin(&self.merged, conn, file) {
                            Err(e) => {
                                return Err(e);
                            },
                            Ok(None) => {
                                self.at = self.at + 1;
                            },
                            Ok(Some(w)) => {
                                self.walk = Some(w);
                            },
                        }
                    }
                },
                Some(mut w) => match w.next(conn, max_pages, file) {
                    Err(e) => {
                        return Err(e);
                    },
                    Ok(None) => {
                        let extra = w.extra_pages;
                        w.finish(&mut self.merged, conn);
                        self.pages = self.pages.saturating_add(extra);
                        self.at = self.at + 1;
                    },
                    Ok(Some(cursor)) => {
                        let ghost sent = texts(w.seen@);
                        w.seen.push(cursor.clone());
                        assert(texts(w.seen@) =~= sent.push(cursor@));
                        self.walk = Some(w);
                        return Ok(Todo::Send { index: self.at, cursor });
                    },
                },
            }
        }
        match strip(&mut self.merged, analysis, file) {
            Ok(()) => Ok(Todo::Finished),
            Err(e) => Err(e),
        }
    }

    /// Takes in the page that was asked for.
    pub fn deliver(&mut self, page: Json, analysis: &Analysis, file: &str) -> (r: Result<(), Error>)
        requires
            session_fits(old(self)@, analysis@),
            old(self).walk matches Some(walk) ==> walk.extra_pages < usize::MAX,
        ensures
            match old(self)@.walk {
                Some(walk) => match delivered(
                    walk,
                    old(self)@.merged,
                    page@,
                    analysis@.connections[old(self)@.at],
                ) {
                    Ok((w, merged)) => {
                        &&& r is Ok
                        &&& final(self)@ == (SessionModel {
                            merged,
                            walk: Some(w),
                            ..old(self)@
                        })
                        &&& session_fits(final(self)@, analysis@)
                    },
                    Err(message) => {
                        &&& r matches Err(e)
                        &&& e@ == (ErrorModel::GraphQl { path: file@, message })
                        &&& final(self)@ == old(self)@
                    },
                },
                // Nothing was asked for.
                None => r is Ok && final(self)@ == old(self)@,
            },
    {
        let mut walk: Option<Walk> = None;
        std::mem::swap(&mut walk, &mut self.walk);
        match walk {
            None => Ok(()),
            Some(mut w) => {
                assert(analysis@.connections[self.at as int]
                    == analysis.connections@[self.at as int]@);
                let conn = &analysis.connections[self.at];
                proof {
                    lemma_delivered_found(w@, self.merged@, page@, conn@);
                }
                let outcome = w.deliver(&mut self.merged, page, conn, file);
                self.walk = Some(w);
                outcome
            },
        }
    }
}

/// A connection that is in the response stays in it.
proof fn lemma_delivered_found(w: WalkModel, merged: JsonModel, page: JsonModel, c: ConnectionModel)
    requires
        follow(merged, c.path, 0) is Found,
    ensures
        delivered(w, merged, page, c) matches Ok((_, all)) ==> follow(all, c.path, 0) is Found,
{
    if let Reach::Found(node) = follow(page, c.path, 0) {
        if let Reach::Found(target) = follow(merged, c.path, 0) {
            law_graft_is_found(merged, c.path, 0, joined_lists(target, node, c.lists));
        }
    }
}

// ---------------------------------------------------------------------------------------
// Laws
// ---------------------------------------------------------------------------------------
/// Whether a key is one of the list fields of a connection.
pub open spec fn is_list(lists: Seq<(ListField, Seq<char>)>, key: Seq<char>) -> bool {
    exists|i: int| 0 <= i < lists.len() && (#[trigger] lists[i]).1 == key
}

/// A walk that sends its next cursor.
pub open spec fn asking(w: WalkModel, path: Seq<Seq<char>>, max_pages: int) -> Option<WalkModel> {
    match next_cursor(w, path, max_pages) {
        Ok(Some(cursor)) => Some(WalkModel { seen: w.seen.push(cursor), ..w }),
        _ => None,
    }
}

/// A walk and the merged response after pages, each one asked for and taken in; nothing where
/// one of them would not be asked for, or cannot be taken in.
pub open spec fn fed(
    w: WalkModel,
    merged: JsonModel,
    pages: Seq<JsonModel>,
    c: ConnectionModel,
    max_pages: int,
) -> Option<(WalkModel, JsonModel)>
    decreases pages.len(),
{
    if pages.len() == 0 {
        Some((w, merged))
    } else {
        match fed(w, merged, pages.drop_last(), c, max_pages) {
            Some((v, all)) => match asking(v, c.path, max_pages) {
                Some(asked) => match delivered(asked, all, pages.last(), c) {
                    Ok(after) => Some(after),
                    Err(_) => None,
                },
                None => None,
            },
            None => None,
        }
    }
}

/// The list under a key of a connection, in a response.
pub open spec fn list_in(response: JsonModel, c: ConnectionModel, key: Seq<char>) -> Option<
    Seq<JsonModel>,
> {
    match follow(response, c.path, 0) {
        Reach::Found(node) => match field(node, key) {
            Some(JsonModel::Array(items)) => Some(items),
            _ => None,
        },
        _ => None,
    }
}

/// The items of page 1 followed by those of each further page, in order.
pub open spec fn all_items(
    first: Seq<JsonModel>,
    pages: Seq<JsonModel>,
    c: ConnectionModel,
    key: Seq<char>,
) -> Seq<JsonModel>
    decreases pages.len(),
{
    if pages.len() == 0 {
        first
    } else {
        all_items(first, pages.drop_last(), c, key) + list_in(pages.last(), c, key)->0
    }
}

/// What joining a page does to one key.
proof fn lemma_joined_lists(
    target: JsonModel,
    page: JsonModel,
    lists: Seq<(ListField, Seq<char>)>,
    key: Seq<char>,
)
    ensures
        field(joined_lists(target, page, lists), key) == match (field(page, key), field(target, key)) {
            (Some(JsonModel::Array(more)), Some(JsonModel::Array(items))) => if is_list(
                lists,
                key,
            ) {
                Some(JsonModel::Array(items + more))
            } else {
                field(target, key)
            },
            _ => field(target, key),
        },
    decreases lists.len(),
{
    if lists.len() > 0 {
        let k = lists[0].1;
        let rest = lists.drop_first();
        let longer = match (field(page, k), field(target, k)) {
            (Some(JsonModel::Array(more)), Some(JsonModel::Array(items))) => with_field(
                target,
                k,
                JsonModel::Array(items + more),
            ),
            _ => target,
        };
        lemma_joined_lists(longer, taken(page, k), rest, key);
        if field(page, k) is Some {
            lemma_with_field(page, k, JsonModel::Null, key);
        }
        match (field(page, k), field(target, k)) {
            (Some(JsonModel::Array(more)), Some(JsonModel::Array(items))) => {
                lemma_with_field(target, k, JsonModel::Array(items + more), key);
            },
            _ => {},
        }
        assert(is_list(lists, key) == (k == key || is_list(rest, key))) by {
            if is_list(lists, key) && k != key {
                let i = choose|i: int| 0 <= i < lists.len() && (#[trigger] lists[i]).1 == key;
                assert(rest[i - 1].1 == key);
            }
            if is_list(rest, key) {
                let i = choose|i: int| 0 <= i < rest.len() && (#[trigger] rest[i]).1 == key;
                assert(lists[i + 1].1 == key);
            }
            if k == key {
                assert(lists[0].1 == key);
            }
        }
    }
}

/// Every page is fetched and the results are joined: a list of the merged response is the list
/// of page 1 followed by the list of each further page, in the order in which they came.
pub proof fn law_pages_are_joined(
    w: WalkModel,
    merged: JsonModel,
    pages: Seq<JsonModel>,
    c: ConnectionModel,
    key: Seq<char>,
    max_pages: int,
)
    requires
        is_list(c.lists, key),
        list_in(merged, c, key) is Some,
        forall|i: int| 0 <= i < pages.len() ==> list_in(#[trigger] pages[i], c, key) is Some,
    ensures
        fed(w, merged, pages, c, max_pages) matches Some((_, all)) ==> list_in(all, c, key) == Some(
            all_items(list_in(merged, c, key)->0, pages, c, key),
        ),
    decreases pages.len(),
{
    if pages.len() > 0 {
        let earlier = pages.drop_last();
        assert forall|i: int| 0 <= i < earlier.len() implies list_in(
            #[trigger] earlier[i],
            c,
            key,
        ) is Some by {
            assert(list_in(pages[i], c, key) is Some);
        }
        law_pages_are_joined(w, merged, earlier, c, key, max_pages);
        if let Some((v, all)) = fed(w, merged, earlier, c, max_pages) {
            let page = pages.last();
            assert(list_in(pages[pages.len() - 1], c, key) is Some);
            let node = follow(page, c.path, 0)->Found_0;
            let target = follow(all, c.path, 0)->Found_0;
            law_graft_is_found(all, c.path, 0, joined_lists(target, node, c.lists));
            lemma_joined_lists(target, node, c.lists, key);
        }
    }
}

/// Nothing but the lists of a connection is touched by further pages.
pub proof fn law_other_fields_stay(
    w: WalkModel,
    merged: JsonModel,
    page: JsonModel,
    c: ConnectionModel,
    key: Seq<char>,
)
    requires
        !is_list(c.lists, key),
        follow(merged, c.path, 0) is Found,
    ensures
        delivered(w, merged, page, c) matches Ok((_, all)) ==> follow(all, c.path, 0) is Found
            && field(follow(all, c.path, 0)->Found_0, key) == field(
            follow(merged, c.path, 0)->Found_0,
            key,
        ),
{
    if let Reach::Found(node) = follow(page, c.path, 0) {
        let target = follow(merged, c.path, 0)->Found_0;
        law_graft_is_found(merged, c.path, 0, joined_lists(target, node, c.lists));
        lemma_joined_lists(target, node, c.lists, key);
    }
}

/// `hasNextPage` comes from the last page actually fetched, never set to `false` to look tidy;
/// and so does the cursor, where that page has one.
pub proof fn law_page_info_is_the_last_pages(
    w: WalkModel,
    merged: JsonModel,
    pages: Seq<JsonModel>,
    c: ConnectionModel,
    max_pages: int,
)
    requires
        pages.len() > 0,
        fed(w, merged, pages, c, max_pages) is Some,
        ({
            let all = (fed(w, merged, pages, c, max_pages)->0).1;
            &&& follow(all, c.path, 0) matches Reach::Found(node)
            &&& field(node, page_key(c)) matches Some(JsonModel::Object(_))
        }),
    ensures
        ({
            let (v, all) = fed(w, merged, pages, c, max_pages)->0;
            let last = page_info(follow(pages.last(), c.path, 0)->Found_0, page_key(c))->0;
            &&& follow(pages.last(), c.path, 0) is Found
            &&& page_info(follow(pages.last(), c.path, 0)->Found_0, page_key(c)) is Some
            &&& follow(finished(all, v, c), c.path, 0) matches Reach::Found(node)
            &&& inner_field(node, page_key(c), "hasNextPage"@) == Some(JsonModel::Bool(last.0))
            &&& last.1 matches Some(cursor) ==> inner_field(node, page_key(c), "endCursor"@)
                == Some(JsonModel::Text(cursor))
        }),
{
    let (v, all) = fed(w, merged, pages, c, max_pages)->0;
    let last = page_info(follow(pages.last(), c.path, 0)->Found_0, page_key(c))->0;
    assert(v.has_next == last.0 && v.cursor == last.1);
    let node = follow(all, c.path, 0)->Found_0;
    let info = field(node, page_key(c))->0;
    law_graft_is_found(all, c.path, 0, with_field(node, page_key(c), described(info, v)));
    lemma_with_field(node, page_key(c), described(info, v), page_key(c));
    lemma_described(info, v);
}

/// What a rebuilt `pageInfo` says.
proof fn lemma_described(info: JsonModel, w: WalkModel)
    requires
        info is Object,
    ensures
        field(described(info, w), "hasNextPage"@) == Some(JsonModel::Bool(w.has_next)),
        w.cursor matches Some(cursor) ==> field(described(info, w), "endCursor"@) == Some(
            JsonModel::Text(cursor),
        ),
{
    let next = "hasNextPage"@;
    let end = "endCursor"@;
    let start = "startCursor"@;
    let previous = "hasPreviousPage"@;
    reveal_strlit("hasNextPage");
    reveal_strlit("endCursor");
    reveal_strlit("startCursor");
    reveal_strlit("hasPreviousPage");
    assert(next[0] != start[0]);
    assert(next.len() == 11 && end.len() == 9 && start.len() == 11 && previous.len() == 15);
    let a = with_field(info, next, JsonModel::Bool(w.has_next));
    lemma_with_field(info, next, JsonModel::Bool(w.has_next), next);
    let b = match w.cursor {
        Some(cursor) => with_field(a, end, JsonModel::Text(cursor)),
        None => a,
    };
    if let Some(cursor) = w.cursor {
        lemma_with_field(a, end, JsonModel::Text(cursor), next);
        lemma_with_field(a, end, JsonModel::Text(cursor), end);
    }
    let d = match w.start_cursor {
        Some(cursor) => with_field(b, start, cursor),
        None => b,
    };
    if let Some(cursor) = w.start_cursor {
        lemma_with_field(b, start, cursor, next);
        lemma_with_field(b, start, cursor, end);
    }
    if let Some(value) = w.has_previous {
        lemma_with_field(d, previous, value, next);
        lemma_with_field(d, previous, value, end);
    }
}

/// Along a connection, no cursor is sent twice; page 1 and the pages fetched after it are never
/// more than `--max-pages`; and there is one cursor sent for each of these.
pub proof fn law_walks_are_bounded(
    w: WalkModel,
    merged: JsonModel,
    pages: Seq<JsonModel>,
    c: ConnectionModel,
    max_pages: int,
)
    requires
        w.seen.len() == 0,
        w.extra_pages == 0,
        max_pages >= 1,
    ensures
        fed(w, merged, pages, c, max_pages) matches Some((v, _)) ==> {
            &&& v.seen.no_duplicates()
            &&& v.seen.len() == pages.len()
            &&& v.extra_pages == pages.len()
            &&& 1 + pages.len() <= max_pages
        },
    decreases pages.len(),
{
    if pages.len() > 0 {
        law_walks_are_bounded(w, merged, pages.drop_last(), c, max_pages);
        if let Some((v, all)) = fed(w, merged, pages.drop_last(), c, max_pages) {
            if let Some(asked) = asking(v, c.path, max_pages) {
                let sent = asked.seen;
                assert forall|i: int, j: int|
                    0 <= i < sent.len() && 0 <= j < sent.len() && i != j implies sent[i]
                    != sent[j] by {
                    if i < v.seen.len() && j < v.seen.len() {
                        assert(v.seen[i] != v.seen[j]);
                    } else if i < v.seen.len() {
                        assert(v.seen.contains(v.seen[i]));
                    } else {
                        assert(v.seen.contains(v.seen[j]));
                    }
                }
            }
        }
    }
}

/// A walk is over only at the last page: it fails rather than leave pages out.
pub proof fn law_walks_go_to_the_end(w: WalkModel, path: Seq<Seq<char>>, max_pages: int)
    requires
        next_cursor(w, path, max_pages) == Ok::<Option<Seq<char>>, Seq<char>>(None),
    ensures
        !w.has_next,
{
}

/// A session asks for pages as its walk does: the page that it asks for is the one behind the
/// walk's next cursor, and it is the same walk that takes the page in.
pub proof fn law_session_follows_its_walk(
    s: SessionModel,
    a: AnalysisModel,
    max_pages: int,
    file: Seq<char>,
)
    requires
        session_fits(s, a),
        s.walk is Some,
        asking(s.walk->0, a.connections[s.at].path, max_pages) is Some,
    ensures
        advanced(s, a, max_pages, file) == (
            SessionModel { walk: asking(s.walk->0, a.connections[s.at].path, max_pages), ..s },
            Ok::<Option<(int, Seq<char>)>, ErrorModel>(
                Some(
                    (
                        s.at,
                        asking(s.walk->0, a.connections[s.at].path, max_pages)->0.seen.last(),
                    ),
                ),
            ),
        ),
{
}

/// A page that came back without the connection, or without what says whether there is a next
/// one, is an error: the result is never cut short in silence.
pub proof fn law_incomplete_page_is_an_error(
    w: WalkModel,
    merged: JsonModel,
    page: JsonModel,
    c: ConnectionModel,
)
    ensures
        delivered(w, merged, page, c) is Ok <==> {
            &&& follow(page, c.path, 0) matches Reach::Found(node)
            &&& page_info(node, page_key(c)) is Some
        },
{
}

/// Whether every path that leads somewhere in the first value leads somewhere in the second.
pub open spec fn within(v: JsonModel, whole: JsonModel) -> bool {
    forall|path: Seq<Seq<char>>, depth: int|
        0 <= depth && #[trigger] follow(v, path, depth) is Found ==> follow(
            whole,
            path,
            depth,
        ) is Found
}

/// What was added to connection `k` is in no result: neither a `pageInfo` nor a part of one that
/// the user never asked for.
pub proof fn law_added_page_info_is_stripped(
    merged: JsonModel,
    a: AnalysisModel,
    file: Seq<char>,
    n: int,
    k: int,
)
    requires
        0 <= k < n <= a.connections.len(),
        a.connections[k].paginate,
    ensures
        stripped(merged, a, file, n) matches Ok(rest) ==> {
            let c = a.connections[k];
            match c.page_info_key {
                None => !(follow(rest, c.path.push("pageInfo"@), 0) is Found),
                Some(key) => {
                    &&& c.lacks_next ==> !(follow(
                        rest,
                        c.path.push(key).push("hasNextPage"@),
                        0,
                    ) is Found)
                    &&& c.lacks_cursor ==> !(follow(
                        rest,
                        c.path.push(key).push("endCursor"@),
                        0,
                    ) is Found)
                },
            }
        },
    decreases n,
{
    if let Ok(rest) = stripped(merged, a, file, n) {
        let before = stripped(merged, a, file, n - 1)->Ok_0;
        let c = a.connections[n - 1];
        if k < n - 1 {
            law_added_page_info_is_stripped(merged, a, file, n - 1, k);
            lemma_step_within(before, rest, c);
        } else if is_padded(c) {
            match follow(before, c.path, 0) {
                Reach::Found(node) => {
                    let left = tidy(node, c);
                    law_graft_is_found(before, c.path, 0, left);
                    match c.page_info_key {
                        None => {
                            law_removed_field_is_gone(node, "pageInfo"@, "pageInfo"@);
                            lemma_follow_push(rest, c.path, "pageInfo"@, 0);
                        },
                        Some(key) => {
                            lemma_follow_push(rest, c.path, key, 0);
                            lemma_follow_push(rest, c.path.push(key), "hasNextPage"@, 0);
                            lemma_follow_push(rest, c.path.push(key), "endCursor"@, 0);
                            if let Some(info) = field(node, key) {
                                lemma_with_field(node, key, lean(info, c), key);
                                lemma_lean(info, c);
                            }
                        },
                    }
                },
                _ => {
                    lemma_follow_push(rest, c.path, "pageInfo"@, 0);
                    if let Some(key) = c.page_info_key {
                        lemma_follow_push(rest, c.path, key, 0);
                        lemma_follow_push(rest, c.path.push(key), "hasNextPage"@, 0);
                        lemma_follow_push(rest, c.path.push(key), "endCursor"@, 0);
                    }
                },
            }
        }
    }
}

/// Stripping only takes away: nothing is in the result that was not in the merged response.
pub proof fn law_stripping_adds_nothing(merged: JsonModel, a: AnalysisModel, file: Seq<char>, n: int)
    requires
        0 <= n <= a.connections.len(),
    ensures
        stripped(merged, a, file, n) matches Ok(rest) ==> within(rest, merged),
    decreases n,
{
    if n > 0 {
        law_stripping_adds_nothing(merged, a, file, n - 1);
        if let Ok(rest) = stripped(merged, a, file, n) {
            let before = stripped(merged, a, file, n - 1)->Ok_0;
            lemma_step_within(before, rest, a.connections[n - 1]);
        }
    }
}

/// A lean `pageInfo` has none of what was added to it.
proof fn lemma_lean(info: JsonModel, c: ConnectionModel)
    ensures
        c.lacks_next ==> field(lean(info, c), "hasNextPage"@) is None,
        c.lacks_cursor ==> field(lean(info, c), "endCursor"@) is None,
        within(lean(info, c), info),
{
    let next = "hasNextPage"@;
    let end = "endCursor"@;
    law_removed_field_is_gone(info, next, next);
    let rest = without_field(info, next);
    law_removed_field_is_gone(rest, end, next);
    law_removed_field_is_gone(rest, end, end);
    law_removed_field_is_gone(info, end, end);
    lemma_without_within(info, next);
    lemma_without_within(rest, end);
    lemma_without_within(info, end);
}

/// Stripping one connection only takes away.
proof fn lemma_step_within(before: JsonModel, rest: JsonModel, c: ConnectionModel)
    requires
        rest == if is_padded(c) && follow(before, c.path, 0) is Found {
            graft(before, c.path, 0, tidy(follow(before, c.path, 0)->Found_0, c))
        } else {
            before
        },
    ensures
        within(rest, before),
{
    if is_padded(c) {
        if let Reach::Found(node) = follow(before, c.path, 0) {
            match c.page_info_key {
                None => {
                    lemma_without_within(node, "pageInfo"@);
                },
                Some(key) => if let Some(info) = field(node, key) {
                    lemma_lean(info, c);
                    lemma_with_within(node, key, lean(info, c));
                },
            }
            lemma_graft_within(before, c.path, 0, tidy(node, c));
        }
    }
}

proof fn lemma_without_within(v: JsonModel, key: Seq<char>)
    ensures
        within(without_field(v, key), v),
{
    let less = without_field(v, key);
    assert forall|path: Seq<Seq<char>>, depth: int|
        0 <= depth && #[trigger] follow(less, path, depth) is Found implies follow(
        v,
        path,
        depth,
    ) is Found by {
        if depth < path.len() {
            law_removed_field_is_gone(v, key, path[depth]);
        }
    }
}

proof fn lemma_with_within(v: JsonModel, key: Seq<char>, less: JsonModel)
    requires
        field(v, key) matches Some(value) && within(less, value),
    ensures
        within(with_field(v, key, less), v),
{
    let new = with_field(v, key, less);
    let value = field(v, key)->0;
    assert forall|path: Seq<Seq<char>>, depth: int|
        0 <= depth && #[trigger] follow(new, path, depth) is Found implies follow(
        v,
        path,
        depth,
    ) is Found by {
        if depth < path.len() {
            lemma_with_field(v, key, less, path[depth]);
            if path[depth] == key {
                assert(follow(less, path, depth + 1) is Found);
                assert(follow(value, path, depth + 1) is Found);
            }
        }
    }
}

proof fn lemma_graft_within(v: JsonModel, path: Seq<Seq<char>>, depth: int, less: JsonModel)
    requires
        0 <= depth,
        follow(v, path, depth) matches Reach::Found(node) && within(less, node),
    ensures
        within(graft(v, path, depth, less), v),
    decreases path.len() - depth,
{
    if depth < path.len() {
        let next = field(v, path[depth])->0;
        lemma_graft_within(next, path, depth + 1, less);
        lemma_with_within(v, path[depth], graft(next, path, depth + 1, less));
    }
}

/// One more key on a path.
proof fn lemma_follow_push(v: JsonModel, path: Seq<Seq<char>>, key: Seq<char>, depth: int)
    requires
        0 <= depth <= path.len(),
    ensures
        follow(v, path.push(key), depth) is Found ==> {
            &&& follow(v, path, depth) matches Reach::Found(node)
            &&& field(node, key) matches Some(next)
            &&& follow(v, path.push(key), depth) == Reach::Found(next)
        },
    decreases path.len() - depth,
{
    let longer = path.push(key);
    if depth < path.len() {
        assert(longer[depth] == path[depth]);
        if let Some(next) = field(v, path[depth]) {
            lemma_follow_push(next, path, key, depth + 1);
        }
    } else {
        assert(longer[depth] == key);
        if let Some(next) = field(v, key) {
            assert(follow(next, longer, depth + 1) == Reach::Found(next));
        }
    }
}

/// A walk goes on while there is a next page: its cursor is sent, unless it was sent before or
/// `--max-pages` pages were fetched. `--max-pages` never stops a walk before that.
pub proof fn law_next_page_is_asked_for(w: WalkModel, path: Seq<Seq<char>>, max_pages: int)
    requires
        w.has_next,
    ensures
        match w.cursor {
            Some(cursor) => match next_cursor(w, path, max_pages) {
                Ok(next) => next == Some(cursor) && !w.seen.contains(cursor) && w.extra_pages + 1
                    < max_pages,
                Err(_) => w.seen.contains(cursor) || w.extra_pages + 1 >= max_pages,
            },
            None => next_cursor(w, path, max_pages) is Err,
        },
{
}

/// A walk without a next page is over, whatever else there is.
pub proof fn law_last_page_ends_the_walk(w: WalkModel, path: Seq<Seq<char>>, max_pages: int)
    requires
        !w.has_next,
    ensures
        next_cursor(w, path, max_pages) == Ok::<Option<Seq<char>>, Seq<char>>(None),
{
}

/// Whether a page says that there is a next one, or not, and gives its cursor.
pub open spec fn says(
    page: JsonModel,
    c: ConnectionModel,
    has_next: bool,
    cursor: Option<Seq<char>>,
) -> bool {
    &&& follow(page, c.path, 0) matches Reach::Found(node)
    &&& field(node, page_key(c)) matches Some(info)
    &&& field(info, "hasNextPage"@) == Some(JsonModel::Bool(has_next))
    &&& match cursor {
        Some(text) => field(info, "endCursor"@) == Some(JsonModel::Text(text)),
        None => !(field(info, "endCursor"@) matches Some(JsonModel::Text(_))),
    }
}

/// A connection that fits in `--max-pages` is walked to its end without an error: with page 1
/// leading to the first of `pages`, each of these but the last to the next one, and no cursor
/// given twice, every page is asked for and taken in, and then the walk is over.
pub proof fn law_whole_connection_is_walked(
    first: JsonModel,
    pages: Seq<JsonModel>,
    cursors: Seq<Seq<char>>,
    c: ConnectionModel,
    max_pages: int,
)
    requires
        cursors.len() == pages.len(),
        cursors.no_duplicates(),
        1 + pages.len() <= max_pages,
        says(
            first,
            c,
            pages.len() > 0,
            if pages.len() > 0 {
                Some(cursors[0])
            } else {
                None
            },
        ),
        forall|i: int|
            0 <= i < pages.len() ==> says(
                #[trigger] pages[i],
                c,
                i + 1 < pages.len(),
                if i + 1 < pages.len() {
                    Some(cursors[i + 1])
                } else {
                    None
                },
            ),
    ensures
        begun(first, c) matches Ok(Some(w)) && fed(w, first, pages, c, max_pages) matches Some(
            (v, _),
        ) && next_cursor(v, c.path, max_pages) == Ok::<Option<Seq<char>>, Seq<char>>(None)
            && v.seen == cursors,
{
    let w = begun(first, c)->Ok_0->0;
    lemma_walked_so_far(w, first, pages, cursors, c, max_pages, pages.len() as int);
    assert(pages.take(pages.len() as int) =~= pages);
    assert(cursors.take(pages.len() as int) =~= cursors);
}

proof fn lemma_walked_so_far(
    w: WalkModel,
    first: JsonModel,
    pages: Seq<JsonModel>,
    cursors: Seq<Seq<char>>,
    c: ConnectionModel,
    max_pages: int,
    k: int,
)
    requires
        0 <= k <= pages.len(),
        cursors.len() == pages.len(),
        cursors.no_duplicates(),
        1 + pages.len() <= max_pages,
        w.seen.len() == 0,
        w.extra_pages == 0,
        w.has_next == (pages.len() > 0),
        pages.len() > 0 ==> w.cursor == Some(cursors[0]),
        forall|i: int|
            0 <= i < pages.len() ==> says(
                #[trigger] pages[i],
                c,
                i + 1 < pages.len(),
                if i + 1 < pages.len() {
                    Some(cursors[i + 1])
                } else {
                    None
                },
            ),
    ensures
        fed(w, first, pages.take(k), c, max_pages) matches Some((v, _)) && {
            &&& v.seen == cursors.take(k)
            &&& v.extra_pages == k
            &&& v.has_next == (k < pages.len())
            &&& k < pages.len() ==> v.cursor == Some(cursors[k])
        },
    decreases k,
{
    if k > 0 {
        lemma_walked_so_far(w, first, pages, cursors, c, max_pages, k - 1);
        let all = pages.take(k);
        assert(all.drop_last() =~= pages.take(k - 1));
        assert(all.last() == pages[k - 1]);
        let (v, merged) = fed(w, first, pages.take(k - 1), c, max_pages)->0;
        let sent = cursors.take(k - 1);
        if sent.contains(cursors[k - 1]) {
            let i = choose|i: int| 0 <= i < sent.len() && sent[i] == cursors[k - 1];
            assert(cursors[i] == cursors[k - 1]);
        }
        assert(sent.push(cursors[k - 1]) =~= cursors.take(k));
    } else {
        assert(pages.take(0) =~= seq![]);
        assert(cursors.take(0) =~= seq![]);
        assert(w.seen =~= cursors.take(0));
    }
}

/// A walk begins with what the `pageInfo` of page 1 says: whether there is a next page, and the
/// cursor that leads to it. Nothing was sent yet.
pub proof fn law_walk_begins_at_page_one(
    first: JsonModel,
    c: ConnectionModel,
    has_next: bool,
    cursor: Option<Seq<char>>,
)
    requires
        says(first, c, has_next, cursor),
    ensures
        begun(first, c) matches Ok(Some(w)) && {
            &&& w.has_next == has_next
            &&& w.cursor == cursor
            &&& w.seen.len() == 0
            &&& w.extra_pages == 0
            &&& w.start_cursor == field(
                field(follow(first, c.path, 0)->Found_0, page_key(c))->0,
                "startCursor"@,
            )
            &&& w.has_previous == field(
                field(follow(first, c.path, 0)->Found_0, page_key(c))->0,
                "hasPreviousPage"@,
            )
        },
{
}

/// A connection that is not in the response, or is there without a `pageInfo`, is passed over;
/// one behind a list is an error.
pub proof fn law_absent_connection_is_passed_over(first: JsonModel, c: ConnectionModel)
    ensures
        follow(first, c.path, 0) is Missing ==> begun(first, c) == Ok::<_, Seq<char>>(
            None::<WalkModel>,
        ),
        follow(first, c.path, 0) matches Reach::Found(node) ==> field(node, page_key(c)) is None
            ==> begun(first, c) == Ok::<_, Seq<char>>(None::<WalkModel>),
        follow(first, c.path, 0) is Listed ==> begun(first, c) is Err,
{
}

/// The `pageInfo` that counts is the one that the user asked for, under the name that they gave
/// it; else the one that was added.
pub proof fn law_page_info_that_counts(c: ConnectionModel)
    ensures
        match c.page_info_key {
            Some(key) => page_key(c) == key,
            None => page_key(c) == "pageInfo"@,
        },
{
}

/// Only what says `true` means that there is a next page, and only a text is a cursor.
pub proof fn law_page_info_is_read(node: JsonModel, key: Seq<char>, info: JsonModel)
    requires
        field(node, key) == Some(info),
    ensures
        match page_info(node, key) {
            Some((has_next, cursor)) => {
                &&& field(info, "hasNextPage"@) is Some
                &&& has_next <==> field(info, "hasNextPage"@) == Some(JsonModel::Bool(true))
                &&& match cursor {
                    Some(text) => field(info, "endCursor"@) == Some(JsonModel::Text(text)),
                    None => !(field(info, "endCursor"@) matches Some(JsonModel::Text(_))),
                }
            },
            None => field(info, "hasNextPage"@) is None,
        },
{
}

/// A page that is taken in says where the walk goes on; what page 1 said of the beginning stays,
/// and so does what was sent.
pub proof fn law_page_moves_the_walk_on(
    w: WalkModel,
    merged: JsonModel,
    page: JsonModel,
    c: ConnectionModel,
    has_next: bool,
    cursor: Option<Seq<char>>,
)
    requires
        says(page, c, has_next, cursor),
    ensures
        delivered(w, merged, page, c) matches Ok((v, _)) && {
            &&& v.has_next == has_next
            &&& v.cursor == cursor
            &&& v.extra_pages == w.extra_pages + 1
            &&& v.seen == w.seen
            &&& v.start_cursor == w.start_cursor
            &&& v.has_previous == w.has_previous
        },
{
}

/// Further pages touch nothing outside of their connection: whatever another path leads to, once
/// it has parted from the one to the connection, stays.
pub proof fn law_pages_stay_in_their_connection(
    w: WalkModel,
    merged: JsonModel,
    page: JsonModel,
    c: ConnectionModel,
    other: Seq<Seq<char>>,
    at: int,
)
    requires
        0 <= at < c.path.len(),
        at < other.len(),
        c.path[at] != other[at],
        forall|i: int| 0 <= i < at ==> #[trigger] c.path[i] == other[i],
    ensures
        delivered(w, merged, page, c) matches Ok((_, all)) ==> follow(all, other, 0) == follow(
            merged,
            other,
            0,
        ),
        follow(finished(merged, w, c), other, 0) == follow(merged, other, 0),
{
    if let Reach::Found(target) = follow(merged, c.path, 0) {
        if let Reach::Found(node) = follow(page, c.path, 0) {
            law_graft_leaves_the_rest(
                merged,
                c.path,
                other,
                0,
                at,
                joined_lists(target, node, c.lists),
            );
        }
        if let Some(info) = field(target, page_key(c)) {
            law_graft_leaves_the_rest(
                merged,
                c.path,
                other,
                0,
                at,
                with_field(target, page_key(c), described(info, w)),
            );
        }
    }
}

/// In the end `pageInfo` describes the whole: where it begins is what page 1 said, where it ends
/// what the last page said, and everything else in it, and beside it, is as it came.
pub proof fn law_page_info_describes_the_whole(
    merged: JsonModel,
    w: WalkModel,
    c: ConnectionModel,
    key: Seq<char>,
)
    requires
        follow(merged, c.path, 0) matches Reach::Found(node) && field(node, page_key(c)) matches Some(
            JsonModel::Object(_),
        ),
    ensures
        ({
            let before = follow(merged, c.path, 0)->Found_0;
            let info = field(before, page_key(c))->0;
            &&& follow(finished(merged, w, c), c.path, 0) matches Reach::Found(node)
            &&& key != page_key(c) ==> field(node, key) == field(before, key)
            &&& inner_field(node, page_key(c), key) == if key == "hasNextPage"@ {
                Some(JsonModel::Bool(w.has_next))
            } else if key == "endCursor"@ && w.cursor is Some {
                Some(JsonModel::Text(w.cursor->0))
            } else if key == "startCursor"@ && w.start_cursor is Some {
                w.start_cursor
            } else if key == "hasPreviousPage"@ && w.has_previous is Some {
                w.has_previous
            } else {
                field(info, key)
            }
        }),
{
    let before = follow(merged, c.path, 0)->Found_0;
    let info = field(before, page_key(c))->0;
    let new = described(info, w);
    law_graft_is_found(merged, c.path, 0, with_field(before, page_key(c), new));
    lemma_with_field(before, page_key(c), new, key);
    lemma_with_field(before, page_key(c), new, page_key(c));
    let next = "hasNextPage"@;
    let end = "endCursor"@;
    let start = "startCursor"@;
    let previous = "hasPreviousPage"@;
    reveal_strlit("hasNextPage");
    reveal_strlit("endCursor");
    reveal_strlit("startCursor");
    reveal_strlit("hasPreviousPage");
    assert(next[0] != start[0]);
    assert(next.len() == 11 && end.len() == 9 && start.len() == 11 && previous.len() == 15);
    let a = with_field(info, next, JsonModel::Bool(w.has_next));
    lemma_with_field(info, next, JsonModel::Bool(w.has_next), key);
    let b = match w.cursor {
        Some(cursor) => with_field(a, end, JsonModel::Text(cursor)),
        None => a,
    };
    if let Some(cursor) = w.cursor {
        lemma_with_field(a, end, JsonModel::Text(cursor), key);
    }
    let d = match w.start_cursor {
        Some(cursor) => with_field(b, start, cursor),
        None => b,
    };
    if let Some(cursor) = w.start_cursor {
        lemma_with_field(b, start, cursor, key);
    }
    if let Some(value) = w.has_previous {
        lemma_with_field(d, previous, value, key);
    }
}

/// Page 1 is asked for with every cursor variable at null, and no other variable.
pub proof fn law_cursors_start_at_null(a: AnalysisModel, k: int, name: Seq<char>)
    requires
        0 <= k <= a.connections.len(),
    ensures
        field(JsonModel::Object(first_variables(a, k)), name) == if exists|i: int|
            0 <= i < k && (#[trigger] a.connections[i]).paginate && a.cursor(i) == name {
            Some(JsonModel::Null)
        } else {
            None
        },
    decreases k,
{
    if k > 0 {
        law_cursors_start_at_null(a, k - 1, name);
        if a.connections[k - 1].paginate {
            lemma_with_field(
                JsonModel::Object(first_variables(a, k - 1)),
                a.cursor(k - 1),
                JsonModel::Null,
                name,
            );
            if a.cursor(k - 1) == name {
                assert(a.connections[k - 1].paginate);
            }
        }
        if exists|i: int|
            0 <= i < k - 1 && (#[trigger] a.connections[i]).paginate && a.cursor(i) == name {
            let i = choose|i: int|
                0 <= i < k - 1 && (#[trigger] a.connections[i]).paginate && a.cursor(i) == name;
            assert(a.connections[i].paginate);
        }
    }
}

/// A session takes the connections in turn: passing over those that are not to be paginated or
/// not in the response, it begins with the first one that has a next page, and asks for that.
pub proof fn law_session_takes_connections_in_turn(
    s: SessionModel,
    a: AnalysisModel,
    k: int,
    max_pages: int,
    file: Seq<char>,
)
    requires
        0 <= s.at <= k < a.connections.len(),
        s.walk is None,
        forall|i: int|
            s.at <= i < k ==> !(#[trigger] a.connections[i]).paginate || begun(
                s.merged,
                a.connections[i],
            ) == Ok::<_, Seq<char>>(None::<WalkModel>),
        a.connections[k].paginate,
        begun(s.merged, a.connections[k]) matches Ok(Some(w)) && w.has_next,
    ensures
        ({
            let c = a.connections[k];
            let w = begun(s.merged, c)->Ok_0->0;
            match next_cursor(w, c.path, max_pages) {
                Ok(Some(cursor)) => advanced(s, a, max_pages, file) == (
                    SessionModel {
                        at: k,
                        walk: Some(WalkModel { seen: w.seen.push(cursor), ..w }),
                        ..s
                    },
                    Ok::<Option<(int, Seq<char>)>, ErrorModel>(Some((k, cursor))),
                ),
                _ => advanced(s, a, max_pages, file).1 is Err,
            }
        }),
    decreases k - s.at,
{
    if s.at < k {
        assert(!a.connections[s.at].paginate || begun(s.merged, a.connections[s.at]) == Ok::<
            _,
            Seq<char>,
        >(None::<WalkModel>));
        law_session_takes_connections_in_turn(
            SessionModel { at: s.at + 1, ..s },
            a,
            k,
            max_pages,
            file,
        );
    } else {
        let w = begun(s.merged, a.connections[k])->Ok_0->0;
        let t = SessionModel { walk: Some(w), ..s };
        assert(advanced(s, a, max_pages, file) == advanced(t, a, max_pages, file));
    }
}

/// Once a walk is over, its pages are counted, its `pageInfo` describes the whole, and the session
/// goes on with the next connection.
pub proof fn law_session_goes_on_after_a_walk(
    s: SessionModel,
    a: AnalysisModel,
    max_pages: int,
    file: Seq<char>,
)
    requires
        0 <= s.at < a.connections.len(),
        s.walk matches Some(w) && !w.has_next,
    ensures
        ({
            let w = s.walk->0;
            advanced(s, a, max_pages, file) == advanced(
                SessionModel {
                    merged: finished(s.merged, w, a.connections[s.at]),
                    pages: if s.pages + w.extra_pages > usize::MAX {
                        usize::MAX as int
                    } else {
                        s.pages + w.extra_pages
                    },
                    at: s.at + 1,
                    walk: None,
                },
                a,
                max_pages,
                file,
            )
        }),
{
}

/// A session ends when all connections had their turn: what was added is taken out of the result,
/// and nothing else happens to it.
pub proof fn law_session_ends_after_the_last(
    s: SessionModel,
    a: AnalysisModel,
    max_pages: int,
    file: Seq<char>,
)
    requires
        s.walk is None,
        0 <= s.at <= a.connections.len(),
        forall|i: int|
            s.at <= i < a.connections.len() ==> !(#[trigger] a.connections[i]).paginate || begun(
                s.merged,
                a.connections[i],
            ) == Ok::<_, Seq<char>>(None::<WalkModel>),
    ensures
        match stripped(s.merged, a, file, a.connections.len() as int) {
            Ok(rest) => advanced(s, a, max_pages, file).1 == Ok::<_, ErrorModel>(
                None::<(int, Seq<char>)>,
            ) && advanced(s, a, max_pages, file).0.merged == rest && advanced(
                s,
                a,
                max_pages,
                file,
            ).0.pages == s.pages,
            Err(e) => advanced(s, a, max_pages, file).1 == Err::<Option<(int, Seq<char>)>, _>(e),
        },
    decreases a.connections.len() - s.at,
{
    if s.at < a.connections.len() {
        assert(!a.connections[s.at].paginate || begun(s.merged, a.connections[s.at]) == Ok::<
            _,
            Seq<char>,
        >(None::<WalkModel>));
        law_session_ends_after_the_last(SessionModel { at: s.at + 1, ..s }, a, max_pages, file);
    }
}

/// Whether a path leads through something that was added to a connection.
pub open spec fn is_added(c: ConnectionModel, path: Seq<Seq<char>>) -> bool {
    let n = c.path.len() as int;
    &&& c.paginate
    &&& c.path.is_prefix_of(path)
    &&& match c.page_info_key {
        None => path.len() > n && path[n] == "pageInfo"@,
        Some(key) => {
            &&& path.len() > n + 1
            &&& path[n] == key
            &&& c.lacks_next && path[n + 1] == "hasNextPage"@ || c.lacks_cursor && path[n + 1]
                == "endCursor"@
        },
    }
}

/// Stripping takes out only what was added: whatever a path leads to without going through that
/// is still there; texts, numbers, truth values and lists as they were.
pub proof fn law_stripping_keeps_the_rest(
    merged: JsonModel,
    a: AnalysisModel,
    file: Seq<char>,
    n: int,
    path: Seq<Seq<char>>,
)
    requires
        0 <= n <= a.connections.len(),
        follow(merged, path, 0) is Found,
        forall|k: int| 0 <= k < n ==> !is_added(#[trigger] a.connections[k], path),
    ensures
        stripped(merged, a, file, n) matches Ok(rest) ==> {
            let x = follow(merged, path, 0)->Found_0;
            &&& follow(rest, path, 0) matches Reach::Found(y)
            &&& if x is Object {
                y is Object
            } else {
                y == x
            }
        },
    decreases n,
{
    if n > 0 {
        law_stripping_keeps_the_rest(merged, a, file, n - 1, path);
        if let Ok(rest) = stripped(merged, a, file, n) {
            let before = stripped(merged, a, file, n - 1)->Ok_0;
            let c = a.connections[n - 1];
            assert(!is_added(c, path));
            if is_padded(c) {
                if let Reach::Found(node) = follow(before, c.path, 0) {
                    lemma_tidy_keeps(before, c, node, path, 0);
                }
            }
        }
    }
}

proof fn lemma_tidy_keeps(
    v: JsonModel,
    c: ConnectionModel,
    node: JsonModel,
    path: Seq<Seq<char>>,
    depth: int,
)
    requires
        0 <= depth <= c.path.len(),
        depth <= path.len(),
        forall|i: int| 0 <= i < depth ==> #[trigger] c.path[i] == path[i],
        follow(v, c.path, depth) == Reach::Found(node),
        follow(v, path, depth) is Found,
        is_padded(c),
        !is_added(c, path),
    ensures
        ({
            let x = follow(v, path, depth)->Found_0;
            &&& follow(graft(v, c.path, depth, tidy(node, c)), path, depth) matches Reach::Found(y)
            &&& if x is Object {
                y is Object
            } else {
                y == x
            }
        }),
    decreases c.path.len() - depth,
{
    reveal_with_fuel(follow, 3);
    let n = c.path.len() as int;
    if depth < n {
        let next = field(v, c.path[depth])->0;
        let inner = graft(next, c.path, depth + 1, tidy(node, c));
        if depth < path.len() {
            lemma_with_field(v, c.path[depth], inner, path[depth]);
            if path[depth] == c.path[depth] {
                lemma_tidy_keeps(next, c, node, path, depth + 1);
            }
        }
    } else if path.len() > n {
        assert(c.path =~= path.subrange(0, n));
        match c.page_info_key {
            None => {
                law_removed_field_is_gone(v, "pageInfo"@, path[n]);
            },
            Some(key) => {
                if let Some(info) = field(v, key) {
                    lemma_with_field(v, key, lean(info, c), path[n]);
                    if path[n] == key && path.len() > n + 1 {
                        let rest = without_field(info, "hasNextPage"@);
                        law_removed_field_is_gone(info, "hasNextPage"@, path[n + 1]);
                        law_removed_field_is_gone(rest, "endCursor"@, path[n + 1]);
                        law_removed_field_is_gone(info, "endCursor"@, path[n + 1]);
                    }
                }
            },
        }
    }
}

/// A walk begins wherever the `pageInfo` of page 1 has a `hasNextPage`; without one it is an
/// error, for the result would be cut short in silence.
pub proof fn law_walk_needs_to_know_of_a_next_page(first: JsonModel, c: ConnectionModel)
    requires
        follow(first, c.path, 0) is Found,
        field(follow(first, c.path, 0)->Found_0, page_key(c)) is Some,
    ensures
        ({
            let info = field(follow(first, c.path, 0)->Found_0, page_key(c))->0;
            match begun(first, c) {
                Ok(walk) => walk is Some && field(info, "hasNextPage"@) is Some,
                Err(_) => field(info, "hasNextPage"@) is None,
            }
        }),
{
}

/// An error says which connection it is about: it begins with its path, or with the part of it
/// that leads to the list that is in the way.
pub proof fn law_errors_name_the_connection(
    w: WalkModel,
    merged: JsonModel,
    page: JsonModel,
    c: ConnectionModel,
    max_pages: int,
)
    ensures
        next_cursor(w, c.path, max_pages) matches Err(message) ==> joined(c.path, "."@).is_prefix_of(
            message,
        ),
        begun(merged, c) matches Err(message) ==> match follow(merged, c.path, 0) {
            Reach::Listed(depth) => joined(c.path.take(depth), "."@).is_prefix_of(message),
            _ => joined(c.path, "."@).is_prefix_of(message),
        },
        delivered(w, merged, page, c) matches Err(message) ==> match follow(page, c.path, 0) {
            Reach::Listed(depth) => joined(c.path.take(depth), "."@).is_prefix_of(message),
            _ => joined(c.path, "."@).is_prefix_of(message),
        },
{
    let at = joined(c.path, "."@);
    if let Err(message) = next_cursor(w, c.path, max_pages) {
        assert(at =~= message.take(at.len() as int));
    }
    if let Err(message) = begun(merged, c) {
        let begin = match follow(merged, c.path, 0) {
            Reach::Listed(depth) => joined(c.path.take(depth), "."@),
            _ => at,
        };
        assert(begin =~= message.take(begin.len() as int));
    }
    if let Err(message) = delivered(w, merged, page, c) {
        let begin = match follow(page, c.path, 0) {
            Reach::Listed(depth) => joined(c.path.take(depth), "."@),
            _ => at,
        };
        assert(begin =~= message.take(begin.len() as int));
    }
}

/// Nothing but a list in the way stops the stripping.
pub proof fn law_only_lists_stop_the_stripping(
    merged: JsonModel,
    a: AnalysisModel,
    file: Seq<char>,
    n: int,
)
    requires
        0 < n <= a.connections.len(),
        stripped(merged, a, file, n - 1) is Ok,
    ensures
        stripped(merged, a, file, n) is Err ==> a.connections[n - 1].paginate && follow(
            stripped(merged, a, file, n - 1)->Ok_0,
            a.connections[n - 1].path,
            0,
        ) is Listed,
{
}

} // verus!
