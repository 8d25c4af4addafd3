//! Reading `graphql-config` (declarative variants only).
//!
//! `${VAR}` / `${VAR:default}` / `\$` interpolation happens on the raw text BEFORE
//! deserialization. The caller reads files and decodes them; what the configuration means is
//! decided here. Maps are lists of entries, in ascending order of keys.
use vstd::prelude::*;
use vstd::string::*;

use crate::errors::{Error, ErrorModel};
use crate::fetch::header_models;
use crate::path::{
    extension, extension_of_path, file_name, is_directory_part, is_single, law_name_and_extension,
    law_name_without_extension, name_of_path,
};
use crate::text::{
    chars_of, decimal, find_char, find_from, is_white, join, joined, law_first_is_found,
    lemma_trimmed_start, listed, opt_text, same, starts_with, text_of, texts, trim, trim_start, trimmed, trimmed_start, write_decimal,
};

verus! {

// ---------------------------------------------------------------------------------------
// The format
// ---------------------------------------------------------------------------------------
#[derive(Debug)]
pub struct GraphqlConfig {
    pub schema: Option<Schema>,
    pub documents: Option<Documents>,
    pub extensions: Extensions,
    pub projects: Option<Vec<(String, GraphqlConfig)>>,
}

#[derive(Debug)]
pub enum Schema {
    Url(String),
    List(Vec<Schema>),
    WithHeaders(Vec<(String, SchemaOptions)>),
}

#[derive(Debug)]
pub struct SchemaOptions {
    pub headers: Vec<(String, String)>,
}

#[derive(Debug)]
pub enum Documents {
    One(String),
    Many(Vec<String>),
}

#[derive(Debug)]
pub struct Extensions {
    pub endpoints: Vec<(String, Endpoint)>,
}

#[derive(Debug)]
pub enum Endpoint {
    Url(String),
    Full { url: String, headers: Vec<(String, String)> },
}

/// What the CLI actually needs out of the config.
#[derive(Debug)]
pub struct Resolved {
    pub endpoint: Option<String>,
    pub headers: Vec<(String, String)>,
    pub documents: Option<String>,
    pub origin: Option<String>,
}

impl Default for Resolved {
    /// What there is without a config file: nothing.
    fn default() -> (r: Self)
        ensures
            r.endpoint is None,
            r.headers@.len() == 0,
            r.documents is None,
            r.origin is None,
    {
        Resolved { endpoint: None, headers: Vec::new(), documents: None, origin: None }
    }
}

// ---------------------------------------------------------------------------------------
// Finding the file
// ---------------------------------------------------------------------------------------
/// Search places, in order. Finding several is an error — never a silent pick.
pub open spec fn search_place_texts() -> Seq<Seq<char>> {
    seq![
        "graphql.config.toml"@,
        "graphql.config.yaml"@,
        "graphql.config.yml"@,
        "graphql.config.json"@,
        ".graphqlrc.toml"@,
        ".graphqlrc.yaml"@,
        ".graphqlrc.yml"@,
        ".graphqlrc.json"@,
        ".graphqlrc"@,
    ]
}

/// Variants a binary cannot evaluate: detected so we can say so plainly.
pub open spec fn unsupported_place_texts() -> Seq<Seq<char>> {
    seq![
        "graphql.config.ts"@,
        "graphql.config.mts"@,
        "graphql.config.cts"@,
        "graphql.config.js"@,
        "graphql.config.mjs"@,
        "graphql.config.cjs"@,
        ".graphqlrc.ts"@,
        ".graphqlrc.js"@,
        ".graphqlrc.mjs"@,
        ".graphqlrc.cjs"@,
    ]
}

/// Search places, in order.
pub fn search_places() -> (r: Vec<String>)
    ensures
        texts(r@) == search_place_texts(),
{
    let mut r: Vec<String> = Vec::new();
    r.push("graphql.config.toml".to_owned());
    r.push("graphql.config.yaml".to_owned());
    r.push("graphql.config.yml".to_owned());
    r.push("graphql.config.json".to_owned());
    r.push(".graphqlrc.toml".to_owned());
    r.push(".graphqlrc.yaml".to_owned());
    r.push(".graphqlrc.yml".to_owned());
    r.push(".graphqlrc.json".to_owned());
    r.push(".graphqlrc".to_owned());
    assert(texts(r@) =~= search_place_texts());
    r
}

/// Variants a binary cannot evaluate.
pub fn unsupported_places() -> (r: Vec<String>)
    ensures
        texts(r@) == unsupported_place_texts(),
{
    let mut r: Vec<String> = Vec::new();
    r.push("graphql.config.ts".to_owned());
    r.push("graphql.config.mts".to_owned());
    r.push("graphql.config.cts".to_owned());
    r.push("graphql.config.js".to_owned());
    r.push("graphql.config.mjs".to_owned());
    r.push("graphql.config.cjs".to_owned());
    r.push(".graphqlrc.ts".to_owned());
    r.push(".graphqlrc.js".to_owned());
    r.push(".graphqlrc.mjs".to_owned());
    r.push(".graphqlrc.cjs".to_owned());
    assert(texts(r@) =~= unsupported_place_texts());
    r
}

/// A directory, and the names of the files in it (those of the places to look in will do).
#[derive(Debug)]
pub struct Directory {
    pub path: String,
    pub files: Vec<String>,
}

/// What a [`Directory`] stands for.
pub struct DirectoryModel {
    pub path: Seq<char>,
    pub files: Seq<Seq<char>>,
}

impl View for Directory {
    type V = DirectoryModel;

    open spec fn view(&self) -> DirectoryModel {
        DirectoryModel { path: self.path@, files: texts(self.files@) }
    }
}

/// What a list of directories stands for.
pub open spec fn directory_models(dirs: Seq<Directory>) -> Seq<DirectoryModel> {
    Seq::new(dirs.len(), |i: int| dirs[i]@)
}

/// Those of the first `k` names that are among the files.
pub open spec fn present(names: Seq<Seq<char>>, files: Seq<Seq<char>>, k: int) -> Seq<Seq<char>>
    decreases k,
{
    if k <= 0 {
        seq![]
    } else if files.contains(names[k - 1]) {
        present(names, files, k - 1).push(names[k - 1])
    } else {
        present(names, files, k - 1)
    }
}

/// The config file of a directory; or what is wrong there.
pub open spec fn config_in(dir: DirectoryModel) -> Result<Option<Seq<char>>, Seq<char>> {
    let places = search_place_texts();
    let found = present(places, dir.files, places.len() as int);
    let others = unsupported_place_texts();
    let unsupported = present(others, dir.files, others.len() as int);
    if found.len() > 1 {
        Err(
            "found several config files in "@ + dir.path + ": "@ + joined(found, ", "@)
                + " — keep only one"@,
        )
    } else if found.len() == 1 {
        Ok(Some(found[0]))
    } else if unsupported.len() > 0 {
        Err(
            "found "@ + joined(unsupported, ", "@) + " in "@ + dir.path
                + ", which gqlfreez cannot evaluate (it is a binary, not a JS runtime).\nUse a declarative config instead: "@
                + joined(places, ", "@) + ".\nOr pass --endpoint directly."@,
        )
    } else {
        Ok(None)
    }
}

/// The first directory with a config file, from directory `i` on, and the name of that file; or
/// what is wrong on the way there.
pub open spec fn config_from(dirs: Seq<DirectoryModel>, i: int) -> Result<
    Option<(int, Seq<char>)>,
    Seq<char>,
>
    decreases dirs.len() - i,
{
    if i < 0 || i >= dirs.len() {
        Ok(None)
    } else {
        match config_in(dirs[i]) {
            Err(message) => Err(message),
            Ok(Some(name)) => Ok(Some((i, name))),
            Ok(None) => config_from(dirs, i + 1),
        }
    }
}

/// Those of the names that are among the files.
fn find_present(names: &Vec<String>, files: &Vec<String>) -> (r: Vec<String>)
    ensures
        texts(r@) == present(texts(names@), texts(files@), names@.len() as int),
{
    let mut r: Vec<String> = Vec::new();
    assert(texts(r@) =~= seq![]);
    for i in 0..names.len()
        invariant
            texts(r@) == present(texts(names@), texts(files@), i as int),
    {
        assert(texts(names@)[i as int] == names@[i as int]@);
        let ghost done = texts(r@);
        if listed(names[i].as_str(), files) {
            r.push(names[i].clone());
            assert(texts(r@) =~= done.push(names@[i as int]@));
        }
    }
    r
}

/// The config file of a directory.
fn look_in(dir: &Directory) -> (r: Result<Option<String>, Error>)
    ensures
        match config_in(dir@) {
            Ok(name) => r matches Ok(n) && opt_text(n) == name,
            Err(message) => r matches Err(e) && e@ == ErrorModel::Config(message),
        },
{
    let places = search_places();
    let found = find_present(&places, &dir.files);
    assert(texts(places@).len() == places@.len());
    assert(texts(found@).len() == found@.len());
    if found.len() > 1 {
        let mut message = "found several config files in ".to_owned();
        message.append(dir.path.as_str());
        message.append(": ");
        message.append(join(&found, ", ").as_str());
        message.append(" — keep only one");
        return Err(Error::Config(message));
    }
    if found.len() == 1 {
        assert(texts(found@)[0] == found@[0]@);
        return Ok(Some(found[0].clone()));
    }
    let others = unsupported_places();
    assert(texts(others@).len() == others@.len());
    let unsupported = find_present(&others, &dir.files);
    assert(texts(unsupported@).len() == unsupported@.len());
    if unsupported.len() > 0 {
        let mut message = "found ".to_owned();
        message.append(join(&unsupported, ", ").as_str());
        message.append(" in ");
        message.append(dir.path.as_str());
        message.append(
            ", which gqlfreez cannot evaluate (it is a binary, not a JS runtime).\nUse a declarative config instead: ",
        );
        message.append(join(&places, ", ").as_str());
        message.append(".\nOr pass --endpoint directly.");
        return Err(Error::Config(message));
    }
    Ok(None)
}

/// Finds the config file, in the directories from the innermost up to the filesystem root: the
/// position of its directory, and its name.
pub fn discover(dirs: &Vec<Directory>) -> (r: Result<Option<(usize, String)>, Error>)
    ensures
        match config_from(directory_models(dirs@), 0) {
            Ok(Some((at, name))) => r matches Ok(Some(found)) && found.0 == at && found.1@ == name
                && found.0 < dirs@.len(),
            Ok(None) => r matches Ok(None),
            Err(message) => r matches Err(e) && e@ == ErrorModel::Config(message),
        },
{
    let ghost models = directory_models(dirs@);
    for i in 0..dirs.len()
        invariant
            models == directory_models(dirs@),
            config_from(models, 0) == config_from(models, i as int),
    {
        assert(models[i as int] == dirs@[i as int]@);
        match look_in(&dirs[i]) {
            Err(e) => {
                return Err(e);
            },
            Ok(Some(name)) => {
                return Ok(Some((i, name)));
            },
            Ok(None) => {},
        }
    }
    Ok(None)
}

// ---------------------------------------------------------------------------------------
// Reading it
// ---------------------------------------------------------------------------------------
/// How a config file is written.
#[derive(Debug, Clone, Copy, PartialEq, Eq, Structural)]
pub enum Format {
    Toml,
    Json,
    Yaml,
}

/// How a config file is written: its extension says so, and a plain `.graphqlrc` is JSON when it
/// begins like it.
pub open spec fn format_of(path: Seq<char>, text: Seq<char>) -> Format {
    let extension = extension_of_path(path);
    if extension == Some("toml"@) {
        Format::Toml
    } else if extension == Some("json"@) || (name_of_path(path) == Some(".graphqlrc"@) && "{"@
        .is_prefix_of(trimmed_start(text))) {
        Format::Json
    } else {
        Format::Yaml
    }
}

/// Whether an optional text is the given one.
fn is_text(text: &Option<String>, wanted: &str) -> (r: bool)
    ensures
        r == (opt_text(*text) == Some(wanted@)),
{
    match text {
        Some(t) => same(t.as_str(), wanted),
        None => false,
    }
}

/// How a config file is written.
pub fn choose_format(path: &str, text: &str) -> (r: Format)
    ensures
        r == format_of(path@, text@),
{
    let ext = extension(path);
    if is_text(&ext, "toml") {
        Format::Toml
    } else if is_text(&ext, "json") || (is_text(&file_name(path), ".graphqlrc") && starts_with(
        trim_start(text).as_str(),
        "{",
    )) {
        Format::Json
    } else {
        Format::Yaml
    }
}

/// The position of the first entry with a key, from position `i` on.
pub open spec fn entry_slot<V>(entries: Seq<(String, V)>, key: Seq<char>, i: int) -> Option<int>
    decreases entries.len() - i,
{
    if i < 0 || i >= entries.len() {
        None
    } else if entries[i].0@ == key {
        Some(i)
    } else {
        entry_slot(entries, key, i + 1)
    }
}

/// The position of the first entry with a key.
fn find_entry<V>(entries: &Vec<(String, V)>, key: &str) -> (r: Option<usize>)
    ensures
        match r {
            Some(i) => entry_slot(entries@, key@, 0) == Some(i as int) && i < entries@.len(),
            None => entry_slot(entries@, key@, 0) is None,
        },
{
    for i in 0..entries.len()
        invariant
            entry_slot(entries@, key@, 0) == entry_slot(entries@, key@, i as int),
    {
        if same(entries[i].0.as_str(), key) {
            return Some(i);
        }
    }
    None
}

/// The project whose configuration counts: the only one, else the one named `default`.
pub open spec fn chosen_project(projects: Seq<(String, GraphqlConfig)>) -> Option<int> {
    if projects.len() == 1 {
        Some(0)
    } else {
        entry_slot(projects, "default"@, 0)
    }
}

/// A single project (or one named `default`) is accepted; several are not.
pub fn flatten_projects(cfg: GraphqlConfig, path: &str) -> (r: Result<GraphqlConfig, Error>)
    ensures
        match cfg.projects {
            None => r == Ok::<GraphqlConfig, Error>(cfg),
            Some(projects) => match chosen_project(projects@) {
                Some(i) => r == Ok::<GraphqlConfig, Error>(projects@[i].1),
                None => r matches Err(e) && e@ == ErrorModel::Config(
                    path@ + ": multi-project configs are not supported yet ("@ + decimal(
                        projects@.len(),
                    ) + " projects). Pass --endpoint, or keep a single project."@,
                ),
            },
        },
{
    let mut projects = match cfg.projects {
        None => {
            return Ok(cfg);
        },
        Some(projects) => projects,
    };
    if projects.len() == 1 {
        return Ok(projects.swap_remove(0).1);
    }
    if let Some(i) = find_entry(&projects, "default") {
        return Ok(projects.swap_remove(i).1);
    }
    let mut message = path.to_owned();
    message.append(": multi-project configs are not supported yet (");
    message.append(write_decimal(projects.len() as u64).as_str());
    message.append(" projects). Pass --endpoint, or keep a single project.");
    Err(Error::Config(message))
}

/// An address, and the headers to send there.
pub type Target = (Seq<char>, Seq<(Seq<char>, Seq<char>)>);

/// Whether a text is a URL.
pub open spec fn is_url_text(s: Seq<char>) -> bool {
    "http://"@.is_prefix_of(s) || "https://"@.is_prefix_of(s)
}

/// Whether a text is a URL.
pub fn is_url(s: &str) -> (r: bool)
    ensures
        r == is_url_text(s@),
{
    starts_with(s, "http://") || starts_with(s, "https://")
}

/// The endpoint that a schema names: the first URL in it.
pub open spec fn schema_target(schema: Schema) -> Option<Target>
    decreases schema, 0int,
{
    match schema {
        Schema::Url(url) => if is_url_text(url@) {
            Some((url@, seq![]))
        } else {
            None
        },
        Schema::List(list) => list_target(list@, 0),
        Schema::WithHeaders(entries) => entries_target(entries@, 0),
    }
}

/// The endpoint that the schemas of a list name, from schema `i` on.
pub open spec fn list_target(list: Seq<Schema>, i: int) -> Option<Target>
    decreases list, list.len() - i,
{
    if i < 0 || i >= list.len() {
        None
    } else {
        match schema_target(list[i]) {
            Some(target) => Some(target),
            None => list_target(list, i + 1),
        }
    }
}

/// The first URL among schemas with headers, from entry `i` on.
pub open spec fn entries_target(entries: Seq<(String, SchemaOptions)>, i: int) -> Option<Target>
    decreases entries.len() - i,
{
    if i < 0 || i >= entries.len() {
        None
    } else if is_url_text(entries[i].0@) {
        Some((entries[i].0@, header_models(entries[i].1.headers@)))
    } else {
        entries_target(entries, i + 1)
    }
}

/// The same headers again.
fn copy_headers(headers: &Vec<(String, String)>) -> (r: Vec<(String, String)>)
    ensures
        header_models(r@) == header_models(headers@),
{
    let mut r: Vec<(String, String)> = Vec::new();
    for i in 0..headers.len()
        invariant
            r@.len() == i,
            forall|j: int|
                0 <= j < i ==> (#[trigger] r@[j]).0@ == headers@[j].0@ && r@[j].1@
                    == headers@[j].1@,
    {
        r.push((headers[i].0.clone(), headers[i].1.clone()));
    }
    assert(header_models(r@) =~= header_models(headers@));
    r
}

/// What an optional address with headers stands for.
pub open spec fn target_model(t: Option<(String, Vec<(String, String)>)>) -> Option<Target> {
    match t {
        Some((url, headers)) => Some((url@, header_models(headers@))),
        None => None,
    }
}

/// The endpoint that a schema names.
pub fn schema_url(schema: &Schema) -> (r: Option<(String, Vec<(String, String)>)>)
    ensures
        target_model(r) == schema_target(*schema),
    decreases schema,
{
    match schema {
        Schema::Url(url) => if is_url(url.as_str()) {
            let headers: Vec<(String, String)> = Vec::new();
            assert(header_models(headers@) =~= seq![]);
            Some((url.clone(), headers))
        } else {
            None
        },
        Schema::List(list) => {
            for i in 0..list.len()
                invariant
                    *schema == Schema::List(*list),
                    list_target(list@, 0) == list_target(list@, i as int),
            {
                assert(decreases_to!(schema => (*schema)->List_0));
                assert(decreases_to!(list => list@));
                assert(decreases_to!(list@ => list@[i as int]));
                assert(decreases_to!(schema => list@[i as int]));
                let found = schema_url(&list[i]);
                if found.is_some() {
                    return found;
                }
            }
            None
        },
        Schema::WithHeaders(entries) => {
            for i in 0..entries.len()
                invariant
                    *schema == Schema::WithHeaders(*entries),
                    entries_target(entries@, 0) == entries_target(entries@, i as int),
            {
                if is_url(entries[i].0.as_str()) {
                    return Some((entries[i].0.clone(), copy_headers(&entries[i].1.headers)));
                }
            }
            None
        },
    }
}

/// The endpoint among those of the extensions that counts: `default`, else the first.
pub open spec fn chosen_endpoint(endpoints: Seq<(String, Endpoint)>) -> Option<int> {
    match entry_slot(endpoints, "default"@, 0) {
        Some(i) => Some(i),
        None => if endpoints.len() > 0 {
            Some(0)
        } else {
            None
        },
    }
}

/// The address and the headers of an endpoint.
pub open spec fn endpoint_target(endpoint: Endpoint) -> Target {
    match endpoint {
        Endpoint::Url(url) => (url@, seq![]),
        Endpoint::Full { url, headers } => (url@, header_models(headers@)),
    }
}

/// The endpoint that a configuration names. Those of the extensions win over the schema,
/// matching vscode-graphql-execution.
pub open spec fn config_target(cfg: GraphqlConfig) -> Option<Target> {
    match chosen_endpoint(cfg.extensions.endpoints@) {
        Some(i) => Some(endpoint_target(cfg.extensions.endpoints@[i].1)),
        None => match cfg.schema {
            Some(schema) => schema_target(schema),
            None => None,
        },
    }
}

/// The documents that a configuration names: the first ones, where there are several.
pub open spec fn config_documents(cfg: GraphqlConfig) -> Option<Seq<char>> {
    match cfg.documents {
        Some(Documents::One(one)) => Some(one@),
        Some(Documents::Many(many)) => if many@.len() > 0 {
            Some(many@[0]@)
        } else {
            None
        },
        None => None,
    }
}

/// The address and the headers of an endpoint.
fn read_endpoint(endpoint: &Endpoint) -> (r: (String, Vec<(String, String)>))
    ensures
        (r.0@, header_models(r.1@)) == endpoint_target(*endpoint),
{
    match endpoint {
        Endpoint::Url(url) => {
            let headers: Vec<(String, String)> = Vec::new();
            assert(header_models(headers@) =~= seq![]);
            (url.clone(), headers)
        },
        Endpoint::Full { url, headers } => (url.clone(), copy_headers(headers)),
    }
}

/// What the CLI needs out of a configuration.
pub fn resolve(cfg: GraphqlConfig, path: &str) -> (r: Resolved)
    ensures
        match config_target(cfg) {
            Some((url, headers)) => opt_text(r.endpoint) == Some(url) && header_models(r.headers@)
                == headers,
            None => r.endpoint is None && r.headers@.len() == 0,
        },
        opt_text(r.documents) == config_documents(cfg),
        opt_text(r.origin) == Some(path@),
{
    let chosen: Option<usize> = match find_entry(&cfg.extensions.endpoints, "default") {
        Some(i) => Some(i),
        None => if cfg.extensions.endpoints.len() > 0 {
            Some(0)
        } else {
            None
        },
    };
    let target = match chosen {
        Some(i) => Some(read_endpoint(&cfg.extensions.endpoints[i].1)),
        None => match &cfg.schema {
            Some(schema) => schema_url(schema),
            None => None,
        },
    };
    let documents = match &cfg.documents {
        Some(Documents::One(one)) => Some(one.clone()),
        Some(Documents::Many(many)) => if many.len() > 0 {
            Some(many[0].clone())
        } else {
            None
        },
        None => None,
    };
    match target {
        Some((url, headers)) => Resolved {
            endpoint: Some(url),
            headers,
            documents,
            origin: Some(path.to_owned()),
        },
        None => Resolved {
            endpoint: None,
            headers: Vec::new(),
            documents,
            origin: Some(path.to_owned()),
        },
    }
}

// ---------------------------------------------------------------------------------------
// Interpolation
// ---------------------------------------------------------------------------------------
/// The variables of the environment, by name and value.
pub type Environment = Seq<(Seq<char>, Seq<char>)>;

/// The value of a variable, from variable `i` on.
pub open spec fn variable(env: Environment, name: Seq<char>, i: int) -> Option<Seq<char>>
    decreases env.len() - i,
{
    if i < 0 || i >= env.len() {
        None
    } else if env[i].0 == name {
        Some(env[i].1)
    } else {
        variable(env, name, i + 1)
    }
}

/// How many line breaks there are in a text.
pub open spec fn line_breaks(text: Seq<char>) -> nat
    decreases text.len(),
{
    if text.len() == 0 {
        0
    } else if text.last() == '\n' {
        line_breaks(text.drop_last()) + 1
    } else {
        line_breaks(text.drop_last())
    }
}

/// How many lines a text has begun, one at least.
pub open spec fn lines_begun(text: Seq<char>) -> nat {
    if text.len() == 0 {
        1
    } else if text.last() == '\n' {
        line_breaks(text)
    } else {
        line_breaks(text) + 1
    }
}

/// What is said of a variable without a value; the text is what comes before it.
pub open spec fn unset_message(origin: Seq<char>, before: Seq<char>, name: Seq<char>) -> Seq<char> {
    origin + ":"@ + decimal(lines_begun(before)) + ": ${"@ + name
        + "} is not set in the environment.\nSet it, add it to .env / .env.local, or give it a default with ${"@
        + name + ":value}."@
}

/// The name and the default of a `${…}`; the name is what stands before the first colon.
pub open spec fn reference(inner: Seq<char>) -> (Seq<char>, Option<Seq<char>>) {
    let colon = find_from(inner, ':', 0);
    if colon < inner.len() {
        (trimmed(inner.subrange(0, colon)), Some(inner.skip(colon + 1)))
    } else {
        (trimmed(inner), None)
    }
}

/// The value of a `${…}`: what the environment says, else its default.
pub open spec fn reference_value(inner: Seq<char>, env: Environment) -> Option<Seq<char>> {
    let (name, default) = reference(inner);
    match variable(env, name, 0) {
        Some(value) => Some(value),
        None => default,
    }
}

/// Text put before what follows, where nothing is wrong with that.
pub open spec fn prefixed(head: Seq<char>, rest: Result<Seq<char>, Seq<char>>) -> Result<
    Seq<char>,
    Seq<char>,
> {
    match rest {
        Ok(tail) => Ok(head + tail),
        Err(message) => Err(message),
    }
}

/// The text from offset `i` on, with `${VAR}` and `${VAR:default}` replaced and `\$` standing
/// for a `$`; or what is wrong with the first variable that has no value.
pub open spec fn interpolated(text: Seq<char>, origin: Seq<char>, env: Environment, i: int) -> Result<
    Seq<char>,
    Seq<char>,
>
    decreases text.len() - i,
{
    if i < 0 || i >= text.len() {
        Ok(seq![])
    } else if text[i] == '\\' && i + 1 < text.len() && text[i + 1] == '$' {
        prefixed(seq!['$'], interpolated(text, origin, env, i + 2))
    } else if text[i] == '$' && i + 1 < text.len() && text[i + 1] == '{' {
        let close = find_from(text, '}', i + 2);
        if close < i + 2 || close >= text.len() {
            prefixed(seq!['$'], interpolated(text, origin, env, i + 1))
        } else {
            let inner = text.subrange(i + 2, close);
            match reference_value(inner, env) {
                Some(value) => prefixed(value, interpolated(text, origin, env, close + 1)),
                None => Err(unset_message(origin, text.take(i), reference(inner).0)),
            }
        }
    } else {
        prefixed(seq![text[i]], interpolated(text, origin, env, i + 1))
    }
}

/// The value of a variable.
fn find_variable(env: &Vec<(String, String)>, name: &str) -> (r: Option<String>)
    ensures
        opt_text(r) == variable(header_models(env@), name@, 0),
{
    let ghost models = header_models(env@);
    for i in 0..env.len()
        invariant
            models == header_models(env@),
            variable(models, name@, 0) == variable(models, name@, i as int),
    {
        assert(models[i as int] == (env@[i as int].0@, env@[i as int].1@));
        if same(env[i].0.as_str(), name) {
            return Some(env[i].1.clone());
        }
    }
    None
}

/// How many lines the first `n` characters of a text have begun.
fn count_lines(chars: &Vec<char>, n: usize) -> (r: u64)
    requires
        n < chars@.len(),
    ensures
        r == lines_begun(chars@.take(n as int)),
{
    let mut breaks: u64 = 0;
    let count = chars.len();
    assert(chars@.take(0) =~= seq![]);
    for i in 0..n
        invariant
            n < count,
            count == chars@.len(),
            breaks <= i,
            breaks == line_breaks(chars@.take(i as int)),
    {
        assert(chars@.take(i + 1).drop_last() =~= chars@.take(i as int));
        assert(chars@.take(i + 1).last() == chars@[i as int]);
        if chars[i] == '\n' {
            breaks = breaks + 1;
        }
    }
    if n == 0 {
        1
    } else if chars[n - 1] == '\n' {
        breaks
    } else {
        breaks + 1
    }
}

/// The name and the default of a `${…}`.
fn read_reference(inner: &str) -> (r: (String, Option<String>))
    ensures
        (r.0@, opt_text(r.1)) == reference(inner@),
{
    let chars = chars_of(inner);
    let colon = find_char(&chars, ':', 0);
    if colon < chars.len() {
        let name = text_of(&chars, 0, colon);
        let default = text_of(&chars, colon + 1, chars.len());
        assert(default@ =~= inner@.skip(colon + 1));
        (trim(name.as_str()), Some(default))
    } else {
        (trim(inner), None)
    }
}

/// `${VAR}`, `${VAR:default}`, `\$` — the graphql-config syntax, applied to raw text.
///
/// A missing variable is an error naming it: substituting an empty string would produce
/// `Authorization: Bearer ` and an unreadable 401.
pub fn interpolate(text: &str, origin: &str, env: &Vec<(String, String)>) -> (r: Result<
    String,
    Error,
>)
    ensures
        match interpolated(text@, origin@, header_models(env@), 0) {
            Ok(out) => r matches Ok(s) && s@ == out,
            Err(message) => r matches Err(e) && e@ == ErrorModel::Config(message),
        },
{
    let ghost vars = header_models(env@);
    let chars = chars_of(text);
    let mut out = String::new();
    let mut i: usize = 0;
    proof {
        if let Ok(tail) = interpolated(text@, origin@, vars, 0) {
            assert(out@ + tail =~= tail);
        }
    }
    while i < chars.len()
        invariant
            i <= chars@.len(),
            chars@ == text@,
            vars == header_models(env@),
            interpolated(text@, origin@, vars, 0) == prefixed(
                out@,
                interpolated(text@, origin@, vars, i as int),
            ),
        decreases chars@.len() - i,
    {
        let ghost done = out@;
        let ghost at = i as int;
        if chars[i] == '\\' && chars.len() - i > 1 && chars[i + 1] == '$' {
            out.push('$');
            i = i + 2;
            proof {
                lemma_prefixed(done, seq!['$'], interpolated(text@, origin@, vars, i as int));
                assert(out@ =~= done + seq!['$']);
            }
        } else if chars[i] == '$' && chars.len() - i > 1 && chars[i + 1] == '{' {
            let close = find_char(&chars, '}', i + 2);
            if close >= chars.len() {
                out.push('$');
                i = i + 1;
                proof {
                    lemma_prefixed(done, seq!['$'], interpolated(text@, origin@, vars, i as int));
                    assert(out@ =~= done + seq!['$']);
                }
            } else {
                let inner = text_of(&chars, i + 2, close);
                let (name, default) = read_reference(inner.as_str());
                let value = match find_variable(env, name.as_str()) {
                    Some(value) => Some(value),
                    None => default,
                };
                match value {
                    Some(value) => {
                        out.append(value.as_str());
                        i = close + 1;
                        proof {
                            lemma_prefixed(
                                done,
                                value@,
                                interpolated(text@, origin@, vars, i as int),
                            );
                        }
                    },
                    None => {
                        let mut message = origin.to_owned();
                        message.append(":");
                        message.append(write_decimal(count_lines(&chars, i)).as_str());
                        message.append(": ${");
                        message.append(name.as_str());
                        message.append(
                            "} is not set in the environment.\nSet it, add it to .env / .env.local, or give it a default with ${",
                        );
                        message.append(name.as_str());
                        message.append(":value}.");
                        return Err(Error::Config(message));
                    },
                }
            }
        } else {
            out.push(chars[i]);
            i = i + 1;
            proof {
                lemma_prefixed(
                    done,
                    seq![text@[at]],
                    interpolated(text@, origin@, vars, i as int),
                );
                assert(out@ =~= done + seq![text@[at]]);
            }
        }
    }
    assert(out@ + Seq::<char>::empty() =~= out@);
    Ok(out)
}

/// Putting one text before another before what follows.
proof fn lemma_prefixed(a: Seq<char>, b: Seq<char>, rest: Result<Seq<char>, Seq<char>>)
    ensures
        prefixed(a, prefixed(b, rest)) == prefixed(a + b, rest),
{
    if let Ok(tail) = rest {
        assert(a + (b + tail) =~= (a + b) + tail);
    }
}

/// A text without a `$` stays as it is, whatever the environment.
pub proof fn law_plain_text_stays(text: Seq<char>, origin: Seq<char>, env: Environment, i: int)
    requires
        0 <= i <= text.len(),
        forall|k: int| 0 <= k < text.len() ==> #[trigger] text[k] != '$',
    ensures
        interpolated(text, origin, env, i) == Ok::<_, Seq<char>>(text.skip(i)),
    decreases text.len() - i,
{
    if i < text.len() {
        law_plain_text_stays(text, origin, env, i + 1);
        assert(seq![text[i]] + text.skip(i + 1) =~= text.skip(i));
    } else {
        assert(text.skip(i) =~= seq![]);
    }
}

/// Once every variable that a text refers to has a value or a default, nothing is missing: an
/// error always names a variable that the environment does not have.
pub proof fn law_error_names_an_unset_variable(
    text: Seq<char>,
    origin: Seq<char>,
    env: Environment,
    i: int,
)
    requires
        0 <= i <= text.len(),
    ensures
        interpolated(text, origin, env, i) matches Err(message) ==> exists|k: int, name: Seq<char>|
            0 <= k < text.len() && variable(env, name, 0) is None && message
                == #[trigger] unset_message(origin, text.take(k), name),
    decreases text.len() - i,
{
    if i < text.len() {
        if text[i] == '\\' && i + 1 < text.len() && text[i + 1] == '$' {
            law_error_names_an_unset_variable(text, origin, env, i + 2);
        } else if text[i] == '$' && i + 1 < text.len() && text[i + 1] == '{' {
            let close = find_from(text, '}', i + 2);
            if close < i + 2 || close >= text.len() {
                law_error_names_an_unset_variable(text, origin, env, i + 1);
            } else {
                law_error_names_an_unset_variable(text, origin, env, close + 1);
            }
        } else {
            law_error_names_an_unset_variable(text, origin, env, i + 1);
        }
    }
}

// ---------------------------------------------------------------------------------------
// Laws
// ---------------------------------------------------------------------------------------
/// Whether headers are those that are written, names and values in their order.
pub open spec fn are_written(
    headers: Seq<(Seq<char>, Seq<char>)>,
    written: Seq<(String, String)>,
) -> bool {
    &&& headers.len() == written.len()
    &&& forall|k: int|
        0 <= k < written.len() ==> (#[trigger] headers[k]).0 == written[k].0@ && headers[k].1
            == written[k].1@
}

/// The endpoint that counts is the one named `default`, else the first one. Its address is the
/// one that is written, and so are its headers; one written as an address alone has none. The
/// schema does not matter then.
pub proof fn law_endpoint_that_counts(cfg: GraphqlConfig, i: int)
    requires
        0 <= i < cfg.extensions.endpoints@.len(),
        ({
            let endpoints = cfg.extensions.endpoints@;
            ||| endpoints[i].0@ == "default"@ && forall|k: int|
                0 <= k < i ==> (#[trigger] endpoints[k]).0@ != "default"@
            ||| i == 0 && forall|k: int|
                0 <= k < endpoints.len() ==> (#[trigger] endpoints[k]).0@ != "default"@
        }),
    ensures
        config_target(cfg) matches Some((url, headers)) && match cfg.extensions.endpoints@[i].1 {
            Endpoint::Url(address) => url == address@ && headers.len() == 0,
            Endpoint::Full { url: address, headers: written } => url == address@ && are_written(
                headers,
                written@,
            ),
        },
{
    lemma_entry_slot(cfg.extensions.endpoints@, "default"@, 0);
}

/// Looking for a key finds the first entry that has it.
proof fn lemma_entry_slot<V>(entries: Seq<(String, V)>, key: Seq<char>, from: int)
    requires
        0 <= from <= entries.len(),
    ensures
        match entry_slot(entries, key, from) {
            Some(i) => {
                &&& from <= i < entries.len()
                &&& entries[i].0@ == key
                &&& forall|k: int| from <= k < i ==> (#[trigger] entries[k]).0@ != key
            },
            None => forall|k: int| from <= k < entries.len() ==> (#[trigger] entries[k]).0@ != key,
        },
    decreases entries.len() - from,
{
    if from < entries.len() && entries[from].0@ != key {
        lemma_entry_slot(entries, key, from + 1);
    }
}

/// Without endpoints, the schema says where to send requests; without either, nothing does.
pub proof fn law_schema_counts_without_endpoints(cfg: GraphqlConfig)
    requires
        cfg.extensions.endpoints@.len() == 0,
    ensures
        match cfg.schema {
            Some(schema) => config_target(cfg) == schema_target(schema),
            None => config_target(cfg) is None,
        },
{
    lemma_entry_slot(cfg.extensions.endpoints@, "default"@, 0);
}

/// A schema that is one text is an endpoint when it is an address on the web; it has no headers.
pub proof fn law_schema_is_an_address(url: String)
    ensures
        match schema_target(Schema::Url(url)) {
            Some((address, headers)) => address == url@ && headers.len() == 0 && is_url_text(url@),
            None => !is_url_text(url@),
        },
{
}

/// Of a list of schemas, the first that names an endpoint counts.
pub proof fn law_first_schema_counts(list: Vec<Schema>, i: int)
    requires
        0 <= i < list@.len(),
        schema_target(list@[i]) is Some,
        forall|k: int| 0 <= k < i ==> schema_target(#[trigger] list@[k]) is None,
    ensures
        schema_target(Schema::List(list)) == schema_target(list@[i]),
{
    lemma_list_target(list@, i, 0);
    assert(schema_target(Schema::List(list)) == list_target(list@, 0));
}

proof fn lemma_list_target(list: Seq<Schema>, i: int, from: int)
    requires
        0 <= from <= i < list.len(),
        schema_target(list[i]) is Some,
        forall|k: int| 0 <= k < i ==> schema_target(#[trigger] list[k]) is None,
    ensures
        list_target(list, from) == schema_target(list[i]),
    decreases i - from,
{
    if from < i {
        assert(schema_target(list[from]) is None);
        lemma_list_target(list, i, from + 1);
    }
}

/// Schemas none of which names an endpoint name none together.
pub proof fn law_no_schema_counts(list: Vec<Schema>)
    requires
        forall|k: int| 0 <= k < list@.len() ==> schema_target(#[trigger] list@[k]) is None,
    ensures
        schema_target(Schema::List(list)) is None,
{
    lemma_no_list_target(list@, 0);
    assert(schema_target(Schema::List(list)) == list_target(list@, 0));
}

proof fn lemma_no_list_target(list: Seq<Schema>, from: int)
    requires
        0 <= from <= list.len(),
        forall|k: int| 0 <= k < list.len() ==> schema_target(#[trigger] list[k]) is None,
    ensures
        list_target(list, from) is None,
    decreases list.len() - from,
{
    if from < list.len() {
        assert(schema_target(list[from]) is None);
        lemma_no_list_target(list, from + 1);
    }
}

/// Of schemas with headers, the first whose key is an address counts, with the headers written
/// for it; there is no endpoint if and only if no key is an address.
pub proof fn law_first_address_counts(entries: Vec<(String, SchemaOptions)>)
    ensures
        match schema_target(Schema::WithHeaders(entries)) {
            Some((url, headers)) => exists|i: int|
                {
                    &&& 0 <= i < entries@.len()
                    &&& (#[trigger] entries@[i]).0@ == url
                    &&& is_url_text(url)
                    &&& are_written(headers, entries@[i].1.headers@)
                    &&& forall|k: int| 0 <= k < i ==> !is_url_text((#[trigger] entries@[k]).0@)
                },
            None => forall|k: int|
                0 <= k < entries@.len() ==> !is_url_text((#[trigger] entries@[k]).0@),
        },
{
    lemma_entries_target(entries@, 0);
    assert(schema_target(Schema::WithHeaders(entries)) == entries_target(entries@, 0));
}

proof fn lemma_entries_target(entries: Seq<(String, SchemaOptions)>, from: int)
    requires
        0 <= from <= entries.len(),
        forall|k: int| 0 <= k < from ==> !is_url_text((#[trigger] entries[k]).0@),
    ensures
        match entries_target(entries, from) {
            Some((url, headers)) => exists|i: int|
                {
                    &&& 0 <= i < entries.len()
                    &&& (#[trigger] entries[i]).0@ == url
                    &&& is_url_text(url)
                    &&& are_written(headers, entries[i].1.headers@)
                    &&& forall|k: int| 0 <= k < i ==> !is_url_text((#[trigger] entries[k]).0@)
                },
            None => forall|k: int|
                0 <= k < entries.len() ==> !is_url_text((#[trigger] entries[k]).0@),
        },
    decreases entries.len() - from,
{
    if from < entries.len() {
        if is_url_text(entries[from].0@) {
            let (url, headers) = entries_target(entries, from)->0;
            assert(entries[from].0@ == url);
            assert(are_written(headers, entries[from].1.headers@));
        } else {
            lemma_entries_target(entries, from + 1);
        }
    }
}

/// An address on the web is what begins with `http://` or `https://`.
pub proof fn law_addresses(rest: Seq<char>, s: Seq<char>)
    ensures
        is_url_text(seq!['h', 't', 't', 'p', ':', '/', '/'] + rest),
        is_url_text(seq!['h', 't', 't', 'p', 's', ':', '/', '/'] + rest),
        is_url_text(s) ==> s.len() >= 7 && s[0] == 'h' && s[1] == 't' && s[2] == 't' && s[3] == 'p'
            && (s[4] == ':' && s[5] == '/' && s[6] == '/' || s.len() >= 8 && s[4] == 's' && s[5]
            == ':' && s[6] == '/' && s[7] == '/'),
{
    reveal_strlit("http://");
    reveal_strlit("https://");
    let plain = seq!['h', 't', 't', 'p', ':', '/', '/'] + rest;
    let secure = seq!['h', 't', 't', 'p', 's', ':', '/', '/'] + rest;
    assert("http://"@ =~= plain.subrange(0, 7));
    assert("https://"@ =~= secure.subrange(0, 8));
    if is_url_text(s) {
        if "http://"@.is_prefix_of(s) {
            let head = s.subrange(0, 7);
            assert(head == "http://"@);
            assert(head[0] == s[0] && head[1] == s[1] && head[2] == s[2] && head[3] == s[3]);
            assert(head[4] == s[4] && head[5] == s[5] && head[6] == s[6]);
        } else {
            let head = s.subrange(0, 8);
            assert(head == "https://"@);
            assert(head[0] == s[0] && head[1] == s[1] && head[2] == s[2] && head[3] == s[3]);
            assert(head[4] == s[4] && head[5] == s[5] && head[6] == s[6] && head[7] == s[7]);
        }
    }
}

/// The documents are the text that is written, or the first one of several.
pub proof fn law_documents(cfg: GraphqlConfig)
    ensures
        match cfg.documents {
            None => config_documents(cfg) is None,
            Some(Documents::One(one)) => config_documents(cfg) == Some(one@),
            Some(Documents::Many(many)) => match config_documents(cfg) {
                Some(text) => many@.len() > 0 && text == many@[0]@,
                None => many@.len() == 0,
            },
        },
{
}

/// Of several projects the one named `default` counts, and a single one counts whatever its name.
pub proof fn law_project_that_counts(projects: Seq<(String, GraphqlConfig)>)
    ensures
        match chosen_project(projects) {
            Some(i) => {
                &&& 0 <= i < projects.len()
                &&& projects.len() == 1 || projects[i].0@ == "default"@ && forall|k: int|
                    0 <= k < i ==> (#[trigger] projects[k]).0@ != "default"@
            },
            None => projects.len() != 1 && forall|k: int|
                0 <= k < projects.len() ==> (#[trigger] projects[k]).0@ != "default"@,
        },
{
    lemma_entry_slot(projects, "default"@, 0);
}

/// Whether a directory has a file that could be a configuration, one that can be used or not.
pub open spec fn is_bare_directory(dir: DirectoryModel) -> bool {
    forall|name: Seq<char>|
        #[trigger] dir.files.contains(name) ==> !search_place_texts().contains(name)
            && !unsupported_place_texts().contains(name)
}

/// The configuration is the one in the innermost directory that has any: all directories below
/// it have none, it is the only one there, and it is one of the names that are looked for.
pub proof fn law_config_is_the_innermost(dirs: Seq<DirectoryModel>)
    ensures
        match config_from(dirs, 0) {
            Ok(Some((at, name))) => {
                &&& 0 <= at < dirs.len()
                &&& dirs[at].files.contains(name)
                &&& search_place_texts().contains(name)
                &&& forall|other: Seq<char>|
                    search_place_texts().contains(other) && #[trigger] dirs[at].files.contains(
                        other,
                    ) ==> other == name
                &&& forall|k: int| 0 <= k < at ==> is_bare_directory(#[trigger] dirs[k])
            },
            Ok(None) => forall|k: int| 0 <= k < dirs.len() ==> is_bare_directory(#[trigger] dirs[k]),
            Err(_) => exists|at: int|
                {
                    &&& 0 <= at < dirs.len()
                    &&& !is_bare_directory(#[trigger] dirs[at])
                    &&& forall|k: int| 0 <= k < at ==> is_bare_directory(#[trigger] dirs[k])
                },
        },
{
    lemma_config_from(dirs, 0);
}

proof fn lemma_config_from(dirs: Seq<DirectoryModel>, from: int)
    requires
        0 <= from <= dirs.len(),
        forall|k: int| 0 <= k < from ==> is_bare_directory(#[trigger] dirs[k]),
    ensures
        match config_from(dirs, from) {
            Ok(Some((at, name))) => {
                &&& 0 <= at < dirs.len()
                &&& dirs[at].files.contains(name)
                &&& search_place_texts().contains(name)
                &&& forall|other: Seq<char>|
                    search_place_texts().contains(other) && #[trigger] dirs[at].files.contains(
                        other,
                    ) ==> other == name
                &&& forall|k: int| 0 <= k < at ==> is_bare_directory(#[trigger] dirs[k])
            },
            Ok(None) => forall|k: int| 0 <= k < dirs.len() ==> is_bare_directory(#[trigger] dirs[k]),
            Err(_) => exists|at: int|
                {
                    &&& 0 <= at < dirs.len()
                    &&& !is_bare_directory(#[trigger] dirs[at])
                    &&& forall|k: int| 0 <= k < at ==> is_bare_directory(#[trigger] dirs[k])
                },
        },
    decreases dirs.len() - from,
{
    if from < dirs.len() {
        let dir = dirs[from];
        let places = search_place_texts();
        let others = unsupported_place_texts();
        let found = present(places, dir.files, places.len() as int);
        let unsupported = present(others, dir.files, others.len() as int);
        lemma_present(places, dir.files, places.len() as int);
        lemma_present(others, dir.files, others.len() as int);
        if found.len() > 0 {
            assert(found.contains(found[0]));
            assert(!is_bare_directory(dir));
            if found.len() == 1 {
                assert forall|other: Seq<char>|
                    places.contains(other) && #[trigger] dir.files.contains(other) implies other
                    == found[0] by {
                    let k = choose|k: int| 0 <= k < places.len() && places[k] == other;
                    assert(found.contains(places[k]));
                }
            }
        } else if unsupported.len() > 0 {
            assert(unsupported.contains(unsupported[0]));
            assert(!is_bare_directory(dir));
        } else {
            assert(is_bare_directory(dir)) by {
                assert forall|name: Seq<char>| #[trigger] dir.files.contains(
                    name,
                ) implies !places.contains(name) && !others.contains(name) by {
                    if places.contains(name) {
                        let k = choose|k: int| 0 <= k < places.len() && places[k] == name;
                        assert(found.contains(places[k]));
                    }
                    if others.contains(name) {
                        let k = choose|k: int| 0 <= k < others.len() && others[k] == name;
                        assert(unsupported.contains(others[k]));
                    }
                }
            }
            lemma_config_from(dirs, from + 1);
        }
    }
}

/// A directory with one configuration that can be used is no mistake, whatever else is in it; one
/// with two is, and so is one with none that can be used but another.
pub proof fn law_one_config_is_enough(dir: DirectoryModel, i: int, j: int)
    requires
        0 <= i < search_place_texts().len(),
        dir.files.contains(search_place_texts()[i]),
    ensures
        (forall|k: int|
            0 <= k < search_place_texts().len() && k != i ==> !dir.files.contains(
                #[trigger] search_place_texts()[k],
            )) ==> config_in(dir) == Ok::<_, Seq<char>>(Some(search_place_texts()[i])),
        0 <= j < search_place_texts().len() && j != i && dir.files.contains(
            search_place_texts()[j],
        ) ==> config_in(dir) is Err,
{
    let places = search_place_texts();
    lemma_places_differ();
    let n = places.len() as int;
    let found = present(places, dir.files, n);
    lemma_present(places, dir.files, n);
    assert(found.contains(places[i]));
    if forall|k: int| 0 <= k < n && k != i ==> !dir.files.contains(#[trigger] places[k]) {
        lemma_present_alone(places, dir.files, n, i);
    }
    if 0 <= j < n && j != i && dir.files.contains(places[j]) {
        assert(found.contains(places[j]));
        let a = choose|a: int| 0 <= a < found.len() && found[a] == places[i];
        let b = choose|b: int| 0 <= b < found.len() && found[b] == places[j];
        assert(a != b);
    }
}

proof fn lemma_present_alone(names: Seq<Seq<char>>, files: Seq<Seq<char>>, k: int, i: int)
    requires
        0 <= i < names.len(),
        0 <= k <= names.len(),
        files.contains(names[i]),
        forall|m: int| 0 <= m < names.len() && m != i ==> !files.contains(#[trigger] names[m]),
    ensures
        present(names, files, k) == if i < k {
            seq![names[i]]
        } else {
            seq![]
        },
    decreases k,
{
    if k > 0 {
        lemma_present_alone(names, files, k - 1, i);
        if k - 1 == i {
            assert(present(names, files, k) =~= seq![names[i]]);
        }
    }
}

/// What is present is what is among the files.
proof fn lemma_present(names: Seq<Seq<char>>, files: Seq<Seq<char>>, k: int)
    requires
        0 <= k <= names.len(),
    ensures
        forall|i: int|
            0 <= i < k && files.contains(names[i]) ==> present(names, files, k).contains(
                #[trigger] names[i],
            ),
        forall|name: Seq<char>| #[trigger]
            present(names, files, k).contains(name) ==> files.contains(name) && names.contains(name),
    decreases k,
{
    if k > 0 {
        lemma_present(names, files, k - 1);
        let earlier = present(names, files, k - 1);
        let all = present(names, files, k);
        assert forall|i: int| 0 <= i < k && files.contains(names[i]) implies all.contains(
            #[trigger] names[i],
        ) by {
            if i < k - 1 {
                assert(earlier.contains(names[i]));
                let m = choose|m: int| 0 <= m < earlier.len() && earlier[m] == names[i];
                assert(all[m] == names[i]);
            } else {
                assert(all[earlier.len() as int] == names[i]);
            }
        }
        assert forall|name: Seq<char>| #[trigger] all.contains(name) implies files.contains(name)
            && names.contains(name) by {
            let m = choose|m: int| 0 <= m < all.len() && all[m] == name;
            if m < earlier.len() {
                assert(earlier.contains(earlier[m]));
            } else {
                assert(names[k - 1] == name);
            }
        }
    }
}

/// No place is looked in twice.
proof fn lemma_places_differ()
    ensures
        search_place_texts().no_duplicates(),
{
    reveal_strlit("graphql.config.toml");
    reveal_strlit("graphql.config.yaml");
    reveal_strlit("graphql.config.yml");
    reveal_strlit("graphql.config.json");
    reveal_strlit(".graphqlrc.toml");
    reveal_strlit(".graphqlrc.yaml");
    reveal_strlit(".graphqlrc.yml");
    reveal_strlit(".graphqlrc.json");
    reveal_strlit(".graphqlrc");
    let p = search_place_texts();
    assert(p[0][15] == 't' && p[1][15] == 'y' && p[2][15] == 'y' && p[3][15] == 'j');
    assert(p[0].len() == 19 && p[1].len() == 19 && p[2].len() == 18 && p[3].len() == 19);
    assert(p[4][11] == 't' && p[5][11] == 'y' && p[6][11] == 'y' && p[7][11] == 'j');
    assert(p[4].len() == 15 && p[5].len() == 15 && p[6].len() == 14 && p[7].len() == 15);
    assert(p[8].len() == 10);
}

/// The extension says how a configuration is written: `toml`, `json`, and anything else is YAML.
pub proof fn law_format_follows_the_extension(
    dir: Seq<char>,
    stem: Seq<char>,
    extension: Seq<char>,
    text: Seq<char>,
)
    requires
        is_directory_part(dir),
        stem.len() > 0,
        is_single(stem),
        extension.len() > 0,
        is_single(extension),
        forall|k: int| 0 <= k < extension.len() ==> #[trigger] extension[k] != '.',
        stem + seq!['.'] + extension != ".graphqlrc"@,
    ensures
        format_of(dir + stem + seq!['.'] + extension, text) == if extension == "toml"@ {
            Format::Toml
        } else if extension == "json"@ {
            Format::Json
        } else {
            Format::Yaml
        },
{
    law_name_and_extension(dir, stem, extension, extension);
}

/// A configuration without an extension is JSON when it begins with a brace, after white space;
/// else it is YAML.
pub proof fn law_plain_config_is_json_or_yaml(dir: Seq<char>, blank: Seq<char>, rest: Seq<char>)
    requires
        is_directory_part(dir),
        forall|k: int| 0 <= k < blank.len() ==> is_white(#[trigger] blank[k]),
        rest.len() > 0 ==> !is_white(rest[0]),
    ensures
        format_of(dir + ".graphqlrc"@, blank + rest) == if rest.len() > 0 && rest[0] == '{' {
            Format::Json
        } else {
            Format::Yaml
        },
{
    reveal_strlit(".graphqlrc");
    reveal_strlit("toml");
    reveal_strlit("json");
    reveal_strlit("{");
    let name = ".graphqlrc"@;
    assert(name.len() == 10);
    law_name_without_extension(dir, name, seq![]);
    let from = lemma_trimmed_start(blank + rest);
    if from < blank.len() {
        assert((blank + rest)[from] == blank[from]);
    }
    if from > blank.len() {
        assert((blank + rest)[blank.len() as int] == rest[0]);
    }
    assert((blank + rest).subrange(from, (blank + rest).len() as int) =~= rest);
    if rest.len() > 0 && rest[0] == '{' {
        assert("{"@ =~= rest.subrange(0, 1));
    } else if "{"@.is_prefix_of(rest) {
        assert(rest.subrange(0, 1)[0] == "{"@[0]);
    }
}

/// What a `${…}` stands for: the value of the variable where it is set, be it empty; else what
/// stands behind the first colon, if there is one.
pub proof fn law_reference_has_a_value(name: Seq<char>, default: Seq<char>, env: Environment)
    requires
        forall|k: int| 0 <= k < name.len() ==> #[trigger] name[k] != ':',
    ensures
        reference_value(name, env) == variable(env, trimmed(name), 0),
        reference_value(name + seq![':'] + default, env) == match variable(env, trimmed(name), 0) {
            Some(value) => Some(value),
            None => Some(default),
        },
{
    law_first_is_found(name, ':', 0);
    let inner = name + seq![':'] + default;
    let colon = find_from(inner, ':', 0);
    law_first_is_found(inner, ':', 0);
    assert(inner[name.len() as int] == ':');
    if colon < name.len() {
        assert(inner[colon] == name[colon]);
    }
    assert(colon == name.len());
    assert(inner.subrange(0, colon) =~= name);
    assert(inner.skip(colon + 1) =~= default);
}

/// The first setting of a variable counts; one that is never set has no value.
pub proof fn law_variables(env: Environment, name: Seq<char>, from: int)
    requires
        0 <= from <= env.len(),
    ensures
        match variable(env, name, from) {
            Some(value) => exists|i: int|
                {
                    &&& from <= i < env.len()
                    &&& (#[trigger] env[i]).0 == name
                    &&& env[i].1 == value
                    &&& forall|k: int| from <= k < i ==> (#[trigger] env[k]).0 != name
                },
            None => forall|k: int| from <= k < env.len() ==> (#[trigger] env[k]).0 != name,
        },
    decreases env.len() - from,
{
    if from < env.len() {
        if env[from].0 == name {
            assert(env[from].1 == variable(env, name, from)->0);
        } else {
            law_variables(env, name, from + 1);
        }
    }
}

/// Text around a `${…}` stays, and the reference gives way to its value: with what comes before
/// free of `$` and what comes after read as `tail`, the whole is read as the three together.
pub proof fn law_reference_is_replaced(
    head: Seq<char>,
    inner: Seq<char>,
    rest: Seq<char>,
    tail: Seq<char>,
    origin: Seq<char>,
    env: Environment,
)
    requires
        forall|k: int| 0 <= k < head.len() ==> #[trigger] head[k] != '$' && head[k] != '\\',
        forall|k: int| 0 <= k < inner.len() ==> #[trigger] inner[k] != '}',
        interpolated(rest, origin, env, 0) == Ok::<_, Seq<char>>(tail),
    ensures
        ({
            let text = head + seq!['$', '{'] + inner + seq!['}'] + rest;
            match reference_value(inner, env) {
                Some(value) => interpolated(text, origin, env, 0) == Ok::<_, Seq<char>>(
                    head + value + tail,
                ),
                None => interpolated(text, origin, env, 0) == Err::<Seq<char>, _>(
                    unset_message(origin, head, reference(inner).0),
                ),
            }
        }),
{
    let text = head + seq!['$', '{'] + inner + seq!['}'] + rest;
    let at = head.len() as int;
    let close = at + 2 + inner.len();
    assert(text[at] == '$' && text[at + 1] == '{' && text[close] == '}');
    let found = find_from(text, '}', at + 2);
    law_first_is_found(text, '}', at + 2);
    if found < close {
        assert(text[found] == inner[found - at - 2]);
    }
    assert(found == close);
    assert(text.subrange(at + 2, close) =~= inner);
    assert(text.take(at) =~= head);
    assert(text =~= (head + seq!['$', '{'] + inner + seq!['}']) + rest);
    lemma_rest_is_read(head + seq!['$', '{'] + inner + seq!['}'], rest, tail, origin, env, 0);
    lemma_head_stays(text, head, origin, env, 0);
    assert(head.skip(0) =~= head);
    if let Some(value) = reference_value(inner, env) {
        assert(head + (value + tail) =~= head + value + tail);
    }
}

/// `\\$` stands for a `$`, whatever follows.
pub proof fn law_escaped_dollar(
    head: Seq<char>,
    rest: Seq<char>,
    tail: Seq<char>,
    origin: Seq<char>,
    env: Environment,
)
    requires
        forall|k: int| 0 <= k < head.len() ==> #[trigger] head[k] != '$' && head[k] != '\\',
        interpolated(rest, origin, env, 0) == Ok::<_, Seq<char>>(tail),
    ensures
        interpolated(head + seq!['\\', '$'] + rest, origin, env, 0) == Ok::<_, Seq<char>>(
            head + seq!['$'] + tail,
        ),
{
    let text = head + seq!['\\', '$'] + rest;
    let at = head.len() as int;
    assert(text[at] == '\\' && text[at + 1] == '$');
    assert(text =~= (head + seq!['\\', '$']) + rest);
    assert(text.take(at) =~= head);
    lemma_rest_is_read(head + seq!['\\', '$'], rest, tail, origin, env, 0);
    lemma_head_stays(text, head, origin, env, 0);
    assert(head.skip(0) =~= head);
    assert(head + (seq!['$'] + tail) =~= head + seq!['$'] + tail);
}

/// Text without `$` before something else stays.
proof fn lemma_head_stays(
    text: Seq<char>,
    head: Seq<char>,
    origin: Seq<char>,
    env: Environment,
    i: int,
)
    requires
        0 <= i <= head.len() <= text.len(),
        head == text.take(head.len() as int),
        forall|k: int| 0 <= k < head.len() ==> #[trigger] head[k] != '$' && head[k] != '\\',
    ensures
        interpolated(text, origin, env, i) == prefixed(
            head.skip(i),
            interpolated(text, origin, env, head.len() as int),
        ),
    decreases head.len() - i,
{
    if i < head.len() {
        lemma_head_stays(text, head, origin, env, i + 1);
        assert(text[i] == head[i]);
        lemma_prefixed(
            seq![text[i]],
            head.skip(i + 1),
            interpolated(text, origin, env, head.len() as int),
        );
        assert(seq![text[i]] + head.skip(i + 1) =~= head.skip(i));
    } else {
        let rest = interpolated(text, origin, env, i);
        assert(head.skip(i) =~= seq![]);
        if let Ok(tail) = rest {
            assert(Seq::<char>::empty() + tail =~= tail);
        }
    }
}

/// What comes last is read as it is on its own.
proof fn lemma_rest_is_read(
    head: Seq<char>,
    rest: Seq<char>,
    tail: Seq<char>,
    origin: Seq<char>,
    env: Environment,
    i: int,
)
    requires
        0 <= i <= rest.len(),
        interpolated(rest, origin, env, i) == Ok::<_, Seq<char>>(tail),
    ensures
        interpolated(head + rest, origin, env, head.len() + i) == Ok::<_, Seq<char>>(tail),
    decreases rest.len() - i,
{
    let text = head + rest;
    let n = head.len() as int;
    if i < rest.len() {
        assert(text[n + i] == rest[i]);
        if i + 1 < rest.len() {
            assert(text[n + i + 1] == rest[i + 1]);
        }
        if rest[i] == '\\' && i + 1 < rest.len() && rest[i + 1] == '$' {
            lemma_rest_is_read(
                head,
                rest,
                interpolated(rest, origin, env, i + 2)->Ok_0,
                origin,
                env,
                i + 2,
            );
        } else if rest[i] == '$' && i + 1 < rest.len() && rest[i + 1] == '{' {
            let close = find_from(rest, '}', i + 2);
            let found = find_from(text, '}', n + i + 2);
            law_first_is_found(rest, '}', i + 2);
            law_first_is_found(text, '}', n + i + 2);
            if close < rest.len() {
                assert(text[n + close] == '}');
            }
            if found < text.len() {
                assert(rest[found - n] == '}');
            }
            if found < n + close {
                assert(rest[found - n] == text[found]);
            }
            assert(found == n + close);
            if close < rest.len() {
                assert(text.subrange(n + i + 2, found) =~= rest.subrange(i + 2, close));
                lemma_rest_is_read(
                    head,
                    rest,
                    interpolated(rest, origin, env, close + 1)->Ok_0,
                    origin,
                    env,
                    close + 1,
                );
            } else {
                lemma_rest_is_read(
                    head,
                    rest,
                    interpolated(rest, origin, env, i + 1)->Ok_0,
                    origin,
                    env,
                    i + 1,
                );
            }
        } else {
            lemma_rest_is_read(
                head,
                rest,
                interpolated(rest, origin, env, i + 1)->Ok_0,
                origin,
                env,
                i + 1,
            );
        }
    }
}

/// The line of a variable is counted from 1, and goes up by one behind each line break that
/// something follows.
pub proof fn law_lines_are_counted(before: Seq<char>, next: char)
    ensures
        lines_begun(seq![]) == 1,
        lines_begun(seq![next]) == 1,
        before.len() > 0 ==> lines_begun(before.push(next)) == lines_begun(before) + if before.last()
            == '\n' {
            1nat
        } else {
            0nat
        },
{
    assert(seq![next].drop_last() =~= seq![]);
    assert(line_breaks(seq![next].drop_last()) == 0);
    assert(before.push(next).drop_last() =~= before);
}

/// What is said of a variable without a value begins with the file and the line, and names it.
pub proof fn law_unset_variable_is_named(origin: Seq<char>, before: Seq<char>, name: Seq<char>)
    ensures
        (origin + ":"@ + decimal(lines_begun(before)) + ": ${"@ + name + "} is not set"@).is_prefix_of(
            unset_message(origin, before, name),
        ),
{
    let head = origin + ":"@ + decimal(lines_begun(before)) + ": ${"@ + name;
    let message = unset_message(origin, before, name);
    reveal_strlit("} is not set");
    reveal_strlit(
        "} is not set in the environment.\nSet it, add it to .env / .env.local, or give it a default with ${",
    );
    let begin = head + "} is not set"@;
    assert(begin =~= message.take(begin.len() as int));
}

} // verus!
