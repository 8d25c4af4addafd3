//! Analysing and rewriting GraphQL query files.
//!
//! Rewriting is done by textual insertion: the syntax tree says where to insert, and the
//! original source is edited there. Comments, formatting and spacing are preserved.
use vstd::prelude::*;
use vstd::string::*;
use vstd::utf8::*;

use crate::edit::{
    apart, apply, apply_within, edit_models, fits, holds_bytes, inside, is_subsequence, lands, later,
    law_insertions_keep_the_text, law_untouched_text_stays, moved, rewritten, spares, Edit, EditModel,
};
use crate::errors::{Error, ErrorModel};
use crate::fragments::{find_odd_list, fragment_name, survey, surveyed, Survey};
use crate::graph::{lemma_first_step, reaches};
use crate::sort::arranged;
use crate::syntax::{
    bracketed, bytes, child, child_of, cut, laid_out, lemma_after, lemma_child, lemma_inside,
    node_models, node_text, parse, parsed, part, text_of_node, under, Node, NodeModel, Wanted,
};
use crate::text::{
    contains, decimal, join, joined, lemma_decimal_digits, lemma_decimal_injective, occurs,
    opt_text, same, texts, three, trim, trim_end, trimmed,
    trimmed_end, two, write_decimal,
};

verus! {

/// The value of `first:` that asks for everything.
pub const AUTO: &'static str = "auto";

/// Beginning of the names of the cursor variables.
pub const CURSOR_VAR: &'static str = "gqlfreez_cursor";

/// What the document holds.
#[derive(Debug, PartialEq, Eq, Structural)]
pub enum Kind {
    Operation,
    /// Fragments only, no operation: not a query, skipped.
    FragmentsOnly,
    Empty,
}

/// Which of the two list fields of a connection.
#[derive(Debug, Clone, Copy, PartialEq, Eq, Structural)]
pub enum ListField {
    Nodes,
    Edges,
}

/// The arguments of a connection.
#[derive(Debug)]
pub struct Args {
    /// Offset where `(…)` should be opened when the field has no arguments.
    pub open_at: usize,
    /// Offset of the closing paren when arguments exist.
    pub close_at: Option<usize>,
    /// Spans of the `auto` values of `first:` and `last:`, to be replaced by the page size.
    pub auto_spans: Vec<(usize, usize)>,
    pub has_limit: bool,
}

/// A Relay connection found in the query: a field whose selection holds `nodes` or `edges`.
#[derive(Debug)]
pub struct Connection {
    /// Response path, following aliases: `["repository", "issues"]`.
    pub path: Vec<String>,
    /// Response keys of the list fields present, following aliases.
    pub lists: Vec<(ListField, String)>,
    /// Response key of `pageInfo`, if the user selected it.
    pub page_info_key: Option<String>,
    /// Offset just inside the selection set of that `pageInfo`.
    pub page_info_open: Option<usize>,
    /// The user's `pageInfo` does not ask for `hasNextPage`.
    pub lacks_next: bool,
    /// The user's `pageInfo` does not ask for `endCursor`.
    pub lacks_cursor: bool,
    /// True when this connection must be walked to the end.
    pub paginate: bool,
    /// Byte offsets of the whole field, in the original source.
    pub field_span: (usize, usize),
    /// Insertion point and existing arguments.
    pub args: Args,
    /// Byte offsets of the field's selection set.
    pub selection_span: (usize, usize),
    /// Ancestors' header text, outermost first: `repository(owner: "x", name: "y")`.
    pub ancestors: Vec<String>,
    /// Existing `after:` argument value, when the user wrote one.
    pub user_cursor_var: Option<String>,
}

/// Where the cursor variables are declared.
#[derive(Debug, Clone, Copy)]
pub enum VarInsert {
    /// Operation already declares variables: insert before the closing paren.
    Extend(usize),
    /// Operation has a keyword but no variables: insert after it.
    After(usize),
    /// Shorthand `{ … }`: insert before the opening brace.
    Shorthand(usize),
}

/// What there is to know of a query file.
#[derive(Debug)]
pub struct Analysis {
    pub kind: Kind,
    pub operation_name: Option<String>,
    pub connections: Vec<Connection>,
    /// Where to declare the cursor variable, and how.
    pub var_insert: Option<VarInsert>,
    pub source: String,
}

// ---------------------------------------------------------------------------------------
// Meanings
// ---------------------------------------------------------------------------------------
/// What [`Args`] stand for.
pub struct ArgsModel {
    pub open_at: usize,
    pub close_at: Option<usize>,
    pub auto_spans: Seq<(usize, usize)>,
    pub has_limit: bool,
}

impl View for Args {
    type V = ArgsModel;

    open spec fn view(&self) -> ArgsModel {
        ArgsModel {
            open_at: self.open_at,
            close_at: self.close_at,
            auto_spans: self.auto_spans@,
            has_limit: self.has_limit,
        }
    }
}

/// What a [`Connection`] stands for.
pub struct ConnectionModel {
    pub path: Seq<Seq<char>>,
    pub lists: Seq<(ListField, Seq<char>)>,
    pub page_info_key: Option<Seq<char>>,
    pub page_info_open: Option<usize>,
    pub lacks_next: bool,
    pub lacks_cursor: bool,
    pub paginate: bool,
    pub field_span: (usize, usize),
    pub args: ArgsModel,
    pub selection_span: (usize, usize),
    pub ancestors: Seq<Seq<char>>,
    pub user_cursor_var: Option<Seq<char>>,
}

/// What a list of list fields stands for.
pub open spec fn list_models(lists: Seq<(ListField, String)>) -> Seq<(ListField, Seq<char>)> {
    Seq::new(lists.len(), |i: int| (lists[i].0, lists[i].1@))
}

impl View for Connection {
    type V = ConnectionModel;

    open spec fn view(&self) -> ConnectionModel {
        ConnectionModel {
            path: texts(self.path@),
            lists: list_models(self.lists@),
            page_info_key: opt_text(self.page_info_key),
            page_info_open: self.page_info_open,
            lacks_next: self.lacks_next,
            lacks_cursor: self.lacks_cursor,
            paginate: self.paginate,
            field_span: self.field_span,
            args: self.args@,
            selection_span: self.selection_span,
            ancestors: texts(self.ancestors@),
            user_cursor_var: opt_text(self.user_cursor_var),
        }
    }
}

/// What a list of connections stands for.
pub open spec fn connection_models(connections: Seq<Connection>) -> Seq<ConnectionModel> {
    Seq::new(connections.len(), |i: int| connections[i]@)
}

/// What an [`Analysis`] stands for.
pub struct AnalysisModel {
    pub kind: Kind,
    pub operation_name: Option<Seq<char>>,
    pub connections: Seq<ConnectionModel>,
    pub var_insert: Option<VarInsert>,
    pub source: Seq<char>,
}

impl View for Analysis {
    type V = AnalysisModel;

    open spec fn view(&self) -> AnalysisModel {
        AnalysisModel {
            kind: self.kind,
            operation_name: opt_text(self.operation_name),
            connections: connection_models(self.connections@),
            var_insert: self.var_insert,
            source: self.source@,
        }
    }
}

/// What a connection behind a list is answered; the path leads to the list.
pub open spec fn listed_message(path: Seq<Seq<char>>) -> Seq<char> {
    joined(path, "."@)
        + ": a list sits on the path to this connection — gqlfreez cannot paginate a connection nested inside a list"@
}

/// What a connection inside another one is answered; the path leads to the outer one.
pub open spec fn nested_message(path: Seq<Seq<char>>) -> Seq<char> {
    joined(path, "."@)
        + ": a connection sits inside this one — gqlfreez cannot paginate a connection nested inside another; give the inner one a limit"@
}

/// What a list that only a fragment has is answered.
pub open spec fn odd_message(path: Seq<Seq<char>>) -> Seq<char> {
    joined(path, "."@)
        + ": a fragment selects another list of this connection — gqlfreez cannot yet read a connection through a fragment; inline it for now"@
}

/// What a `pageInfo` that may not come back is answered.
pub open spec fn vague_message(path: Seq<Seq<char>>) -> Seq<char> {
    joined(path, "."@)
        + ": `pageInfo` has to come back with every page — take @skip or @include off it"@
}

/// A source and its syntax tree.
pub struct Document {
    pub source: Seq<char>,
    pub nodes: Seq<NodeModel>,
}

impl Document {
    /// The name of node `i`: the text of the name directly below it.
    pub open spec fn name(self, i: int) -> Option<Seq<char>> {
        match child(self.nodes, i, Wanted::Kind("NAME")) {
            Some(n) => Some(node_text(self.source, self.nodes[n])),
            None => None,
        }
    }

    /// The key under which field `i` comes back: its alias, else its name.
    pub open spec fn response_key(self, i: int) -> Seq<char> {
        let alias = match child(self.nodes, i, Wanted::Kind("ALIAS")) {
            Some(a) => self.name(a),
            None => None,
        };
        match alias {
            Some(text) => text,
            None => self.name(i)->0,
        }
    }

    /// Whether node `j` is a field with the given name, directly below a node of that depth.
    pub open spec fn is_field(self, depth: usize, j: int, name: Seq<char>) -> bool {
        &&& self.nodes[j].depth == depth + 1
        &&& self.nodes[j].kind == "FIELD"@
        &&& self.name(j) == Some(name)
    }

    /// Whether the scan of the nodes below a node of that depth ends before node `j`.
    pub open spec fn over(self, depth: usize, j: int) -> bool {
        j < 0 || j >= self.nodes.len() || self.nodes[j].depth <= depth
    }

    /// The list field that node `j` is, as a field of a selection set of that depth.
    pub open spec fn list_at(self, depth: usize, j: int) -> Option<(ListField, Seq<char>)> {
        if self.is_field(depth, j, "nodes"@) {
            Some((ListField::Nodes, self.response_key(j)))
        } else if self.is_field(depth, j, "edges"@) {
            Some((ListField::Edges, self.response_key(j)))
        } else {
            None
        }
    }

    /// The list fields among the fields of a selection set, from node `j` on.
    pub open spec fn lists_from(self, depth: usize, j: int) -> Seq<(ListField, Seq<char>)>
        decreases self.nodes.len() - j,
    {
        if self.over(depth, j) {
            seq![]
        } else {
            match self.list_at(depth, j) {
                Some(list) => seq![list] + self.lists_from(depth, j + 1),
                None => self.lists_from(depth, j + 1),
            }
        }
    }

    /// The last `pageInfo` among the fields of a selection set, from node `j` on.
    pub open spec fn page_info_from(self, depth: usize, j: int) -> Option<int>
        decreases self.nodes.len() - j,
    {
        if self.over(depth, j) {
            None
        } else {
            match self.page_info_from(depth, j + 1) {
                Some(p) => Some(p),
                None => if self.is_field(depth, j, "pageInfo"@) {
                    Some(j)
                } else {
                    None
                },
            }
        }
    }

    /// Whether directive `k` is given `if` with that value.
    pub open spec fn is_given(self, k: int, value: Seq<char>) -> bool {
        &&& child(self.nodes, k, Wanted::Kind("ARGUMENTS")) matches Some(a)
        &&& child(self.nodes, a, Wanted::Kind("ARGUMENT")) matches Some(condition)
        &&& self.name(condition) == Some("if"@)
        &&& child(self.nodes, condition, Wanted::Value) matches Some(v)
        &&& trimmed(node_text(self.source, self.nodes[v])) == value
    }

    /// Whether node `k` is a directive, directly below a node of that depth, that can leave out
    /// what it is on: a `skip` or an `include`, unless it is written so that it does not.
    pub open spec fn is_omission(self, depth: usize, k: int) -> bool {
        &&& self.nodes[k].depth == depth + 1
        &&& self.nodes[k].kind == "DIRECTIVE"@
        &&& {
            ||| self.name(k) == Some("skip"@) && !self.is_given(k, "false"@)
            ||| self.name(k) == Some("include"@) && !self.is_given(k, "true"@)
        }
    }

    /// Whether there is such a directive, from node `k` on.
    pub open spec fn omission_from(self, depth: usize, k: int) -> bool
        decreases self.nodes.len() - k,
    {
        !self.over(depth, k) && (self.is_omission(depth, k) || self.omission_from(depth, k + 1))
    }

    /// Whether field `j` has a directive that can leave it out.
    pub open spec fn may_be_left_out(self, j: int) -> bool {
        &&& child(self.nodes, j, Wanted::Kind("DIRECTIVES")) matches Some(ds)
        &&& self.omission_from(self.nodes[ds].depth, ds + 1)
    }

    /// Whether node `j` is sure to come back under its own name, as a field of a selection set
    /// of that depth.
    pub open spec fn is_plain(self, depth: usize, j: int, name: Seq<char>) -> bool {
        &&& self.is_field(depth, j, name)
        &&& self.response_key(j) == name
        &&& !self.may_be_left_out(j)
    }

    /// Whether there is such a field in a selection set, from node `j` on.
    pub open spec fn plain_from(self, depth: usize, j: int, name: Seq<char>) -> bool
        decreases self.nodes.len() - j,
    {
        !self.over(depth, j) && (self.is_plain(depth, j, name) || self.plain_from(
            depth,
            j + 1,
            name,
        ))
    }

    /// Whether node `p` is a `pageInfo` that comes back under a key, with a field of that name
    /// in it.
    pub open spec fn is_asked(self, depth: usize, p: int, key: Seq<char>, name: Seq<char>) -> bool {
        &&& self.is_field(depth, p, "pageInfo"@)
        &&& self.response_key(p) == key
        &&& !self.may_be_left_out(p)
        &&& child(self.nodes, p, Wanted::Kind("SELECTION_SET")) matches Some(set)
        &&& self.plain_from(self.nodes[set].depth, set + 1, name)
    }

    /// Whether there is such a `pageInfo` among the fields of a selection set, from node `j` on.
    pub open spec fn asked_from(
        self,
        depth: usize,
        j: int,
        key: Seq<char>,
        name: Seq<char>,
    ) -> bool
        decreases self.nodes.len() - j,
    {
        !self.over(depth, j) && (self.is_asked(depth, j, key, name) || self.asked_from(
            depth,
            j + 1,
            key,
            name,
        ))
    }

    /// The key of the `pageInfo` of selection set `set`.
    pub open spec fn info_key(self, set: int) -> Option<Seq<char>> {
        match self.page_info_from(self.nodes[set].depth, set + 1) {
            Some(p) => Some(self.response_key(p)),
            None => None,
        }
    }

    /// The offset just inside the selection set of the `pageInfo` of selection set `set`.
    pub open spec fn info_open(self, set: int) -> Option<usize> {
        match self.page_info_from(self.nodes[set].depth, set + 1) {
            Some(p) => match child(self.nodes, p, Wanted::Kind("SELECTION_SET")) {
                Some(inner) => Some((self.nodes[inner].start + 1) as usize),
                None => None,
            },
            None => None,
        }
    }

    /// Whether selection set `set` has a `pageInfo` with selections, and no `pageInfo` under its
    /// key is sure to bring a field along.
    pub open spec fn lacks(self, set: int, name: Seq<char>) -> bool {
        &&& self.info_open(set) is Some
        &&& self.info_key(set) matches Some(key)
        &&& !self.asked_from(self.nodes[set].depth, set + 1, key, name)
    }

    /// Whether the `pageInfo` of selection set `set` has to be added to, and may be left out.
    pub open spec fn is_vague(self, set: int) -> bool {
        &&& self.page_info_from(self.nodes[set].depth, set + 1) matches Some(p)
        &&& self.may_be_left_out(p)
        &&& self.lacks(set, "hasNextPage"@) || self.lacks(set, "endCursor"@)
    }

    /// Whether node `j` is an argument directly below a node of that depth, with that name.
    pub open spec fn is_argument(self, depth: usize, j: int, name: Seq<char>) -> bool {
        &&& self.nodes[j].depth == depth + 1
        &&& self.nodes[j].kind == "ARGUMENT"@
        &&& self.name(j) == Some(name)
    }

    /// Whether node `j` is a `first` or `last` argument.
    pub open spec fn is_limit(self, depth: usize, j: int) -> bool {
        self.is_argument(depth, j, "first"@) || self.is_argument(depth, j, "last"@)
    }

    /// The span of the value of argument `j`, when that value is `auto`.
    pub open spec fn auto_at(self, j: int) -> Option<(usize, usize)> {
        match child(self.nodes, j, Wanted::Value) {
            Some(v) => if trimmed(node_text(self.source, self.nodes[v])) == AUTO@ {
                Some((self.nodes[v].start, self.nodes[v].end))
            } else {
                None
            },
            None => None,
        }
    }

    /// Whether there is a `first` or `last` among arguments, from node `j` on.
    pub open spec fn limit_from(self, depth: usize, j: int) -> bool
        decreases self.nodes.len() - j,
    {
        !self.over(depth, j) && (self.is_limit(depth, j) || self.limit_from(depth, j + 1))
    }

    /// The span of an `auto` limit that node `j` is.
    pub open spec fn auto_limit(self, depth: usize, j: int) -> Option<(usize, usize)> {
        if self.is_limit(depth, j) {
            self.auto_at(j)
        } else {
            None
        }
    }

    /// The spans of the `auto` limits among arguments, from node `j` on.
    pub open spec fn auto_from(self, depth: usize, j: int) -> Seq<(usize, usize)>
        decreases self.nodes.len() - j,
    {
        if self.over(depth, j) {
            seq![]
        } else {
            match self.auto_limit(depth, j) {
                Some(span) => seq![span] + self.auto_from(depth, j + 1),
                None => self.auto_from(depth, j + 1),
            }
        }
    }

    /// The arguments of field `i`, whose name is node `name`.
    pub open spec fn args(self, i: int, name: int) -> ArgsModel {
        let open_at = self.nodes[name].end;
        match child(self.nodes, i, Wanted::Kind("ARGUMENTS")) {
            Some(a) => ArgsModel {
                open_at,
                close_at: Some((self.nodes[a].end - 1) as usize),
                auto_spans: self.auto_from(self.nodes[a].depth, a + 1),
                has_limit: self.limit_from(self.nodes[a].depth, a + 1),
            },
            None => ArgsModel { open_at, close_at: None, auto_spans: seq![], has_limit: false },
        }
    }

    /// Whether node `j` is an `after` argument whose value is a variable.
    pub open spec fn is_after(self, depth: usize, j: int) -> bool {
        &&& self.is_argument(depth, j, "after"@)
        &&& child(self.nodes, j, Wanted::Value) matches Some(v)
        &&& self.nodes[v].kind == "VARIABLE"@
    }

    /// The variable of the first such `after` among arguments, from node `j` on.
    pub open spec fn after_from(self, depth: usize, j: int) -> Option<Seq<char>>
        decreases self.nodes.len() - j,
    {
        if self.over(depth, j) {
            None
        } else if self.is_after(depth, j) {
            self.name(child(self.nodes, j, Wanted::Value)->0)
        } else {
            self.after_from(depth, j + 1)
        }
    }

    /// The variable that the user gave as `after` argument of field `i`.
    pub open spec fn after_var(self, i: int) -> Option<Seq<char>> {
        match child(self.nodes, i, Wanted::Kind("ARGUMENTS")) {
            Some(a) => self.after_from(self.nodes[a].depth, a + 1),
            None => None,
        }
    }

    /// The text of field `i` up to (but excluding) its selection set `set`.
    pub open spec fn header(self, i: int, set: int) -> Seq<char> {
        trimmed_end(part(self.source, self.nodes[i].start as int, self.nodes[set].start as int))
    }

    /// Whether field `i`, with name `name`, is to be walked to the end when it is a connection:
    /// there is no limit, or the limit is `auto`, or the user wrote the cursor.
    pub open spec fn unlimited(self, i: int, name: int) -> bool {
        let args = self.args(i, name);
        !args.has_limit || args.auto_spans.len() > 0 || self.after_var(i) is Some
    }

    /// Whether there is a connection to be walked to the end among the nodes below a node of
    /// that depth, at any distance, from node `f` on.
    pub open spec fn open_from(self, depth: usize, f: int) -> bool
        decreases self.nodes.len() - f,
    {
        !self.over(depth, f) && (self.is_open(f) || self.open_from(depth, f + 1))
    }

    /// The key of the first list field with a connection to be walked to the end below it,
    /// among the fields of a selection set, from node `j` on.
    pub open spec fn crowded_from(self, depth: usize, j: int) -> Option<Seq<char>>
        decreases self.nodes.len() - j,
    {
        if self.over(depth, j) {
            None
        } else {
            match self.list_at(depth, j) {
                Some(list) => if self.open_from(self.nodes[j].depth, j + 1) {
                    Some(list.1)
                } else {
                    self.crowded_from(depth, j + 1)
                },
                None => self.crowded_from(depth, j + 1),
            }
        }
    }

    /// The connection that field `i` is, with name `name` and selection set `set`.
    pub open spec fn connection(
        self,
        i: int,
        name: int,
        set: int,
        path: Seq<Seq<char>>,
        ancestors: Seq<Seq<char>>,
    ) -> ConnectionModel {
        ConnectionModel {
            path: path.push(self.response_key(i)),
            lists: self.lists_from(self.nodes[set].depth, set + 1),
            page_info_key: self.info_key(set),
            page_info_open: self.info_open(set),
            lacks_next: self.lacks(set, "hasNextPage"@),
            lacks_cursor: self.lacks(set, "endCursor"@),
            paginate: self.unlimited(i, name),
            field_span: (self.nodes[i].start, self.nodes[i].end),
            args: self.args(i, name),
            selection_span: (self.nodes[set].start, self.nodes[set].end),
            ancestors,
            user_cursor_var: self.after_var(i),
        }
    }

    /// What is wrong with a fragment spread at node `j`.
    pub open spec fn spread_message(self, j: int) -> Seq<char> {
        "fragment spread `..."@ + (match self.fragment_name(j) {
            Some(text) => text,
            None => seq![],
        }) + "` — gqlfreez cannot yet read a connection through a fragment; inline it for now"@
    }

    /// What keeps field `i`, a connection with name `name` and selection set `set` at that path,
    /// from being frozen whole: a connection to be walked to the end that lies below it, or that
    /// a fragment brings along; where it is to be walked itself, a list that only a fragment has,
    /// or a `pageInfo` that cannot be relied on.
    pub open spec fn hindrance(self, i: int, name: int, set: int, path: Seq<Seq<char>>) -> Option<
        Seq<char>,
    > {
        let depth = self.nodes[set].depth;
        match self.crowded_from(depth, set + 1) {
            Some(key) => Some(listed_message(path.push(key))),
            None => if self.open_from(depth, set + 1) {
                Some(nested_message(path))
            } else {
                match self.laden_from(depth, set + 1) {
                    Some(j) => Some(self.spread_message(j)),
                    None => if !self.unlimited(i, name) {
                        None
                    } else if self.has_odd_list(i, set) {
                        Some(odd_message(path))
                    } else if self.is_vague(set) {
                        Some(vague_message(path))
                    } else {
                        None
                    },
                }
            },
        }
    }

    /// What field `i` adds to the connections: itself when it is one, else what is below it.
    pub open spec fn below(
        self,
        i: int,
        path: Seq<Seq<char>>,
        ancestors: Seq<Seq<char>>,
    ) -> Result<Seq<ConnectionModel>, Seq<char>>
        decreases self.nodes.len() - i, 0int,
    {
        match (
            child(self.nodes, i, Wanted::Kind("NAME")),
            child(self.nodes, i, Wanted::Kind("SELECTION_SET")),
        ) {
            (Some(name), Some(set)) => if set <= i || set >= self.nodes.len() {
                Ok(seq![])
            } else if self.lists_from(self.nodes[set].depth, set + 1).len() > 0 {
                match self.hindrance(i, name, set, path.push(self.response_key(i))) {
                    Some(message) => Err(message),
                    None => Ok(seq![self.connection(i, name, set, path, ancestors)]),
                }
            } else {
                self.walk(
                    self.nodes[set].depth,
                    set + 1,
                    path.push(self.response_key(i)),
                    ancestors.push(self.header(i, set)),
                )
            },
            _ => Ok(seq![]),
        }
    }

    /// The connections among the selections of a set, from node `j` on, in reading order; or
    /// what is wrong with the first fragment met on the way.
    pub open spec fn walk(
        self,
        depth: usize,
        j: int,
        path: Seq<Seq<char>>,
        ancestors: Seq<Seq<char>>,
    ) -> Result<Seq<ConnectionModel>, Seq<char>>
        decreases self.nodes.len() - j, 1int,
    {
        if self.over(depth, j) {
            Ok(seq![])
        } else if self.nodes[j].depth != depth + 1 {
            self.walk(depth, j + 1, path, ancestors)
        } else if self.nodes[j].kind == "FRAGMENT_SPREAD"@ {
            Err(self.spread_message(j))
        } else if self.nodes[j].kind == "INLINE_FRAGMENT"@ {
            Err(
                "inline fragment — gqlfreez cannot yet read a connection through a fragment; inline it for now"@,
            )
        } else if self.nodes[j].kind == "FIELD"@ {
            match self.below(j, path, ancestors) {
                Ok(here) => match self.walk(depth, j + 1, path, ancestors) {
                    Ok(rest) => Ok(here + rest),
                    Err(message) => Err(message),
                },
                Err(message) => Err(message),
            }
        } else {
            self.walk(depth, j + 1, path, ancestors)
        }
    }

    /// The operations among the definitions of the document, from node `j` on.
    pub open spec fn operations_from(self, j: int) -> Seq<int>
        decreases self.nodes.len() - j,
    {
        if self.over(self.nodes[0].depth, j) {
            seq![]
        } else if self.nodes[j].depth == self.nodes[0].depth + 1 && self.nodes[j].kind
            == "OPERATION_DEFINITION"@ {
            seq![j] + self.operations_from(j + 1)
        } else {
            self.operations_from(j + 1)
        }
    }

    /// The operations of the document.
    pub open spec fn operations(self) -> Seq<int> {
        self.operations_from(1)
    }

    /// The names of the operations of the document.
    pub open spec fn operation_names(self) -> Seq<Seq<char>> {
        Seq::new(
            self.operations().len(),
            |i: int|
                match self.name(self.operations()[i]) {
                    Some(name) => name,
                    None => "<anonymous>"@,
                },
        )
    }

    /// Where operation `op`, with selection set `set`, can declare one more variable.
    pub open spec fn var_insert(self, op: int, set: int) -> VarInsert {
        match child(self.nodes, op, Wanted::Kind("VARIABLE_DEFINITIONS")) {
            Some(vars) => VarInsert::Extend((self.nodes[vars].end - 1) as usize),
            None => match child(self.nodes, op, Wanted::Kind("OPERATION_TYPE")) {
                Some(ty) => match child(self.nodes, op, Wanted::Kind("NAME")) {
                    Some(name) => VarInsert::After(self.nodes[name].end),
                    None => VarInsert::After(self.nodes[ty].end),
                },
                None => VarInsert::Shorthand(self.nodes[set].start),
            },
        }
    }

    /// The span of the `auto` that node `j` gives as a `first` or `last` argument, wherever it
    /// stands.
    pub open spec fn auto_argument(self, j: int) -> Option<(usize, usize)> {
        if self.nodes[j].kind == "ARGUMENT"@ && (self.name(j) == Some("first"@) || self.name(j)
            == Some("last"@)) {
            self.auto_at(j)
        } else {
            None
        }
    }

    /// The first such argument, from node `j` on, that is not one of a connection to paginate.
    pub open spec fn stray_from(self, connections: Seq<ConnectionModel>, j: int) -> Option<int>
        decreases self.nodes.len() - j,
    {
        if j < 0 || j >= self.nodes.len() {
            None
        } else {
            match self.auto_argument(j) {
                Some(span) if !claimed(connections, span) => Some(j),
                _ => self.stray_from(connections, j + 1),
            }
        }
    }

    /// What is wrong with an `auto` at argument `j`.
    pub open spec fn stray_message(self, j: int) -> Seq<char> {
        "`"@ + node_text(self.source, self.nodes[j]) + "`"@
            + " — `auto` stands for the page size of a connection that gqlfreez paginates; write a number here"@
    }

    /// What there is to know of the document, or what is wrong with it.
    pub open spec fn analysis(self) -> Result<AnalysisModel, Seq<char>> {
        let ops = self.operations();
        if ops.len() == 0 {
            Ok(
                AnalysisModel {
                    kind: if child(self.nodes, 0, Wanted::Kind("FRAGMENT_DEFINITION")) is Some {
                        Kind::FragmentsOnly
                    } else {
                        Kind::Empty
                    },
                    operation_name: None,
                    connections: seq![],
                    var_insert: None,
                    source: self.source,
                },
            )
        } else if ops.len() > 1 {
            Err(
                "this file holds "@ + decimal(ops.len()) + " operations ("@ + joined(
                    self.operation_names(),
                    ", "@,
                ) + ") — gqlfreez expects one operation per file"@,
            )
        } else {
            match child(self.nodes, ops[0], Wanted::Kind("SELECTION_SET")) {
                None => Err("the operation has no selection set"@),
                Some(set) => match self.walk(self.nodes[set].depth, set + 1, seq![], seq![]) {
                    Err(message) => Err(message),
                    Ok(connections) => match self.stray_from(connections, 0) {
                        Some(j) => Err(self.stray_message(j)),
                        None => Ok(
                            AnalysisModel {
                                kind: Kind::Operation,
                                operation_name: self.name(ops[0]),
                                connections,
                                var_insert: Some(self.var_insert(ops[0], set)),
                                source: self.source,
                            },
                        ),
                    },
                },
            }
        }
    }
}

/// Whether a connection to paginate has that `auto` among its arguments.
pub open spec fn claimed(connections: Seq<ConnectionModel>, span: (usize, usize)) -> bool {
    exists|k: int|
        0 <= k < connections.len() && (#[trigger] connections[k]).paginate
            && connections[k].args.auto_spans.contains(span)
}

/// What was found before, followed by what comes after it.
pub open spec fn with_before(
    found: Seq<ConnectionModel>,
    rest: Result<Seq<ConnectionModel>, Seq<char>>,
) -> Result<Seq<ConnectionModel>, Seq<char>> {
    match rest {
        Ok(more) => Ok(found + more),
        Err(message) => Err(message),
    }
}

// ---------------------------------------------------------------------------------------
// Reading the tree
// ---------------------------------------------------------------------------------------
/// The document that a source and the nodes of its tree make.
pub open spec fn document(source: Seq<char>, nodes: Seq<Node>) -> Document {
    Document { source, nodes: node_models(nodes) }
}

/// Positions, as mathematical integers.
pub open spec fn indices(positions: Seq<usize>) -> Seq<int> {
    Seq::new(positions.len(), |i: int| positions[i] as int)
}

/// The name of node `i`.
pub(crate) fn name_of(source: &str, nodes: &Vec<Node>, i: usize) -> (r: Option<String>)
    requires
        i < nodes@.len(),
        laid_out(node_models(nodes@), bytes(source@)),
    ensures
        opt_text(r) == document(source@, nodes@).name(i as int),
{
    match child_of(nodes, i, Wanted::Kind("NAME")) {
        Some(n) => Some(text_of_node(source, nodes, n)),
        None => None,
    }
}

/// The key under which field `i`, whose name is given, comes back.
fn key_of(source: &str, nodes: &Vec<Node>, i: usize, name: &str) -> (r: String)
    requires
        i < nodes@.len(),
        laid_out(node_models(nodes@), bytes(source@)),
        document(source@, nodes@).name(i as int) == Some(name@),
    ensures
        r@ == document(source@, nodes@).response_key(i as int),
{
    let alias = match child_of(nodes, i, Wanted::Kind("ALIAS")) {
        Some(a) => name_of(source, nodes, a),
        None => None,
    };
    match alias {
        Some(text) => text,
        None => name.to_owned(),
    }
}

/// The name of node `j`, when it is a field directly below a node of that depth.
fn field_name(source: &str, nodes: &Vec<Node>, depth: usize, j: usize) -> (r: Option<String>)
    requires
        j < nodes@.len(),
        nodes@[j as int].depth > depth,
        laid_out(node_models(nodes@), bytes(source@)),
    ensures
        match r {
            Some(name) => document(source@, nodes@).is_field(depth, j as int, name@),
            None => forall|name: Seq<char>|
                !#[trigger] document(source@, nodes@).is_field(depth, j as int, name),
        },
{
    assert(node_models(nodes@)[j as int] == nodes@[j as int]@);
    if nodes[j].depth - depth == 1 && same(nodes[j].kind.as_str(), "FIELD") {
        name_of(source, nodes, j)
    } else {
        None
    }
}

/// The list field that node `j` is.
fn read_list(source: &str, nodes: &Vec<Node>, depth: usize, j: usize) -> (r: Option<
    (ListField, String),
>)
    requires
        j < nodes@.len(),
        nodes@[j as int].depth > depth,
        laid_out(node_models(nodes@), bytes(source@)),
    ensures
        match r {
            Some(list) => document(source@, nodes@).list_at(depth, j as int) == Some(
                (list.0, list.1@),
            ),
            None => document(source@, nodes@).list_at(depth, j as int) is None,
        },
{
    match field_name(source, nodes, depth, j) {
        Some(name) => if same(name.as_str(), "nodes") {
            Some((ListField::Nodes, key_of(source, nodes, j, name.as_str())))
        } else if same(name.as_str(), "edges") {
            Some((ListField::Edges, key_of(source, nodes, j, name.as_str())))
        } else {
            None
        },
        None => None,
    }
}

/// The list fields among the fields of selection set `set`.
pub(crate) fn read_lists(source: &str, nodes: &Vec<Node>, set: usize) -> (r: Vec<(ListField, String)>)
    requires
        set < nodes@.len(),
        laid_out(node_models(nodes@), bytes(source@)),
    ensures
        list_models(r@) == document(source@, nodes@).lists_from(nodes@[set as int].depth, set + 1),
{
    let ghost d = document(source@, nodes@);
    let depth = nodes[set].depth;
    let count = nodes.len();
    let mut lists: Vec<(ListField, String)> = Vec::new();
    let mut j: usize = set + 1;
    assert(list_models(lists@) + d.lists_from(depth, j as int) =~= d.lists_from(depth, j as int));
    while j < count && nodes[j].depth > depth
        invariant
            set < j <= count,
            count == nodes@.len(),
            d == document(source@, nodes@),
            laid_out(node_models(nodes@), bytes(source@)),
            d.lists_from(depth, set + 1) == list_models(lists@) + d.lists_from(depth, j as int),
        decreases count - j,
    {
        let ghost done = list_models(lists@);
        assert(d.nodes[j as int] == nodes@[j as int]@);
        if let Some(list) = read_list(source, nodes, depth, j) {
            let ghost model = (list.0, list.1@);
            lists.push(list);
            assert(list_models(lists@) =~= done.push(model));
        }
        assert(list_models(lists@) + d.lists_from(depth, j + 1) =~= done + d.lists_from(
            depth,
            j as int,
        ));
        j = j + 1;
    }
    assert(list_models(lists@) + Seq::empty() =~= list_models(lists@));
    lists
}

/// The last `pageInfo` among the fields of selection set `set`.
fn find_page_info(source: &str, nodes: &Vec<Node>, set: usize) -> (r: Option<usize>)
    requires
        set < nodes@.len(),
        laid_out(node_models(nodes@), bytes(source@)),
    ensures
        match r {
            Some(p) => {
                &&& document(source@, nodes@).page_info_from(nodes@[set as int].depth, set + 1)
                    == Some(p as int)
                &&& document(source@, nodes@).name(p as int) == Some("pageInfo"@)
                &&& p < nodes@.len()
            },
            None => document(source@, nodes@).page_info_from(
                nodes@[set as int].depth,
                set + 1,
            ) is None,
        },
{
    let ghost d = document(source@, nodes@);
    let depth = nodes[set].depth;
    let count = nodes.len();
    let mut page_info: Option<usize> = None;
    let mut j: usize = set + 1;
    while j < count && nodes[j].depth > depth
        invariant
            set < j <= count,
            count == nodes@.len(),
            d == document(source@, nodes@),
            laid_out(node_models(nodes@), bytes(source@)),
            page_info matches Some(p) ==> p < count && d.name(p as int) == Some("pageInfo"@),
            d.page_info_from(depth, set + 1) == match (d.page_info_from(depth, j as int), page_info) {
                (Some(p), _) => Some(p),
                (None, Some(p)) => Some(p as int),
                (None, None) => None,
            },
        decreases count - j,
    {
        assert(d.nodes[j as int] == nodes@[j as int]@);
        if let Some(name) = field_name(source, nodes, depth, j) {
            if same(name.as_str(), "pageInfo") {
                page_info = Some(j);
            }
        }
        j = j + 1;
    }
    page_info
}

/// Whether directive `k` is given `if` with that value.
fn is_given(source: &str, nodes: &Vec<Node>, k: usize, value: &str) -> (r: bool)
    requires
        k < nodes@.len(),
        laid_out(node_models(nodes@), bytes(source@)),
    ensures
        r == document(source@, nodes@).is_given(k as int, value@),
{
    let a = match child_of(nodes, k, Wanted::Kind("ARGUMENTS")) {
        Some(a) => a,
        None => {
            return false;
        },
    };
    let condition = match child_of(nodes, a, Wanted::Kind("ARGUMENT")) {
        Some(condition) => condition,
        None => {
            return false;
        },
    };
    match (name_of(source, nodes, condition), child_of(nodes, condition, Wanted::Value)) {
        (Some(name), Some(v)) => same(name.as_str(), "if") && same(
            trim(text_of_node(source, nodes, v).as_str()).as_str(),
            value,
        ),
        _ => false,
    }
}

/// Whether field `j` has a directive that can leave it out.
fn may_be_left_out(source: &str, nodes: &Vec<Node>, j: usize) -> (r: bool)
    requires
        j < nodes@.len(),
        laid_out(node_models(nodes@), bytes(source@)),
    ensures
        r == document(source@, nodes@).may_be_left_out(j as int),
{
    let ghost d = document(source@, nodes@);
    let ds = match child_of(nodes, j, Wanted::Kind("DIRECTIVES")) {
        Some(ds) => ds,
        None => {
            return false;
        },
    };
    assert(d.nodes[ds as int] == nodes@[ds as int]@);
    let depth = nodes[ds].depth;
    let count = nodes.len();
    let mut k: usize = ds + 1;
    while k < count && nodes[k].depth > depth
        invariant
            ds < k <= count,
            count == nodes@.len(),
            d == document(source@, nodes@),
            laid_out(node_models(nodes@), bytes(source@)),
            d.may_be_left_out(j as int) == d.omission_from(depth, k as int),
        decreases count - k,
    {
        assert(d.nodes[k as int] == nodes@[k as int]@);
        if nodes[k].depth - depth == 1 && same(nodes[k].kind.as_str(), "DIRECTIVE") {
            if let Some(name) = name_of(source, nodes, k) {
                if (same(name.as_str(), "skip") && !is_given(source, nodes, k, "false")) || (same(
                    name.as_str(),
                    "include",
                ) && !is_given(source, nodes, k, "true")) {
                    return true;
                }
            }
        }
        k = k + 1;
    }
    false
}

/// Whether a selection set has a field that is sure to come back under its own name.
fn has_plain(source: &str, nodes: &Vec<Node>, set: usize, wanted: &str) -> (r: bool)
    requires
        set < nodes@.len(),
        laid_out(node_models(nodes@), bytes(source@)),
    ensures
        r == document(source@, nodes@).plain_from(nodes@[set as int].depth, set + 1, wanted@),
{
    let ghost d = document(source@, nodes@);
    let depth = nodes[set].depth;
    let count = nodes.len();
    let mut j: usize = set + 1;
    while j < count && nodes[j].depth > depth
        invariant
            set < j <= count,
            count == nodes@.len(),
            d == document(source@, nodes@),
            depth == nodes@[set as int].depth,
            laid_out(node_models(nodes@), bytes(source@)),
            d.plain_from(depth, set + 1, wanted@) == d.plain_from(depth, j as int, wanted@),
        decreases count - j,
    {
        assert(d.nodes[j as int] == nodes@[j as int]@);
        if let Some(name) = field_name(source, nodes, depth, j) {
            if same(name.as_str(), wanted) && same(
                key_of(source, nodes, j, name.as_str()).as_str(),
                wanted,
            ) && !may_be_left_out(source, nodes, j) {
                return true;
            }
        }
        j = j + 1;
    }
    false
}

/// Whether field `p`, whose name is given, is a `pageInfo` that comes back under a key, with a
/// field in it.
fn asks_for(source: &str, nodes: &Vec<Node>, p: usize, name: &str, key: &str, wanted: &str) -> (r:
    bool)
    requires
        p < nodes@.len(),
        laid_out(node_models(nodes@), bytes(source@)),
        document(source@, nodes@).name(p as int) == Some(name@),
    ensures
        forall|depth: usize|
            #[trigger] document(source@, nodes@).is_field(depth, p as int, name@) ==> r == document(
                source@,
                nodes@,
            ).is_asked(depth, p as int, key@, wanted@),
{
    if !same(name, "pageInfo") || !same(key_of(source, nodes, p, name).as_str(), key)
        || may_be_left_out(source, nodes, p) {
        return false;
    }
    match child_of(nodes, p, Wanted::Kind("SELECTION_SET")) {
        Some(inner) => {
            assert(node_models(nodes@)[inner as int] == nodes@[inner as int]@);
            has_plain(source, nodes, inner, wanted)
        },
        None => false,
    }
}

/// Whether the `pageInfo` of selection set `set` that comes back under a key has a field.
fn is_asked(source: &str, nodes: &Vec<Node>, set: usize, key: &str, wanted: &str) -> (r: bool)
    requires
        set < nodes@.len(),
        laid_out(node_models(nodes@), bytes(source@)),
    ensures
        r == document(source@, nodes@).asked_from(nodes@[set as int].depth, set + 1, key@, wanted@),
{
    let ghost d = document(source@, nodes@);
    let depth = nodes[set].depth;
    let count = nodes.len();
    let mut j: usize = set + 1;
    while j < count && nodes[j].depth > depth
        invariant
            set < j <= count,
            count == nodes@.len(),
            d == document(source@, nodes@),
            depth == nodes@[set as int].depth,
            laid_out(node_models(nodes@), bytes(source@)),
            d.asked_from(depth, set + 1, key@, wanted@) == d.asked_from(
                depth,
                j as int,
                key@,
                wanted@,
            ),
        decreases count - j,
    {
        assert(d.nodes[j as int] == nodes@[j as int]@);
        if let Some(name) = field_name(source, nodes, depth, j) {
            if asks_for(source, nodes, j, name.as_str(), key, wanted) {
                return true;
            }
        }
        j = j + 1;
    }
    false
}

/// What there is to know of the `pageInfo` of a connection.
struct Info {
    key: Option<String>,
    open: Option<usize>,
    lacks_next: bool,
    lacks_cursor: bool,
    vague: bool,
}

/// What there is to know of the `pageInfo` of selection set `set`.
fn read_info(source: &str, nodes: &Vec<Node>, set: usize) -> (r: Info)
    requires
        set < nodes@.len(),
        laid_out(node_models(nodes@), bytes(source@)),
    ensures
        opt_text(r.key) == document(source@, nodes@).info_key(set as int),
        r.open == document(source@, nodes@).info_open(set as int),
        r.lacks_next == document(source@, nodes@).lacks(set as int, "hasNextPage"@),
        r.lacks_cursor == document(source@, nodes@).lacks(set as int, "endCursor"@),
        r.vague == document(source@, nodes@).is_vague(set as int),
{
    let ghost d = document(source@, nodes@);
    assert(d.nodes[set as int] == nodes@[set as int]@);
    match find_page_info(source, nodes, set) {
        Some(p) => {
            let key = key_of(source, nodes, p, "pageInfo");
            let open = match child_of(nodes, p, Wanted::Kind("SELECTION_SET")) {
                Some(inner) => {
                    proof {
                        lemma_child(d.nodes, p as int, Wanted::Kind("SELECTION_SET"));
                        assert(d.nodes[inner as int] == nodes@[inner as int]@);
                        assert(bracketed(d.nodes[inner as int].kind));
                    }
                    Some(nodes[inner].start + 1)
                },
                None => None,
            };
            let lacks_next = open.is_some() && !is_asked(
                source,
                nodes,
                set,
                key.as_str(),
                "hasNextPage",
            );
            let lacks_cursor = open.is_some() && !is_asked(
                source,
                nodes,
                set,
                key.as_str(),
                "endCursor",
            );
            let vague = (lacks_next || lacks_cursor) && may_be_left_out(source, nodes, p);
            Info { key: Some(key), open, lacks_next, lacks_cursor, vague }
        },
        None => Info { key: None, open: None, lacks_next: false, lacks_cursor: false, vague: false },
    }
}

/// The name of node `j`, when it is an argument directly below a node of that depth.
fn argument_name(source: &str, nodes: &Vec<Node>, depth: usize, j: usize) -> (r: Option<String>)
    requires
        j < nodes@.len(),
        nodes@[j as int].depth > depth,
        laid_out(node_models(nodes@), bytes(source@)),
    ensures
        match r {
            Some(name) => document(source@, nodes@).is_argument(depth, j as int, name@),
            None => forall|name: Seq<char>|
                !#[trigger] document(source@, nodes@).is_argument(depth, j as int, name),
        },
{
    assert(node_models(nodes@)[j as int] == nodes@[j as int]@);
    if nodes[j].depth - depth == 1 && same(nodes[j].kind.as_str(), "ARGUMENT") {
        name_of(source, nodes, j)
    } else {
        None
    }
}

/// Whether node `j` is a `first` or `last` argument.
fn is_limit(source: &str, nodes: &Vec<Node>, depth: usize, j: usize) -> (r: bool)
    requires
        j < nodes@.len(),
        nodes@[j as int].depth > depth,
        laid_out(node_models(nodes@), bytes(source@)),
    ensures
        r == document(source@, nodes@).is_limit(depth, j as int),
{
    match argument_name(source, nodes, depth, j) {
        Some(key) => same(key.as_str(), "first") || same(key.as_str(), "last"),
        None => false,
    }
}

/// The span of the value of argument `j`, when that value is `auto`.
fn auto_value(source: &str, nodes: &Vec<Node>, j: usize) -> (r: Option<(usize, usize)>)
    requires
        j < nodes@.len(),
        laid_out(node_models(nodes@), bytes(source@)),
    ensures
        r == document(source@, nodes@).auto_at(j as int),
{
    match child_of(nodes, j, Wanted::Value) {
        Some(v) => {
            assert(node_models(nodes@)[v as int] == nodes@[v as int]@);
            let value = text_of_node(source, nodes, v);
            if same(trim(value.as_str()).as_str(), AUTO) {
                Some((nodes[v].start, nodes[v].end))
            } else {
                None
            }
        },
        None => None,
    }
}

/// The arguments of field `i`, whose name is node `name`.
pub(crate) fn read_args(source: &str, nodes: &Vec<Node>, i: usize, name: usize) -> (r: Args)
    requires
        i < nodes@.len(),
        name < nodes@.len(),
        laid_out(node_models(nodes@), bytes(source@)),
    ensures
        r@ == document(source@, nodes@).args(i as int, name as int),
{
    let ghost d = document(source@, nodes@);
    assert(d.nodes[name as int] == nodes@[name as int]@);
    let open_at = nodes[name].end;
    let a = match child_of(nodes, i, Wanted::Kind("ARGUMENTS")) {
        Some(a) => a,
        None => {
            return Args { open_at, close_at: None, auto_spans: Vec::new(), has_limit: false };
        },
    };
    proof {
        lemma_child(d.nodes, i as int, Wanted::Kind("ARGUMENTS"));
        assert(d.nodes[a as int] == nodes@[a as int]@);
        assert(bracketed(d.nodes[a as int].kind));
    }
    let depth = nodes[a].depth;
    let count = nodes.len();
    let mut has_limit = false;
    let mut auto_spans: Vec<(usize, usize)> = Vec::new();
    let mut j: usize = a + 1;
    assert(auto_spans@ + d.auto_from(depth, a + 1) =~= d.auto_from(depth, a + 1));
    while j < count && nodes[j].depth > depth
        invariant
            a < j <= count,
            count == nodes@.len(),
            d == document(source@, nodes@),
            laid_out(node_models(nodes@), bytes(source@)),
            d.limit_from(depth, a + 1) == (has_limit || d.limit_from(depth, j as int)),
            d.auto_from(depth, a + 1) == auto_spans@ + d.auto_from(depth, j as int),
        decreases count - j,
    {
        assert(d.nodes[j as int] == nodes@[j as int]@);
        let ghost done = auto_spans@;
        if is_limit(source, nodes, depth, j) {
            has_limit = true;
            if let Some(span) = auto_value(source, nodes, j) {
                auto_spans.push(span);
            }
        }
        assert(auto_spans@ + d.auto_from(depth, j + 1) =~= done + d.auto_from(depth, j as int));
        j = j + 1;
    }
    assert(auto_spans@ + Seq::<(usize, usize)>::empty() =~= auto_spans@);
    Args { open_at, close_at: Some(nodes[a].end - 1), auto_spans, has_limit }
}

/// The variable that the user gave as `after` argument of field `i`.
pub(crate) fn read_after_var(source: &str, nodes: &Vec<Node>, i: usize) -> (r: Option<String>)
    requires
        i < nodes@.len(),
        laid_out(node_models(nodes@), bytes(source@)),
    ensures
        opt_text(r) == document(source@, nodes@).after_var(i as int),
{
    let ghost d = document(source@, nodes@);
    let a = match child_of(nodes, i, Wanted::Kind("ARGUMENTS")) {
        Some(a) => a,
        None => {
            return None;
        },
    };
    let depth = nodes[a].depth;
    let count = nodes.len();
    let mut j: usize = a + 1;
    while j < count && nodes[j].depth > depth
        invariant
            a < j <= count,
            count == nodes@.len(),
            d == document(source@, nodes@),
            depth == nodes@[a as int].depth,
            laid_out(node_models(nodes@), bytes(source@)),
            d.after_var(i as int) == d.after_from(depth, j as int),
        decreases count - j,
    {
        assert(d.nodes[j as int] == nodes@[j as int]@);
        if let Some(key) = argument_name(source, nodes, depth, j) {
            if same(key.as_str(), "after") {
                if let Some(v) = child_of(nodes, j, Wanted::Value) {
                    assert(d.nodes[v as int] == nodes@[v as int]@);
                    if same(nodes[v].kind.as_str(), "VARIABLE") {
                        return name_of(source, nodes, v);
                    }
                }
            }
        }
        j = j + 1;
    }
    None
}

/// The text of field `i` up to (but excluding) its selection set: `repository(owner: "x")`.
fn field_header(source: &str, nodes: &Vec<Node>, i: usize, set: usize) -> (r: String)
    requires
        i < nodes@.len(),
        set < nodes@.len(),
        nodes@[i as int].start <= nodes@[set as int].start,
        laid_out(node_models(nodes@), bytes(source@)),
    ensures
        r@ == document(source@, nodes@).header(i as int, set as int),
{
    assert(node_models(nodes@)[i as int] == nodes@[i as int]@);
    assert(node_models(nodes@)[set as int] == nodes@[set as int]@);
    trim_end(cut(source, nodes[i].start, nodes[set].start))
}

/// The same strings again.
fn copies(strings: &Vec<String>) -> (r: Vec<String>)
    ensures
        texts(r@) == texts(strings@),
{
    let mut r: Vec<String> = Vec::new();
    for i in 0..strings.len()
        invariant
            texts(r@) == texts(strings@).take(i as int),
    {
        let ghost done = texts(r@);
        r.push(strings[i].clone());
        assert(texts(r@) =~= done.push(strings@[i as int]@));
    }
    assert(texts(strings@).take(strings@.len() as int) =~= texts(strings@));
    r
}

/// The strings, and one more.
fn extended(strings: &Vec<String>, last: String) -> (r: Vec<String>)
    ensures
        texts(r@) == texts(strings@).push(last@),
{
    let mut r = copies(strings);
    let ghost done = texts(r@);
    r.push(last);
    assert(texts(r@) =~= done.push(last@));
    r
}

/// What is wrong with the fragment spread at node `j`.
fn spread_fault(source: &str, nodes: &Vec<Node>, j: usize) -> (r: String)
    requires
        j < nodes@.len(),
        laid_out(node_models(nodes@), bytes(source@)),
    ensures
        r@ == document(source@, nodes@).spread_message(j as int),
{
    let name = fragment_name(source, nodes, j);
    let mut r = "fragment spread `...".to_owned();
    match name {
        Some(text) => r.append(text.as_str()),
        None => {
            assert("fragment spread `..."@ + Seq::<char>::empty() =~= "fragment spread `..."@);
        },
    }
    r.append("` — gqlfreez cannot yet read a connection through a fragment; inline it for now");
    r
}

/// Whether a connection with these arguments is to be walked to the end.
pub(crate) fn walked(args: &Args, user_cursor_var: &Option<String>) -> (r: bool)
    ensures
        r == (!args@.has_limit || args@.auto_spans.len() > 0 || opt_text(*user_cursor_var) is Some),
{
    !args.has_limit || args.auto_spans.len() > 0 || user_cursor_var.is_some()
}

/// Whether there is a connection to be walked to the end below node `k`, at any distance.
fn holds_open(source: &str, nodes: &Vec<Node>, survey: &Survey, k: usize) -> (r: bool)
    requires
        k < nodes@.len(),
        surveyed(*survey, document(source@, nodes@)),
    ensures
        r == document(source@, nodes@).open_from(nodes@[k as int].depth, k + 1),
{
    let ghost d = document(source@, nodes@);
    let depth = nodes[k].depth;
    let count = nodes.len();
    let mut f: usize = k + 1;
    while f < count && nodes[f].depth > depth
        invariant
            k < f <= count,
            count == nodes@.len(),
            d == document(source@, nodes@),
            surveyed(*survey, d),
            depth == nodes@[k as int].depth,
            d.open_from(depth, k + 1) == d.open_from(depth, f as int),
        decreases count - f,
    {
        assert(d.nodes[f as int] == nodes@[f as int]@);
        assert(survey.opens@[f as int] == d.is_open(f as int));
        if survey.opens[f] {
            return true;
        }
        f = f + 1;
    }
    false
}

/// The first spread below node `k`, at any distance, that brings such a connection along.
fn find_laden(source: &str, nodes: &Vec<Node>, survey: &Survey, k: usize) -> (r: Option<usize>)
    requires
        k < nodes@.len(),
        surveyed(*survey, document(source@, nodes@)),
    ensures
        match r {
            Some(f) => document(source@, nodes@).laden_from(nodes@[k as int].depth, k + 1) == Some(
                f as int,
            ) && f < nodes@.len(),
            None => document(source@, nodes@).laden_from(nodes@[k as int].depth, k + 1) is None,
        },
{
    let ghost d = document(source@, nodes@);
    let depth = nodes[k].depth;
    let count = nodes.len();
    let mut f: usize = k + 1;
    while f < count && nodes[f].depth > depth
        invariant
            k < f <= count,
            count == nodes@.len(),
            d == document(source@, nodes@),
            surveyed(*survey, d),
            depth == nodes@[k as int].depth,
            d.laden_from(depth, k + 1) == d.laden_from(depth, f as int),
        decreases count - f,
    {
        assert(d.nodes[f as int] == nodes@[f as int]@);
        assert(survey.laden@[f as int] == d.is_laden(f as int));
        if survey.laden[f] {
            return Some(f);
        }
        f = f + 1;
    }
    None
}

/// The key of the first list field of selection set `set` with a connection to be walked to
/// the end below it.
fn read_crowded(source: &str, nodes: &Vec<Node>, survey: &Survey, set: usize) -> (r: Option<String>)
    requires
        set < nodes@.len(),
        laid_out(node_models(nodes@), bytes(source@)),
        surveyed(*survey, document(source@, nodes@)),
    ensures
        opt_text(r) == document(source@, nodes@).crowded_from(nodes@[set as int].depth, set + 1),
{
    let ghost d = document(source@, nodes@);
    let depth = nodes[set].depth;
    let count = nodes.len();
    let mut j: usize = set + 1;
    while j < count && nodes[j].depth > depth
        invariant
            set < j <= count,
            count == nodes@.len(),
            d == document(source@, nodes@),
            laid_out(node_models(nodes@), bytes(source@)),
            surveyed(*survey, d),
            depth == nodes@[set as int].depth,
            d.crowded_from(depth, set + 1) == d.crowded_from(depth, j as int),
        decreases count - j,
    {
        assert(d.nodes[j as int] == nodes@[j as int]@);
        if let Some(list) = read_list(source, nodes, depth, j) {
            if holds_open(source, nodes, survey, j) {
                return Some(list.1);
            }
        }
        j = j + 1;
    }
    None
}

/// What a connection behind a list is answered.
pub(crate) fn listed_fault(path: &Vec<String>) -> (r: String)
    ensures
        r@ == listed_message(texts(path@)),
{
    let mut r = join(path, ".");
    r.append(
        ": a list sits on the path to this connection — gqlfreez cannot paginate a connection nested inside a list",
    );
    r
}

/// What keeps field `i`, a connection at that path with selection set `set` and those list
/// fields, from being frozen whole, given whether it is to be walked and whether its `pageInfo`
/// cannot be relied on.
fn find_hindrance(
    source: &str,
    nodes: &Vec<Node>,
    survey: &Survey,
    i: usize,
    set: usize,
    lists: &Vec<(ListField, String)>,
    path: &Vec<String>,
    paginate: bool,
    vague: bool,
) -> (r: Option<String>)
    requires
        i < nodes@.len(),
        set < nodes@.len(),
        laid_out(node_models(nodes@), bytes(source@)),
        surveyed(*survey, document(source@, nodes@)),
        list_models(lists@) == document(source@, nodes@).lists_from(
            nodes@[set as int].depth,
            set + 1,
        ),
        vague == document(source@, nodes@).is_vague(set as int),
    ensures
        forall|name: int|
            paginate == #[trigger] document(source@, nodes@).unlimited(i as int, name)
                ==> opt_text(r) == document(source@, nodes@).hindrance(
                i as int,
                name,
                set as int,
                texts(path@),
            ),
{
    assert(node_models(nodes@)[set as int] == nodes@[set as int]@);
    if let Some(list) = read_crowded(source, nodes, survey, set) {
        return Some(listed_fault(&extended(path, list)));
    }
    if holds_open(source, nodes, survey, set) {
        let mut message = join(path, ".");
        message.append(
            ": a connection sits inside this one — gqlfreez cannot paginate a connection nested inside another; give the inner one a limit",
        );
        return Some(message);
    }
    if let Some(j) = find_laden(source, nodes, survey, set) {
        return Some(spread_fault(source, nodes, j));
    }
    if !paginate {
        return None;
    }
    if find_odd_list(source, nodes, &survey.parts, i, set, lists) {
        let mut message = join(path, ".");
        message.append(
            ": a fragment selects another list of this connection — gqlfreez cannot yet read a connection through a fragment; inline it for now",
        );
        return Some(message);
    }
    if vague {
        let mut message = join(path, ".");
        message.append(
            ": `pageInfo` has to come back with every page — take @skip or @include off it",
        );
        return Some(message);
    }
    None
}

/// The connections below field `i`: itself when it is one, else those among its selections.
fn below(
    source: &str,
    nodes: &Vec<Node>,
    survey: &Survey,
    i: usize,
    path: &Vec<String>,
    ancestors: &Vec<String>,
) -> (r: Result<Vec<Connection>, String>)
    requires
        i < nodes@.len(),
        laid_out(node_models(nodes@), bytes(source@)),
        surveyed(*survey, document(source@, nodes@)),
    ensures
        match r {
            Ok(found) => document(source@, nodes@).below(i as int, texts(path@), texts(ancestors@))
                == Ok::<_, Seq<char>>(connection_models(found@)),
            Err(message) => document(source@, nodes@).below(
                i as int,
                texts(path@),
                texts(ancestors@),
            ) == Err::<Seq<ConnectionModel>, _>(message@),
        },
    decreases nodes@.len() - i, 0int,
{
    let ghost d = document(source@, nodes@);
    let name = match child_of(nodes, i, Wanted::Kind("NAME")) {
        Some(n) => n,
        None => {
            assert(connection_models(seq![]) =~= seq![]);
            return Ok(Vec::new());
        },
    };
    let set = match child_of(nodes, i, Wanted::Kind("SELECTION_SET")) {
        Some(n) => n,
        None => {
            assert(connection_models(seq![]) =~= seq![]);
            return Ok(Vec::new());
        },
    };
    proof {
        lemma_child(d.nodes, i as int, Wanted::Kind("SELECTION_SET"));
        lemma_inside(d.nodes, i as int, set as int);
        assert(d.nodes[i as int] == nodes@[i as int]@);
        assert(d.nodes[set as int] == nodes@[set as int]@);
    }
    let schema_name = text_of_node(source, nodes, name);
    let key = key_of(source, nodes, i, schema_name.as_str());
    let lists = read_lists(source, nodes, set);
    let inner_path = extended(path, key);
    if lists.len() == 0 {
        // Not a connection: keep walking down, carrying this field as an ancestor.
        let inner_ancestors = extended(ancestors, field_header(source, nodes, i, set));
        walk(source, nodes, survey, set, &inner_path, &inner_ancestors)
    } else {
        let args = read_args(source, nodes, i, name);
        let user_cursor_var = read_after_var(source, nodes, i);
        let paginate = walked(&args, &user_cursor_var);
        let info = read_info(source, nodes, set);
        assert(paginate == d.unlimited(i as int, name as int));
        if let Some(message) = find_hindrance(
            source,
            nodes,
            survey,
            i,
            set,
            &lists,
            &inner_path,
            paginate,
            info.vague,
        ) {
            return Err(message);
        }
        let found = Connection {
            path: inner_path,
            lists,
            page_info_key: info.key,
            page_info_open: info.open,
            lacks_next: info.lacks_next,
            lacks_cursor: info.lacks_cursor,
            paginate,
            field_span: (nodes[i].start, nodes[i].end),
            args,
            selection_span: (nodes[set].start, nodes[set].end),
            ancestors: copies(ancestors),
            user_cursor_var,
        };
        let mut r: Vec<Connection> = Vec::new();
        r.push(found);
        assert(connection_models(r@) =~= seq![
            d.connection(i as int, name as int, set as int, texts(path@), texts(ancestors@)),
        ]);
        Ok(r)
    }
}

/// The connections among the selections of set `set`, in reading order.
fn walk(
    source: &str,
    nodes: &Vec<Node>,
    survey: &Survey,
    set: usize,
    path: &Vec<String>,
    ancestors: &Vec<String>,
) -> (r: Result<Vec<Connection>, String>)
    requires
        set < nodes@.len(),
        laid_out(node_models(nodes@), bytes(source@)),
        surveyed(*survey, document(source@, nodes@)),
    ensures
        match r {
            Ok(found) => document(source@, nodes@).walk(
                nodes@[set as int].depth,
                set + 1,
                texts(path@),
                texts(ancestors@),
            ) == Ok::<_, Seq<char>>(connection_models(found@)),
            Err(message) => document(source@, nodes@).walk(
                nodes@[set as int].depth,
                set + 1,
                texts(path@),
                texts(ancestors@),
            ) == Err::<Seq<ConnectionModel>, _>(message@),
        },
    decreases nodes@.len() - set, 1int,
{
    let ghost d = document(source@, nodes@);
    let ghost p = texts(path@);
    let ghost a = texts(ancestors@);
    let depth = nodes[set].depth;
    let count = nodes.len();
    let mut found: Vec<Connection> = Vec::new();
    let mut j: usize = set + 1;
    proof {
        if let Ok(more) = d.walk(depth, j as int, p, a) {
            assert(connection_models(found@) + more =~= more);
        }
    }
    while j < count && nodes[j].depth > depth
        invariant
            set < j <= count,
            count == nodes@.len(),
            d == document(source@, nodes@),
            p == texts(path@),
            a == texts(ancestors@),
            depth == nodes@[set as int].depth,
            laid_out(node_models(nodes@), bytes(source@)),
            surveyed(*survey, d),
            d.walk(depth, set + 1, p, a) == with_before(
                connection_models(found@),
                d.walk(depth, j as int, p, a),
            ),
        decreases count - j,
    {
        assert(d.nodes[j as int] == nodes@[j as int]@);
        let ghost done = connection_models(found@);
        proof {
            reveal_strlit("FIELD");
            reveal_strlit("FRAGMENT_SPREAD");
            reveal_strlit("INLINE_FRAGMENT");
            assert("FIELD"@.len() == 5);
            assert("FRAGMENT_SPREAD"@[0] != "INLINE_FRAGMENT"@[0]);
        }
        if nodes[j].depth - depth == 1 {
            if same(nodes[j].kind.as_str(), "FRAGMENT_SPREAD") {
                return Err(spread_fault(source, nodes, j));
            } else if same(nodes[j].kind.as_str(), "INLINE_FRAGMENT") {
                return Err(
                    "inline fragment — gqlfreez cannot yet read a connection through a fragment; inline it for now".to_owned(),
                );
            } else if same(nodes[j].kind.as_str(), "FIELD") {
                match below(source, nodes, survey, j, path, ancestors) {
                    Ok(mut here) => {
                        let ghost fresh = connection_models(here@);
                        found.append(&mut here);
                        assert(connection_models(found@) =~= done + fresh);
                        proof {
                            match d.walk(depth, j + 1, p, a) {
                                Ok(rest) => assert((done + fresh) + rest =~= done + (fresh + rest)),
                                Err(_) => {},
                            }
                        }
                    },
                    Err(message) => {
                        return Err(message);
                    },
                }
            }
        }
        j = j + 1;
    }
    assert(connection_models(found@) + Seq::<ConnectionModel>::empty() =~= connection_models(
        found@,
    ));
    Ok(found)
}

/// The operations of a document.
fn find_operations(source: &str, nodes: &Vec<Node>) -> (r: Vec<usize>)
    requires
        nodes@.len() > 0,
    ensures
        indices(r@) == document(source@, nodes@).operations(),
        forall|i: int| 0 <= i < r@.len() ==> 0 < #[trigger] r@[i] < nodes@.len(),
{
    let ghost d = document(source@, nodes@);
    assert(d.nodes[0] == nodes@[0]@);
    let depth = nodes[0].depth;
    let count = nodes.len();
    let mut r: Vec<usize> = Vec::new();
    let mut j: usize = 1;
    assert(indices(r@) + d.operations() =~= d.operations());
    while j < count && nodes[j].depth > depth
        invariant
            1 <= j <= count,
            count == nodes@.len(),
            d == document(source@, nodes@),
            depth == d.nodes[0].depth,
            forall|i: int| 0 <= i < r@.len() ==> 0 < #[trigger] r@[i] < nodes@.len(),
            d.operations() == indices(r@) + d.operations_from(j as int),
        decreases count - j,
    {
        assert(d.nodes[j as int] == nodes@[j as int]@);
        let ghost done = indices(r@);
        if nodes[j].depth - depth == 1 && same(nodes[j].kind.as_str(), "OPERATION_DEFINITION") {
            r.push(j);
            assert(indices(r@) =~= done.push(j as int));
        }
        assert(indices(r@) + d.operations_from(j + 1) =~= done + d.operations_from(j as int));
        j = j + 1;
    }
    assert(indices(r@) + Seq::<int>::empty() =~= indices(r@));
    r
}

/// The names of operations, for a message.
fn names_of(source: &str, nodes: &Vec<Node>, operations: &Vec<usize>) -> (r: Vec<String>)
    requires
        nodes@.len() > 0,
        laid_out(node_models(nodes@), bytes(source@)),
        indices(operations@) == document(source@, nodes@).operations(),
        forall|i: int| 0 <= i < operations@.len() ==> 0 < #[trigger] operations@[i] < nodes@.len(),
    ensures
        texts(r@) == document(source@, nodes@).operation_names(),
{
    let ghost d = document(source@, nodes@);
    let mut r: Vec<String> = Vec::new();
    for i in 0..operations.len()
        invariant
            d == document(source@, nodes@),
            laid_out(node_models(nodes@), bytes(source@)),
            indices(operations@) == d.operations(),
            forall|k: int|
                0 <= k < operations@.len() ==> 0 < #[trigger] operations@[k] < nodes@.len(),
            texts(r@) == d.operation_names().take(i as int),
    {
        let ghost done = texts(r@);
        assert(indices(operations@)[i as int] == operations@[i as int]);
        let name = match name_of(source, nodes, operations[i]) {
            Some(name) => name,
            None => "<anonymous>".to_owned(),
        };
        r.push(name);
        assert(texts(r@) =~= done.push(name@));
    }
    assert(d.operation_names().take(operations@.len() as int) =~= d.operation_names());
    r
}

/// Where operation `op`, with selection set `set`, can declare one more variable.
fn read_var_insert(source: &str, nodes: &Vec<Node>, op: usize, set: usize) -> (r: VarInsert)
    requires
        op < nodes@.len(),
        set < nodes@.len(),
        laid_out(node_models(nodes@), bytes(source@)),
    ensures
        r == document(source@, nodes@).var_insert(op as int, set as int),
{
    let ghost d = document(source@, nodes@);
    assert(forall|i: int| 0 <= i < nodes@.len() ==> d.nodes[i] == (#[trigger] nodes@[i])@);
    if let Some(vars) = child_of(nodes, op, Wanted::Kind("VARIABLE_DEFINITIONS")) {
        proof {
            lemma_child(d.nodes, op as int, Wanted::Kind("VARIABLE_DEFINITIONS"));
            assert(bracketed(d.nodes[vars as int].kind));
        }
        VarInsert::Extend(nodes[vars].end - 1)
    } else if let Some(ty) = child_of(nodes, op, Wanted::Kind("OPERATION_TYPE")) {
        match child_of(nodes, op, Wanted::Kind("NAME")) {
            Some(name) => VarInsert::After(nodes[name].end),
            None => VarInsert::After(nodes[ty].end),
        }
    } else {
        VarInsert::Shorthand(nodes[set].start)
    }
}

/// What several operations in one file are answered.
fn several(source: &str, nodes: &Vec<Node>, operations: &Vec<usize>) -> (r: String)
    requires
        nodes@.len() > 0,
        laid_out(node_models(nodes@), bytes(source@)),
        indices(operations@) == document(source@, nodes@).operations(),
        forall|i: int| 0 <= i < operations@.len() ==> 0 < #[trigger] operations@[i] < nodes@.len(),
    ensures
        r@ == "this file holds "@ + decimal(operations@.len()) + " operations ("@ + joined(
            document(source@, nodes@).operation_names(),
            ", "@,
        ) + ") — gqlfreez expects one operation per file"@,
{
    let mut r = "this file holds ".to_owned();
    r.append(write_decimal(operations.len() as u64).as_str());
    r.append(" operations (");
    r.append(join(&names_of(source, nodes, operations), ", ").as_str());
    r.append(") — gqlfreez expects one operation per file");
    r
}

/// Whether a connection to paginate has that `auto` among its arguments.
fn is_claimed(connections: &Vec<Connection>, span: (usize, usize)) -> (r: bool)
    ensures
        r == claimed(connection_models(connections@), span),
{
    let ghost models = connection_models(connections@);
    for k in 0..connections.len()
        invariant
            models == connection_models(connections@),
            forall|m: int|
                0 <= m < k ==> !((#[trigger] models[m]).paginate
                    && models[m].args.auto_spans.contains(span)),
    {
        assert(models[k as int] == connections@[k as int]@);
        let conn = &connections[k];
        if conn.paginate {
            let spans = &conn.args.auto_spans;
            for i in 0..spans.len()
                invariant
                    k < connections@.len(),
                    models == connection_models(connections@),
                    models[k as int].paginate,
                    models[k as int].args.auto_spans == spans@,
                    forall|m: int| 0 <= m < i ==> #[trigger] spans@[m] != span,
            {
                if spans[i].0 == span.0 && spans[i].1 == span.1 {
                    assert(spans@[i as int] == span);
                    assert(models[k as int].args.auto_spans.contains(span));
                    return true;
                }
            }
        }
    }
    false
}

/// The first `auto` that is not an argument of a connection to paginate.
fn find_stray(source: &str, nodes: &Vec<Node>, connections: &Vec<Connection>) -> (r: Option<usize>)
    requires
        laid_out(node_models(nodes@), bytes(source@)),
    ensures
        match r {
            Some(j) => document(source@, nodes@).stray_from(connection_models(connections@), 0)
                == Some(j as int) && j < nodes@.len(),
            None => document(source@, nodes@).stray_from(
                connection_models(connections@),
                0,
            ) is None,
        },
{
    let ghost d = document(source@, nodes@);
    let ghost models = connection_models(connections@);
    let count = nodes.len();
    let mut j: usize = 0;
    while j < count
        invariant
            j <= count,
            count == nodes@.len(),
            d == document(source@, nodes@),
            models == connection_models(connections@),
            laid_out(node_models(nodes@), bytes(source@)),
            d.stray_from(models, 0) == d.stray_from(models, j as int),
        decreases count - j,
    {
        assert(d.nodes[j as int] == nodes@[j as int]@);
        if same(nodes[j].kind.as_str(), "ARGUMENT") {
            if let Some(name) = name_of(source, nodes, j) {
                if same(name.as_str(), "first") || same(name.as_str(), "last") {
                    if let Some(span) = auto_value(source, nodes, j) {
                        if !is_claimed(connections, span) {
                            return Some(j);
                        }
                    }
                }
            }
        }
        j = j + 1;
    }
    None
}

/// What there is to know of a document whose tree is given.
pub fn analyze_nodes(source: &str, nodes: &Vec<Node>, path: &str) -> (r: Result<Analysis, Error>)
    requires
        laid_out(node_models(nodes@), bytes(source@)),
    ensures
        match document(source@, nodes@).analysis() {
            Ok(analysis) => r is Ok && r->Ok_0@ == analysis && analysis_fits(analysis),
            Err(message) => r is Err && r->Err_0@ == (ErrorModel::Query { path: path@, message }),
        },
{
    let ghost d = document(source@, nodes@);
    proof {
        d.lemma_analysis_fits();
    }
    if nodes.len() == 0 {
        assert(connection_models(seq![]) =~= seq![]);
        return Ok(
            Analysis {
                kind: Kind::Empty,
                operation_name: None,
                connections: Vec::new(),
                var_insert: None,
                source: source.to_owned(),
            },
        );
    }
    let operations = find_operations(source, nodes);
    if operations.len() == 0 {
        let fragments = child_of(nodes, 0, Wanted::Kind("FRAGMENT_DEFINITION")).is_some();
        assert(connection_models(seq![]) =~= seq![]);
        return Ok(
            Analysis {
                kind: if fragments {
                    Kind::FragmentsOnly
                } else {
                    Kind::Empty
                },
                operation_name: None,
                connections: Vec::new(),
                var_insert: None,
                source: source.to_owned(),
            },
        );
    }
    if operations.len() > 1 {
        return Err(
            Error::Query { path: path.to_owned(), message: several(source, nodes, &operations) },
        );
    }
    let op = operations[0];
    assert(indices(operations@)[0] == op);
    let set = match child_of(nodes, op, Wanted::Kind("SELECTION_SET")) {
        Some(set) => set,
        None => {
            return Err(
                Error::Query {
                    path: path.to_owned(),
                    message: "the operation has no selection set".to_owned(),
                },
            );
        },
    };
    assert(d.nodes[set as int] == nodes@[set as int]@);
    let top: Vec<String> = Vec::new();
    assert(texts(top@) =~= seq![]);
    match walk(source, nodes, &survey(source, nodes), set, &top, &top) {
        Ok(connections) => {
            // `auto` never leaves the machine.
            if let Some(j) = find_stray(source, nodes, &connections) {
                let mut message = three("`", text_of_node(source, nodes, j).as_str(), "`");
                message.append(
                    " — `auto` stands for the page size of a connection that gqlfreez paginates; write a number here",
                );
                return Err(Error::Query { path: path.to_owned(), message });
            }
            Ok(
                Analysis {
                    kind: Kind::Operation,
                    operation_name: name_of(source, nodes, op),
                    connections,
                    var_insert: Some(read_var_insert(source, nodes, op, set)),
                    source: source.to_owned(),
                },
            )
        },
        Err(message) => Err(Error::Query { path: path.to_owned(), message }),
    }
}

/// What there is to know of a source, given what the parser makes of it; or what is wrong
/// with it.
pub open spec fn source_analysis(
    source: Seq<char>,
    tree: Result<Seq<NodeModel>, (usize, Seq<char>)>,
) -> Result<AnalysisModel, Seq<char>> {
    match tree {
        Ok(nodes) => (Document { source, nodes }).analysis(),
        Err((index, message)) => Err(
            "syntax error at byte "@ + decimal(index as nat) + ": "@ + message,
        ),
    }
}

/// Parses a query file and finds its connections.
pub fn analyze(source: &str, path: &str) -> (r: Result<Analysis, Error>)
    requires
        bytes(source@).len() <= u32::MAX,
    ensures
        match source_analysis(source@, parsed(source@)) {
            Ok(analysis) => r is Ok && r->Ok_0@ == analysis && analysis_fits(analysis),
            Err(message) => r is Err && r->Err_0@ == (ErrorModel::Query { path: path@, message }),
        },
{
    match parse(source) {
        Ok(nodes) => analyze_nodes(source, &nodes, path),
        // The parser is error-resilient and always returns a tree: without this a file with a
        // stray brace would look like "no operation" and be skipped in silence.
        Err(fault) => {
            let mut message = "syntax error at byte ".to_owned();
            message.append(write_decimal(fault.index as u64).as_str());
            message.append(": ");
            message.append(fault.message.as_str());
            Err(Error::Query { path: path.to_owned(), message })
        },
    }
}

// ---------------------------------------------------------------------------------------
// Rewriting
// ---------------------------------------------------------------------------------------
/// Whether the places that a connection names can be edited: its name, its arguments and its
/// selection set lie in its field, apart from one another.
pub open spec fn connection_fits(source: Seq<u8>, c: ConnectionModel) -> bool {
    let (open, end) = c.selection_span;
    &&& c.field_span.0 <= c.field_span.1 <= source.len()
    &&& is_char_boundary(source, c.field_span.0 as int)
    &&& is_char_boundary(source, c.field_span.1 as int)
    &&& c.field_span.0 < c.args.open_at <= c.field_span.1
    &&& is_char_boundary(source, c.args.open_at as int)
    &&& c.args.open_at <= open || end <= c.args.open_at
    &&& c.field_span.0 <= open
    &&& open + 2 <= end <= c.field_span.1
    &&& is_char_boundary(source, open + 1)
    &&& c.args.close_at matches Some(close) ==> {
        &&& c.field_span.0 < close <= c.field_span.1
        &&& is_char_boundary(source, close as int)
        &&& close <= open || end <= close
    }
    &&& c.page_info_open matches Some(at) ==> open + 1 < at < end && is_char_boundary(
        source,
        at as int,
    )
    &&& forall|i: int|
        0 <= i < c.args.auto_spans.len() ==> {
            let auto = #[trigger] c.args.auto_spans[i];
            &&& c.args.close_at is Some
            &&& c.field_span.0 < auto.0 < auto.1 <= c.args.close_at->0
            &&& is_char_boundary(source, auto.0 as int)
            &&& is_char_boundary(source, auto.1 as int)
            &&& auto.1 <= open || end <= auto.0
        }
    &&& one_by_one(c.args.auto_spans)
}

/// Whether spans follow one another.
pub open spec fn one_by_one(spans: Seq<(usize, usize)>) -> bool {
    forall|i: int, j: int|
        0 <= i < j < spans.len() ==> (#[trigger] spans[i]).1 <= (#[trigger] spans[j]).0
}

impl VarInsert {
    /// The offset at which the variables are declared.
    pub open spec fn at(self) -> usize {
        match self {
            VarInsert::Extend(at) => at,
            VarInsert::After(at) => at,
            VarInsert::Shorthand(at) => at,
        }
    }
}

/// Whether the places that an analysis names can be edited together: connections follow one
/// another, and variables are declared outside of them.
pub open spec fn analysis_fits(a: AnalysisModel) -> bool {
    let b = bytes(a.source);
    &&& forall|i: int|
        0 <= i < a.connections.len() ==> connection_fits(b, #[trigger] a.connections[i])
    &&& in_sequence(a.connections)
    &&& a.var_insert matches Some(v) ==> {
        &&& v.at() <= b.len()
        &&& is_char_boundary(b, v.at() as int)
        &&& forall|i: int|
            0 <= i < a.connections.len() ==> v.at() < (
            #[trigger] a.connections[i]).field_span.0 || a.connections[i].field_span.1 < v.at()
    }
}

/// Whether connections follow one another in the source.
pub open spec fn in_sequence(connections: Seq<ConnectionModel>) -> bool {
    forall|i: int, j: int|
        0 <= i < j < connections.len() ==> (#[trigger] connections[i]).field_span.1 <= (
        #[trigger] connections[j]).field_span.0
}

impl Document {
    /// The span of an `auto` limit lies in its argument, and is not empty.
    proof fn lemma_auto_at(self, a: int, j: int)
        requires
            laid_out(self.nodes, bytes(self.source)),
            under(self.nodes, a, j),
            bracketed(self.nodes[a].kind),
        ensures
            self.auto_at(j) matches Some(auto) ==> {
                &&& self.nodes[a].start < auto.0 < auto.1 < self.nodes[a].end
                &&& self.nodes[j].start <= auto.0
                &&& auto.1 <= self.nodes[j].end
                &&& is_char_boundary(bytes(self.source), auto.0 as int)
                &&& is_char_boundary(bytes(self.source), auto.1 as int)
            },
    {
        if self.auto_at(j) is Some {
            let v = child(self.nodes, j, Wanted::Value)->0;
            lemma_child(self.nodes, j, Wanted::Value);
            assert(under(self.nodes, a, v)) by {
                assert forall|k: int| a < k <= v implies (#[trigger] self.nodes[k]).depth
                    > self.nodes[a].depth by {}
            }
            lemma_inside(self.nodes, a, v);
            lemma_inside(self.nodes, j, v);
            reveal_strlit("auto");
            if self.nodes[v].start == self.nodes[v].end {
                let t = node_text(self.source, self.nodes[v]);
                assert(bytes(self.source).subrange(
                    self.nodes[v].start as int,
                    self.nodes[v].end as int,
                ) =~= seq![]);
                assert(t.len() == 0);
                assert(trimmed(t).len() == 0);
                assert(false);
            }
        }
    }

    /// The spans of the `auto` limits lie below the arguments and follow one another.
    proof fn lemma_auto(self, a: int, j: int, low: int)
        requires
            laid_out(self.nodes, bytes(self.source)),
            0 <= a < j <= self.nodes.len(),
            forall|k: int| a < k < j ==> (#[trigger] self.nodes[k]).depth > self.nodes[a].depth,
            bracketed(self.nodes[a].kind),
            forall|k: int|
                j <= k && under(self.nodes, a, k) && self.nodes[k].depth == self.nodes[a].depth + 1
                    ==> low <= (#[trigger] self.nodes[k]).start,
        ensures
            one_by_one(self.auto_from(self.nodes[a].depth, j)),
            forall|i: int|
                0 <= i < self.auto_from(self.nodes[a].depth, j).len() ==> {
                    let auto = #[trigger] self.auto_from(self.nodes[a].depth, j)[i];
                    &&& self.nodes[a].start < auto.0 < auto.1 < self.nodes[a].end
                    &&& low <= auto.0
                    &&& is_char_boundary(bytes(self.source), auto.0 as int)
                    &&& is_char_boundary(bytes(self.source), auto.1 as int)
                },
        decreases self.nodes.len() - j,
    {
        let depth = self.nodes[a].depth;
        if !self.over(depth, j) {
            if self.auto_limit(depth, j) is Some {
                assert(under(self.nodes, a, j));
                self.lemma_auto_at(a, j);
                assert forall|k: int|
                    j + 1 <= k && under(self.nodes, a, k) && self.nodes[k].depth == depth
                        + 1 implies self.nodes[j].end <= (#[trigger] self.nodes[k]).start by {
                    lemma_after(self.nodes, j, k);
                }
                self.lemma_auto(a, j + 1, self.nodes[j].end as int);
                let rest = self.auto_from(depth, j + 1);
                let all = self.auto_from(depth, j);
                assert forall|i: int| 0 < i < all.len() implies #[trigger] all[i] == rest[i - 1] by {}
            } else {
                self.lemma_auto(a, j + 1, low);
            }
        }
    }

    /// A connection in the tree of a source can be edited.
    proof fn lemma_connection_fits(
        self,
        i: int,
        path: Seq<Seq<char>>,
        ancestors: Seq<Seq<char>>,
    )
        requires
            laid_out(self.nodes, bytes(self.source)),
            0 <= i < self.nodes.len(),
            child(self.nodes, i, Wanted::Kind("NAME")) is Some,
            child(self.nodes, i, Wanted::Kind("SELECTION_SET")) is Some,
        ensures
            connection_fits(
                bytes(self.source),
                self.connection(
                    i,
                    child(self.nodes, i, Wanted::Kind("NAME"))->0,
                    child(self.nodes, i, Wanted::Kind("SELECTION_SET"))->0,
                    path,
                    ancestors,
                ),
            ),
    {
        let name = child(self.nodes, i, Wanted::Kind("NAME"))->0;
        let set = child(self.nodes, i, Wanted::Kind("SELECTION_SET"))->0;
        lemma_child(self.nodes, i, Wanted::Kind("NAME"));
        lemma_child(self.nodes, i, Wanted::Kind("SELECTION_SET"));
        lemma_inside(self.nodes, i, name);
        lemma_inside(self.nodes, i, set);
        reveal_strlit("NAME");
        reveal_strlit("SELECTION_SET");
        reveal_strlit("ARGUMENTS");
        assert("NAME"@.len() != "SELECTION_SET"@.len());
        assert("ARGUMENTS"@.len() != "SELECTION_SET"@.len());
        assert(name != set);
        if name < set {
            lemma_after(self.nodes, name, set);
        } else {
            lemma_after(self.nodes, set, name);
        }
        match child(self.nodes, i, Wanted::Kind("ARGUMENTS")) {
            Some(a) => {
                lemma_child(self.nodes, i, Wanted::Kind("ARGUMENTS"));
                lemma_inside(self.nodes, i, a);
                assert(bracketed(self.nodes[a].kind));
                self.lemma_auto(a, a + 1, 0);
                if a < set {
                    lemma_after(self.nodes, a, set);
                } else {
                    lemma_after(self.nodes, set, a);
                }
            },
            None => {},
        }
        self.lemma_page_info(set, set + 1);
        if let Some(p) = self.page_info_from(self.nodes[set].depth, set + 1) {
            if let Some(inner) = child(self.nodes, p, Wanted::Kind("SELECTION_SET")) {
                lemma_child(self.nodes, p, Wanted::Kind("SELECTION_SET"));
                assert(under(self.nodes, set, inner)) by {
                    assert forall|k: int| set < k <= inner implies (#[trigger] self.nodes[k]).depth
                        > self.nodes[set].depth by {}
                }
                lemma_inside(self.nodes, set, inner);
                assert(bracketed(self.nodes[inner].kind));
            }
        }
    }

    /// The `pageInfo` of a selection set lies below it.
    proof fn lemma_page_info(self, set: int, j: int)
        requires
            0 <= set < j <= self.nodes.len(),
            forall|k: int| set < k < j ==> (#[trigger] self.nodes[k]).depth
                > self.nodes[set].depth,
        ensures
            self.page_info_from(self.nodes[set].depth, j) matches Some(p) ==> under(
                self.nodes,
                set,
                p,
            ),
        decreases self.nodes.len() - j,
    {
        if !self.over(self.nodes[set].depth, j) {
            self.lemma_page_info(set, j + 1);
        }
    }

    /// The connections below a field lie in it and follow one another.
    proof fn lemma_below(self, i: int, path: Seq<Seq<char>>, ancestors: Seq<Seq<char>>)
        requires
            laid_out(self.nodes, bytes(self.source)),
            0 <= i < self.nodes.len(),
        ensures
            self.below(i, path, ancestors) matches Ok(found) ==> {
                &&& in_sequence(found)
                &&& forall|k: int|
                    0 <= k < found.len() ==> {
                        let c = #[trigger] found[k];
                        &&& connection_fits(bytes(self.source), c)
                        &&& self.nodes[i].start <= c.field_span.0
                        &&& c.field_span.1 <= self.nodes[i].end
                    }
            },
        decreases self.nodes.len() - i, 0int,
    {
        match (
            child(self.nodes, i, Wanted::Kind("NAME")),
            child(self.nodes, i, Wanted::Kind("SELECTION_SET")),
        ) {
            (Some(name), Some(set)) => {
                lemma_child(self.nodes, i, Wanted::Kind("SELECTION_SET"));
                if self.lists_from(self.nodes[set].depth, set + 1).len() > 0 {
                    self.lemma_connection_fits(i, path, ancestors);
                } else {
                    lemma_inside(self.nodes, i, set);
                    assert(bracketed(self.nodes[set].kind));
                    self.lemma_walk(
                        set,
                        set + 1,
                        path.push(self.response_key(i)),
                        ancestors.push(self.header(i, set)),
                        0,
                    );
                }
            },
            _ => {},
        }
    }

    /// The connections among the selections of a set lie in it and follow one another.
    proof fn lemma_walk(
        self,
        set: int,
        j: int,
        path: Seq<Seq<char>>,
        ancestors: Seq<Seq<char>>,
        low: int,
    )
        requires
            laid_out(self.nodes, bytes(self.source)),
            0 <= set < j <= self.nodes.len(),
            bracketed(self.nodes[set].kind),
            forall|k: int| set < k < j ==> (#[trigger] self.nodes[k]).depth
                > self.nodes[set].depth,
            forall|k: int|
                j <= k && under(self.nodes, set, k) && self.nodes[k].depth == self.nodes[set].depth
                    + 1 ==> low <= (#[trigger] self.nodes[k]).start,
        ensures
            self.walk(self.nodes[set].depth, j, path, ancestors) matches Ok(found) ==> {
                &&& in_sequence(found)
                &&& forall|k: int|
                    0 <= k < found.len() ==> {
                        let c = #[trigger] found[k];
                        &&& connection_fits(bytes(self.source), c)
                        &&& self.nodes[set].start < c.field_span.0
                        &&& low <= c.field_span.0
                        &&& c.field_span.1 < self.nodes[set].end
                    }
            },
        decreases self.nodes.len() - j, 1int,
    {
        let depth = self.nodes[set].depth;
        if !self.over(depth, j) {
            if self.nodes[j].depth == depth + 1 && self.nodes[j].kind == "FIELD"@ {
                assert(under(self.nodes, set, j));
                lemma_inside(self.nodes, set, j);
                self.lemma_below(j, path, ancestors);
                assert forall|k: int|
                    j + 1 <= k && under(self.nodes, set, k) && self.nodes[k].depth
                        == self.nodes[set].depth + 1 implies self.nodes[j].end <= (
                #[trigger] self.nodes[k]).start by {
                    lemma_after(self.nodes, j, k);
                }
                self.lemma_walk(set, j + 1, path, ancestors, self.nodes[j].end as int);
            } else {
                self.lemma_walk(set, j + 1, path, ancestors, low);
            }
        }
    }

    /// The places that the analysis of a tree names can be edited.
    pub proof fn lemma_analysis_fits(self)
        requires
            laid_out(self.nodes, bytes(self.source)),
        ensures
            self.analysis() matches Ok(a) ==> analysis_fits(a),
    {
        let ops = self.operations();
        if ops.len() == 1 && self.nodes.len() > 0 {
            let op = ops[0];
            self.lemma_operations(1);
            lemma_child(self.nodes, op, Wanted::Kind("SELECTION_SET"));
            lemma_child(self.nodes, op, Wanted::Kind("VARIABLE_DEFINITIONS"));
            lemma_child(self.nodes, op, Wanted::Kind("OPERATION_TYPE"));
            lemma_child(self.nodes, op, Wanted::Kind("NAME"));
            if let Some(set) = child(self.nodes, op, Wanted::Kind("SELECTION_SET")) {
                self.lemma_walk(set, set + 1, seq![], seq![], 0);
                self.lemma_outside(op, set, "VARIABLE_DEFINITIONS");
                self.lemma_outside(op, set, "OPERATION_TYPE");
                self.lemma_outside(op, set, "NAME");
                reveal_strlit("SELECTION_SET");
                reveal_strlit("VARIABLE_DEFINITIONS");
                reveal_strlit("OPERATION_TYPE");
                reveal_strlit("NAME");
                assert("SELECTION_SET"@.len() == 13);
            }
        }
    }

    /// Operations are nodes of the tree.
    proof fn lemma_operations(self, j: int)
        requires
            0 <= j,
        ensures
            forall|k: int|
                0 <= k < self.operations_from(j).len() ==> 0 <= #[trigger] self.operations_from(
                    j,
                )[k] < self.nodes.len(),
        decreases self.nodes.len() - j,
    {
        if !self.over(self.nodes[0].depth, j) {
            self.lemma_operations(j + 1);
            let rest = self.operations_from(j + 1);
            assert forall|k: int| 0 <= k < self.operations_from(j).len() implies 0
                <= #[trigger] self.operations_from(j)[k] < self.nodes.len() by {
                if self.operations_from(j).len() > rest.len() && k > 0 {
                    assert(self.operations_from(j)[k] == rest[k - 1]);
                }
            }
        }
    }

    /// Two different children of a node do not overlap.
    proof fn lemma_outside(self, op: int, set: int, kind: &'static str)
        requires
            laid_out(self.nodes, bytes(self.source)),
            0 <= op < self.nodes.len(),
            child(self.nodes, op, Wanted::Kind("SELECTION_SET")) == Some(set),
        ensures
            child(self.nodes, op, Wanted::Kind(kind)) matches Some(c) ==> c == set
                || self.nodes[c].end <= self.nodes[set].start || self.nodes[set].end
                <= self.nodes[c].start,
    {
        lemma_child(self.nodes, op, Wanted::Kind("SELECTION_SET"));
        lemma_child(self.nodes, op, Wanted::Kind(kind));
        if let Some(c) = child(self.nodes, op, Wanted::Kind(kind)) {
            if c < set {
                lemma_after(self.nodes, c, set);
            } else if set < c {
                lemma_after(self.nodes, set, c);
            }
        }
    }
}

/// The first of `name`, `name_`, `name__`, … that the source does not use as a variable.
pub open spec fn free_name(source: Seq<char>, name: Seq<char>) -> Seq<char>
    decreases source.len() - name.len(),
{
    if occurs(source, seq!['$'] + name) {
        free_name(source, name.push('_'))
    } else {
        name
    }
}

/// The cursor variable of a connection: the one the user wrote, else one that is free.
pub open spec fn cursor_name(source: Seq<char>, index: nat, c: ConnectionModel) -> Seq<char> {
    match c.user_cursor_var {
        Some(name) => name,
        None => free_name(source, CURSOR_VAR@ + "_"@ + decimal(index)),
    }
}

/// The arguments that a connection lacks to be paginated.
pub open spec fn additions(c: ConnectionModel, var: Seq<char>, page_size: nat) -> Seq<Seq<char>> {
    let limit = if c.args.has_limit {
        seq![]
    } else {
        seq!["first: "@ + decimal(page_size)]
    };
    let after = if c.user_cursor_var is Some {
        seq![]
    } else {
        seq!["after: $"@ + var]
    };
    limit + after
}

/// `first: auto` gives way to the page size.
pub open spec fn auto_edits(c: ConnectionModel, page_size: nat) -> Seq<EditModel> {
    Seq::new(
        c.args.auto_spans.len(),
        |i: int|
            EditModel {
                from: c.args.auto_spans[i].0,
                to: c.args.auto_spans[i].1,
                text: decimal(page_size),
            },
    )
}

/// The missing arguments are added to those that there are, or in a list of their own.
pub open spec fn argument_edits(c: ConnectionModel, var: Seq<char>, page_size: nat) -> Seq<
    EditModel,
> {
    let missing = joined(additions(c, var, page_size), ", "@);
    if additions(c, var, page_size).len() == 0 {
        seq![]
    } else {
        match c.args.close_at {
            Some(close) => seq![EditModel { from: close, to: close, text: ", "@ + missing }],
            None => seq![
                EditModel {
                    from: c.args.open_at,
                    to: c.args.open_at,
                    text: "("@ + missing + ")"@,
                },
            ],
        }
    }
}

/// What the `pageInfo` of the user lacks to be paginated by.
pub open spec fn lacking(c: ConnectionModel) -> Seq<char> {
    if c.lacks_next && c.lacks_cursor {
        " hasNextPage endCursor"@
    } else if c.lacks_next {
        " hasNextPage"@
    } else {
        " endCursor"@
    }
}

/// `pageInfo`, with all that pagination needs of it, is asked for when the user did not; what
/// was added is stripped from the output.
pub open spec fn page_info_edits(c: ConnectionModel) -> Seq<EditModel> {
    let inner = (c.selection_span.0 + 1) as usize;
    match (c.page_info_key, c.page_info_open) {
        (None, _) => seq![
            EditModel { from: inner, to: inner, text: " pageInfo { hasNextPage endCursor }"@ },
        ],
        (Some(_), Some(at)) => if c.lacks_next || c.lacks_cursor {
            seq![EditModel { from: at, to: at, text: lacking(c) }]
        } else {
            seq![]
        },
        (Some(_), None) => seq![],
    }
}

/// The edits that make a connection paginated.
pub open spec fn connection_edits(c: ConnectionModel, var: Seq<char>, page_size: nat) -> Seq<
    EditModel,
> {
    auto_edits(c, page_size) + argument_edits(c, var, page_size) + page_info_edits(c)
}

impl AnalysisModel {
    /// The cursor variable of connection `i`.
    pub open spec fn cursor(self, i: int) -> Seq<char> {
        cursor_name(self.source, i as nat, self.connections[i])
    }

    /// The edits of the first `k` connections.
    pub open spec fn edits(self, page_size: nat, k: int) -> Seq<EditModel>
        decreases k,
    {
        if k <= 0 {
            seq![]
        } else if self.connections[k - 1].paginate {
            self.edits(page_size, k - 1) + connection_edits(
                self.connections[k - 1],
                self.cursor(k - 1),
                page_size,
            )
        } else {
            self.edits(page_size, k - 1)
        }
    }

    /// The declarations of the variables that the first `k` connections need.
    pub open spec fn declarations(self, k: int) -> Seq<Seq<char>>
        decreases k,
    {
        if k <= 0 {
            seq![]
        } else if self.connections[k - 1].paginate && self.connections[k - 1].user_cursor_var
            is None {
            self.declarations(k - 1).push("$"@ + self.cursor(k - 1) + ": String"@)
        } else {
            self.declarations(k - 1)
        }
    }

    /// The edit that declares the cursor variables, where there are any.
    pub open spec fn declaration_edits(self) -> Seq<EditModel> {
        let needed = self.declarations(self.connections.len() as int);
        let list = joined(needed, ", "@);
        if needed.len() == 0 {
            seq![]
        } else {
            match self.var_insert {
                Some(VarInsert::Extend(at)) => seq![
                    EditModel { from: at, to: at, text: ", "@ + list },
                ],
                Some(VarInsert::After(at)) => seq![
                    EditModel { from: at, to: at, text: "("@ + list + ")"@ },
                ],
                Some(VarInsert::Shorthand(at)) => seq![
                    EditModel { from: at, to: at, text: "query gqlfreez("@ + list + ") "@ },
                ],
                None => seq![],
            }
        }
    }

    /// The edits that make the first page.
    pub open spec fn page_one_edits(self, page_size: nat) -> Seq<EditModel> {
        self.edits(page_size, self.connections.len() as int) + self.declaration_edits()
    }

    /// The document to send for page 1.
    pub open spec fn page_one(self, page_size: nat) -> Seq<char> {
        rewritten(self.source, self.page_one_edits(page_size))
    }

    /// The field of connection `i`, as it is asked for page after page.
    pub open spec fn derived_field(self, i: int, page_size: nat) -> Seq<char> {
        let c = self.connections[i];
        rewritten(
            part(self.source, c.field_span.0 as int, c.field_span.1 as int),
            moved(connection_edits(c, self.cursor(i), page_size), c.field_span.0 as int),
        )
    }

    /// The document that asks for one page of connection `i` only.
    pub open spec fn derived(self, i: int, page_size: nat) -> Seq<char> {
        "query gqlfreez($"@ + self.cursor(i) + ": String) { "@ + wrapped(
            self.connections[i].ancestors,
            self.derived_field(i, page_size),
        ) + " }"@
    }

    /// The positions of the connections to paginate, among the first `k`.
    pub open spec fn paginated(self, k: int) -> Seq<int>
        decreases k,
    {
        if k <= 0 {
            seq![]
        } else if self.connections[k - 1].paginate {
            self.paginated(k - 1).push(k - 1)
        } else {
            self.paginated(k - 1)
        }
    }
}

/// A selection, put below its ancestors, outermost first.
pub open spec fn wrapped(ancestors: Seq<Seq<char>>, body: Seq<char>) -> Seq<char>
    decreases ancestors.len(),
{
    if ancestors.len() == 0 {
        body
    } else {
        wrapped(ancestors.drop_last(), ancestors.last() + " { "@ + body + " }"@)
    }
}

/// Whether an edit lies in the field of a connection.
pub open spec fn edit_within(c: ConnectionModel, e: EditModel) -> bool {
    c.field_span.0 < e.from && e.from <= e.to && e.to <= c.field_span.1
}

/// The edits of a connection can be applied together, inside its field.
pub proof fn lemma_connection_edits(source: Seq<u8>, c: ConnectionModel, var: Seq<char>, page_size: nat)
    requires
        connection_fits(source, c),
    ensures
        fits(source, connection_edits(c, var, page_size)),
        forall|i: int|
            0 <= i < connection_edits(c, var, page_size).len() ==> edit_within(
                c,
                #[trigger] connection_edits(c, var, page_size)[i],
            ),
{
    let auto = auto_edits(c, page_size);
    let arguments = argument_edits(c, var, page_size);
    let info = page_info_edits(c);
    let all = connection_edits(c, var, page_size);
    let n = auto.len();
    assert(arguments.len() <= 1 && info.len() <= 1);
    assert forall|i: int| 0 <= i < n implies all[i] == #[trigger] auto[i] && edit_within(
        c,
        auto[i],
    ) && lands(source, auto[i]) && (arguments.len() > 0 ==> apart()(auto[i], arguments[0])) && (
    info.len() > 0 ==> apart()(auto[i], info[0])) by {
        let span = c.args.auto_spans[i];
        assert(span.1 <= c.args.close_at->0);
    }
    assert forall|i: int| n <= i < all.len() implies (#[trigger] all[i]) == if i == n
        && arguments.len() > 0 {
        arguments[0]
    } else {
        info[0]
    } by {}
    assert forall|i: int| 0 <= i < all.len() implies lands(source, #[trigger] all[i])
        && edit_within(c, all[i]) by {
        if i < n {
            assert(all[i] == auto[i]);
        }
    }
    assert forall|i: int, j: int|
        #![trigger apart()(all[i], all[j])]
        0 <= i < all.len() && 0 <= j < all.len() && i != j implies apart()(all[i], all[j]) by {
        if i < n && j < n {
            assert(all[i] == auto[i] && all[j] == auto[j]);
            assert(c.args.auto_spans[i].0 < c.args.auto_spans[i].1);
            assert(c.args.auto_spans[j].0 < c.args.auto_spans[j].1);
        } else if i < n {
            assert(all[i] == auto[i]);
        } else if j < n {
            assert(all[j] == auto[j]);
        }
    }
}

impl AnalysisModel {
    /// Whether an edit lies in the field of a connection to paginate, one of the first `k`.
    spec fn edits_some(self, k: int, e: EditModel) -> bool {
        exists|m: int|
            0 <= m < k && self.connections[m].paginate && edit_within(
                #[trigger] self.connections[m],
                e,
            )
    }

    /// The edits of the first `k` connections can be applied together.
    proof fn lemma_edits(self, page_size: nat, k: int)
        requires
            analysis_fits(self),
            0 <= k <= self.connections.len(),
        ensures
            fits(bytes(self.source), self.edits(page_size, k)),
            forall|i: int|
                0 <= i < self.edits(page_size, k).len() ==> self.edits_some(
                    k,
                    #[trigger] self.edits(page_size, k)[i],
                ),
        decreases k,
    {
        if k > 0 {
            let b = bytes(self.source);
            let c = self.connections[k - 1];
            self.lemma_edits(page_size, k - 1);
            let earlier = self.edits(page_size, k - 1);
            let here = connection_edits(c, self.cursor(k - 1), page_size);
            let all = self.edits(page_size, k);
            lemma_connection_edits(b, c, self.cursor(k - 1), page_size);
            assert forall|i: int| 0 <= i < earlier.len() implies self.edits_some(
                k,
                #[trigger] earlier[i],
            ) && earlier[i].from <= earlier[i].to <= c.field_span.0 by {
                assert(self.edits_some(k - 1, earlier[i]));
                let m = choose|m: int|
                    0 <= m < k - 1 && self.connections[m].paginate && edit_within(
                        #[trigger] self.connections[m],
                        earlier[i],
                    );
                assert(edit_within(self.connections[m], earlier[i]));
            }
            if c.paginate {
                assert forall|i: int| 0 <= i < all.len() implies lands(b, #[trigger] all[i])
                    && self.edits_some(k, all[i]) by {
                    if i < earlier.len() {
                        assert(all[i] == earlier[i]);
                        assert(lands(b, earlier[i]));
                    } else {
                        assert(all[i] == here[i - earlier.len()]);
                        assert(lands(b, here[i - earlier.len()]));
                        assert(edit_within(self.connections[k - 1], all[i]));
                    }
                }
                assert forall|i: int, j: int|
                    #![trigger apart()(all[i], all[j])]
                    0 <= i < all.len() && 0 <= j < all.len() && i != j implies apart()(
                    all[i],
                    all[j],
                ) by {
                    if i < earlier.len() && j < earlier.len() {
                        assert(apart()(earlier[i], earlier[j]));
                    } else if i >= earlier.len() && j >= earlier.len() {
                        assert(apart()(here[i - earlier.len()], here[j - earlier.len()]));
                    } else if i < earlier.len() {
                        assert(edit_within(c, here[j - earlier.len()]));
                        assert(all[i] == earlier[i]);
                    } else {
                        assert(edit_within(c, here[i - earlier.len()]));
                        assert(all[j] == earlier[j]);
                    }
                }
            }
        }
    }

    /// The edits that make the first page can be applied together.
    pub proof fn lemma_page_one_edits(self, page_size: nat)
        requires
            analysis_fits(self),
        ensures
            fits(bytes(self.source), self.page_one_edits(page_size)),
    {
        let b = bytes(self.source);
        let n = self.connections.len() as int;
        let most = self.edits(page_size, n);
        let last = self.declaration_edits();
        let all = self.page_one_edits(page_size);
        self.lemma_edits(page_size, n);
        if last.len() > 0 {
            let v = self.var_insert->0;
            assert(last.len() == 1 && last[0].from == v.at() && last[0].to == v.at());
            assert forall|i: int| 0 <= i < most.len() implies apart()(#[trigger] most[i], last[0])
                by {
                assert(self.edits_some(n, most[i]));
                let m = choose|m: int|
                    0 <= m < n && self.connections[m].paginate && edit_within(
                        #[trigger] self.connections[m],
                        most[i],
                    );
                assert(edit_within(self.connections[m], most[i]));
            }
            assert forall|i: int| 0 <= i < all.len() implies lands(b, #[trigger] all[i]) by {
                if i < most.len() {
                    assert(lands(b, most[i]));
                }
            }
            assert forall|i: int, j: int|
                #![trigger apart()(all[i], all[j])]
                0 <= i < all.len() && 0 <= j < all.len() && i != j implies apart()(
                all[i],
                all[j],
            ) by {
                if i < most.len() && j < most.len() {
                    assert(apart()(most[i], most[j]));
                } else if i < most.len() {
                    assert(apart()(most[i], last[0]));
                } else {
                    assert(apart()(most[j], last[0]));
                }
            }
        } else {
            assert(all =~= most);
        }
    }
}

// ---------------------------------------------------------------------------------------
// What a query file is turned into
// ---------------------------------------------------------------------------------------
/// `$` and the name of a variable.
fn dollar(name: &str) -> (r: String)
    ensures
        r@ == seq!['$'] + name@,
{
    let mut r = String::new();
    r.push('$');
    r.append(name);
    r
}

/// The first of `name`, `name_`, `name__`, … that the source does not use as a variable.
fn find_free(source: &str, name: String) -> (r: String)
    ensures
        r@ == free_name(source@, name@),
{
    let mut r = name;
    while contains(source, dollar(r.as_str()).as_str())
        invariant
            free_name(source@, name@) == free_name(source@, r@),
        decreases source@.len() - r@.len(),
    {
        r.push('_');
    }
    r
}

/// The arguments that a connection lacks to be paginated.
fn missing_arguments(conn: &Connection, var: &str, page_size: usize) -> (r: Vec<String>)
    ensures
        texts(r@) == additions(conn@, var@, page_size as nat),
{
    let mut r: Vec<String> = Vec::new();
    if !conn.args.has_limit {
        r.push(two("first: ", write_decimal(page_size as u64).as_str()));
    }
    if conn.user_cursor_var.is_none() {
        r.push(two("after: $", var));
    }
    assert(texts(r@) =~= additions(conn@, var@, page_size as nat));
    r
}

/// Adds the edits that make a connection paginated.
fn add_connection_edits(conn: &Connection, var: &str, page_size: usize, edits: &mut Vec<Edit>)
    requires
        conn@.selection_span.0 < usize::MAX,
    ensures
        edit_models(final(edits)@) == edit_models(old(edits)@) + connection_edits(
            conn@,
            var@,
            page_size as nat,
        ),
{
    let ghost c = conn@;
    let ghost before = edit_models(edits@);
    // `first: auto` → `first: <page_size>`
    for i in 0..conn.args.auto_spans.len()
        invariant
            c == conn@,
            edit_models(edits@) =~= before + auto_edits(c, page_size as nat).take(i as int),
    {
        let ghost done = edit_models(edits@);
        edits.push(Edit { at: conn.args.auto_spans[i], text: write_decimal(page_size as u64) });
        assert(edit_models(edits@) =~= done.push(auto_edits(c, page_size as nat)[i as int]));
    }
    assert(edit_models(edits@) =~= before + auto_edits(c, page_size as nat));
    let ghost middle = edit_models(edits@);
    let additions = missing_arguments(conn, var, page_size);
    assert(texts(additions@).len() == additions@.len());
    if additions.len() > 0 {
        let list = join(&additions, ", ");
        match conn.args.close_at {
            Some(close) => edits.push(Edit { at: (close, close), text: two(", ", list.as_str()) }),
            None => edits.push(
                Edit {
                    at: (conn.args.open_at, conn.args.open_at),
                    text: three("(", list.as_str(), ")"),
                },
            ),
        }
    }
    assert(edit_models(edits@) =~= middle + argument_edits(c, var@, page_size as nat));
    let ghost end = edit_models(edits@);
    if conn.page_info_key.is_none() {
        let open = conn.selection_span.0 + 1;
        edits.push(
            Edit { at: (open, open), text: " pageInfo { hasNextPage endCursor }".to_owned() },
        );
    } else if let Some(at) = conn.page_info_open {
        if conn.lacks_next || conn.lacks_cursor {
            let text = if conn.lacks_next && conn.lacks_cursor {
                " hasNextPage endCursor".to_owned()
            } else if conn.lacks_next {
                " hasNextPage".to_owned()
            } else {
                " endCursor".to_owned()
            };
            edits.push(Edit { at: (at, at), text });
        }
    }
    assert(edit_models(edits@) =~= end + page_info_edits(c));
    assert(edit_models(edits@) =~= before + connection_edits(c, var@, page_size as nat));
}

impl Analysis {
    /// The connections to paginate, each with its position.
    pub fn paginated(&self) -> (r: Vec<(usize, &Connection)>)
        ensures
            r@.len() == self@.paginated(self@.connections.len() as int).len(),
            forall|i: int|
                0 <= i < r@.len() ==> {
                    &&& (#[trigger] r@[i]).0 == self@.paginated(self@.connections.len() as int)[i]
                    &&& r@[i].1 == self.connections@[r@[i].0 as int]
                },
    {
        let mut r: Vec<(usize, &Connection)> = Vec::new();
        for i in 0..self.connections.len()
            invariant
                r@.len() == self@.paginated(i as int).len(),
                forall|k: int|
                    0 <= k < r@.len() ==> {
                        &&& (#[trigger] r@[k]).0 == self@.paginated(i as int)[k]
                        &&& r@[k].1 == self.connections@[r@[k].0 as int]
                    },
        {
            assert(self@.connections[i as int] == self.connections@[i as int]@);
            if self.connections[i].paginate {
                r.push((i, &self.connections[i]));
            }
        }
        r
    }

    /// The cursor variable of connection `index`.
    pub fn cursor_var(&self, index: usize) -> (r: String)
        requires
            index < self.connections@.len(),
        ensures
            r@ == self@.cursor(index as int),
    {
        assert(self@.connections[index as int] == self.connections@[index as int]@);
        match &self.connections[index].user_cursor_var {
            Some(name) => name.clone(),
            None => find_free(
                self.source.as_str(),
                three(CURSOR_VAR, "_", write_decimal(index as u64).as_str()),
            ),
        }
    }

    /// The document to send for page 1: the original source, with what is needed to paginate.
    pub fn page_one(&self, page_size: usize) -> (r: String)
        requires
            analysis_fits(self@),
        ensures
            r@ == self@.page_one(page_size as nat),
    {
        let mut edits: Vec<Edit> = Vec::new();
        let mut declarations: Vec<String> = Vec::new();
        assert(edit_models(edits@) =~= seq![]);
        assert(texts(declarations@) =~= seq![]);
        for i in 0..self.connections.len()
            invariant
                analysis_fits(self@),
                edit_models(edits@) == self@.edits(page_size as nat, i as int),
                texts(declarations@) == self@.declarations(i as int),
        {
            assert(self@.connections[i as int] == self.connections@[i as int]@);
            let conn = &self.connections[i];
            if conn.paginate {
                let var = self.cursor_var(i);
                if conn.user_cursor_var.is_none() {
                    let ghost done = texts(declarations@);
                    let declaration = three("$", var.as_str(), ": String");
                    declarations.push(declaration);
                    assert(texts(declarations@) =~= done.push(declaration@));
                }
                assert(connection_fits(bytes(self@.source), self@.connections[i as int]));
                add_connection_edits(conn, var.as_str(), page_size, &mut edits);
            }
        }
        let ghost most = edit_models(edits@);
        assert(texts(declarations@).len() == declarations@.len());
        if declarations.len() > 0 {
            let list = join(&declarations, ", ");
            match self.var_insert {
                Some(VarInsert::Extend(at)) => edits.push(
                    Edit { at: (at, at), text: two(", ", list.as_str()) },
                ),
                Some(VarInsert::After(at)) => edits.push(
                    Edit { at: (at, at), text: three("(", list.as_str(), ")") },
                ),
                Some(VarInsert::Shorthand(at)) => edits.push(
                    Edit { at: (at, at), text: three("query gqlfreez(", list.as_str(), ") ") },
                ),
                None => {},
            }
        }
        proof {
            assert(edit_models(edits@) =~= most + self@.declaration_edits());
            self@.lemma_page_one_edits(page_size as nat);
        }
        apply(self.source.as_str(), edits)
    }

    /// A derived query holding only this connection (and its ancestors' path).
    ///
    /// Sidesteps unused variables, empty selection sets, and re-fetching unrelated fields
    /// on every page.
    pub fn derived(&self, index: usize, page_size: usize) -> (r: String)
        requires
            analysis_fits(self@),
            index < self.connections@.len(),
        ensures
            r@ == self@.derived(index as int, page_size as nat),
    {
        assert(self@.connections[index as int] == self.connections@[index as int]@);
        let conn = &self.connections[index];
        let var = self.cursor_var(index);
        let mut edits: Vec<Edit> = Vec::new();
        proof {
            assert(connection_fits(bytes(self@.source), self@.connections[index as int]));
            lemma_connection_edits(bytes(self@.source), conn@, var@, page_size as nat);
            assert(edit_models(edits@) =~= seq![]);
            assert(seq![] + connection_edits(conn@, var@, page_size as nat) =~= connection_edits(
                conn@,
                var@,
                page_size as nat,
            ));
        }
        add_connection_edits(conn, var.as_str(), page_size, &mut edits);
        let mut body = apply_within(self.source.as_str(), conn.field_span, edits);
        let ghost field = body@;
        let ghost outer = texts(conn.ancestors@);
        let mut k: usize = conn.ancestors.len();
        assert(outer.take(k as int) =~= outer);
        while k > 0
            invariant
                k <= conn.ancestors@.len(),
                outer == texts(conn.ancestors@),
                wrapped(outer, field) == wrapped(outer.take(k as int), body@),
            decreases k,
        {
            k = k - 1;
            assert(outer.take(k + 1).drop_last() =~= outer.take(k as int));
            let mut wider = three(conn.ancestors[k].as_str(), " { ", body.as_str());
            wider.append(" }");
            body = wider;
        }
        assert(outer.take(0) =~= seq![]);
        let mut r = three("query gqlfreez($", var.as_str(), ": String) { ");
        r.append(body.as_str());
        r.append(" }");
        r
    }
}

// ---------------------------------------------------------------------------------------
// Laws
// ---------------------------------------------------------------------------------------
/// Whether nothing has to be added to a connection: it is not to be paginated, or the user wrote
/// all of it out, the limit, the cursor and `pageInfo` with both fields.
pub open spec fn is_written_out(c: ConnectionModel) -> bool {
    c.paginate ==> {
        &&& c.args.has_limit
        &&& c.args.auto_spans.len() == 0
        &&& c.user_cursor_var is Some
        &&& c.page_info_key is Some
        &&& !c.lacks_next
        &&& !c.lacks_cursor
    }
}

/// Where nothing has to be added, the document is sent as the user wrote it.
pub proof fn law_nothing_to_rewrite(a: AnalysisModel, page_size: nat)
    requires
        forall|i: int| 0 <= i < a.connections.len() ==> is_written_out(#[trigger] a.connections[i]),
    ensures
        a.page_one(page_size) == a.source,
{
    lemma_no_edits(a, page_size, a.connections.len() as int);
    assert(a.page_one_edits(page_size) =~= seq![]);
    assert(arranged(Seq::<EditModel>::empty(), later()) =~= seq![]);
    encode_utf8_decode_utf8(a.source);
}

proof fn lemma_no_edits(a: AnalysisModel, page_size: nat, k: int)
    requires
        0 <= k <= a.connections.len(),
        forall|i: int| 0 <= i < a.connections.len() ==> is_written_out(#[trigger] a.connections[i]),
    ensures
        a.edits(page_size, k) == Seq::<EditModel>::empty(),
        a.declarations(k) == Seq::<Seq<char>>::empty(),
    decreases k,
{
    if k > 0 {
        lemma_no_edits(a, page_size, k - 1);
        let c = a.connections[k - 1];
        assert(is_written_out(c));
        if c.paginate {
            assert(connection_edits(c, a.cursor(k - 1), page_size) =~= seq![]);
        }
    }
}

/// Where there is no `auto`, text is only added: the source is in the document for page 1,
/// character for character and in order.
pub proof fn law_source_is_kept(a: AnalysisModel, page_size: nat)
    requires
        analysis_fits(a),
        forall|i: int|
            0 <= i < a.connections.len() && (#[trigger] a.connections[i]).paginate
                ==> a.connections[i].args.auto_spans.len() == 0,
    ensures
        is_subsequence(a.source, a.page_one(page_size)),
{
    a.lemma_page_one_edits(page_size);
    lemma_edits_insert(a, page_size, a.connections.len() as int);
    let most = a.edits(page_size, a.connections.len() as int);
    let edits = a.page_one_edits(page_size);
    assert forall|i: int| 0 <= i < edits.len() implies (#[trigger] edits[i]).from == edits[i].to by {
        if i < most.len() {
            assert(edits[i] == most[i]);
        }
    }
    law_insertions_keep_the_text(a.source, edits);
}

proof fn lemma_edits_insert(a: AnalysisModel, page_size: nat, k: int)
    requires
        0 <= k <= a.connections.len(),
        forall|i: int|
            0 <= i < a.connections.len() && (#[trigger] a.connections[i]).paginate
                ==> a.connections[i].args.auto_spans.len() == 0,
    ensures
        forall|i: int|
            0 <= i < a.edits(page_size, k).len() ==> (#[trigger] a.edits(page_size, k)[i]).from
                == a.edits(page_size, k)[i].to,
    decreases k,
{
    if k > 0 {
        lemma_edits_insert(a, page_size, k - 1);
        let c = a.connections[k - 1];
        let earlier = a.edits(page_size, k - 1);
        let all = a.edits(page_size, k);
        let here = connection_edits(c, a.cursor(k - 1), page_size);
        assert forall|i: int| 0 <= i < all.len() implies (#[trigger] all[i]).from == all[i].to by {
            if i < earlier.len() {
                assert(all[i] == earlier[i]);
            } else {
                assert(auto_edits(c, page_size).len() == 0);
                assert(all[i] == here[i - earlier.len()]);
            }
        }
    }
}

/// A connection that the user limited is asked for as they wrote it: its field is in the
/// document for page 1, byte for byte.
pub proof fn law_limited_connection_stays(a: AnalysisModel, page_size: nat, k: int)
    requires
        analysis_fits(a),
        0 <= k < a.connections.len(),
        !a.connections[k].paginate,
    ensures
        holds_bytes(
            bytes(a.page_one(page_size)),
            bytes(a.source).subrange(
                a.connections[k].field_span.0 as int,
                a.connections[k].field_span.1 as int,
            ),
        ),
{
    let n = a.connections.len() as int;
    let c = a.connections[k];
    let most = a.edits(page_size, n);
    let edits = a.page_one_edits(page_size);
    a.lemma_edits(page_size, n);
    a.lemma_page_one_edits(page_size);
    assert(connection_fits(bytes(a.source), c));
    assert forall|i: int| 0 <= i < edits.len() implies spares(
        #[trigger] edits[i],
        c.field_span.0 as int,
        c.field_span.1 as int,
    ) by {
        if i < most.len() {
            assert(a.edits_some(n, most[i]));
            let m = choose|m: int|
                0 <= m < n && a.connections[m].paginate && edit_within(
                    #[trigger] a.connections[m],
                    most[i],
                );
            assert(edit_within(a.connections[m], most[i]));
        }
    }
    law_untouched_text_stays(
        a.source,
        edits,
        c.field_span.0 as int,
        c.field_span.1 as int,
    );
}

/// A generated cursor variable is free: the source does not use its name.
pub proof fn law_cursor_is_free(source: Seq<char>, index: nat, c: ConnectionModel)
    requires
        c.user_cursor_var is None,
    ensures
        !occurs(source, seq!['$'] + cursor_name(source, index, c)),
{
    lemma_free(source, CURSOR_VAR@ + "_"@ + decimal(index));
}

/// The name that is free is the one asked for, with underscores appended.
pub proof fn lemma_free(source: Seq<char>, name: Seq<char>)
    ensures
        !occurs(source, seq!['$'] + free_name(source, name)),
        name.is_prefix_of(free_name(source, name)),
        forall|i: int|
            name.len() <= i < free_name(source, name).len() ==> #[trigger] free_name(
                source,
                name,
            )[i] == '_',
    decreases source.len() - name.len(),
{
    if occurs(source, seq!['$'] + name) {
        lemma_free(source, name.push('_'));
        let free = free_name(source, name);
        assert(name.push('_').is_prefix_of(free));
        assert(free[name.len() as int] == name.push('_')[name.len() as int]);
        assert(name =~= free.subrange(0, name.len() as int));
    }
}

/// Two connections never share a generated cursor variable.
pub proof fn law_cursors_are_distinct(
    source: Seq<char>,
    i: nat,
    j: nat,
    a: ConnectionModel,
    b: ConnectionModel,
)
    requires
        i != j,
        a.user_cursor_var is None,
        b.user_cursor_var is None,
    ensures
        cursor_name(source, i, a) != cursor_name(source, j, b),
{
    let prefix = CURSOR_VAR@ + "_"@;
    let x = cursor_name(source, i, a);
    let y = cursor_name(source, j, b);
    if x == y {
        lemma_free(source, prefix + decimal(i));
        lemma_free(source, prefix + decimal(j));
        lemma_decimal_digits(i);
        lemma_decimal_digits(j);
        let p = prefix.len() as int;
        let m = decimal(i).len() as int;
        let n = decimal(j).len() as int;
        assert(x.subrange(0, p + m) == prefix + decimal(i));
        assert(x.subrange(0, p + n) == prefix + decimal(j));
        if m < n {
            assert(x[p + m] == '_');
            assert((prefix + decimal(j))[p + m] == decimal(j)[m]);
        } else if n < m {
            assert(x[p + n] == '_');
            assert((prefix + decimal(i))[p + n] == decimal(i)[n]);
        }
        assert(decimal(i) =~= x.subrange(p, p + m)) by {
            assert forall|k: int| 0 <= k < m implies decimal(i)[k] == x[p + k] by {
                assert((prefix + decimal(i))[p + k] == decimal(i)[k]);
            }
        }
        assert(decimal(j) =~= x.subrange(p, p + n)) by {
            assert forall|k: int| 0 <= k < n implies decimal(j)[k] == x[p + k] by {
                assert((prefix + decimal(j))[p + k] == decimal(j)[k]);
            }
        }
        lemma_decimal_injective(i, j);
    }
}

/// `auto` never leaves the machine: the page size takes the place of each one that a connection
/// to paginate has.
pub proof fn law_auto_is_replaced(a: AnalysisModel, page_size: nat, k: int, i: int)
    requires
        0 <= k < a.connections.len(),
        a.connections[k].paginate,
        0 <= i < a.connections[k].args.auto_spans.len(),
    ensures
        a.page_one_edits(page_size).contains(
            EditModel {
                from: a.connections[k].args.auto_spans[i].0,
                to: a.connections[k].args.auto_spans[i].1,
                text: decimal(page_size),
            },
        ),
{
    let n = a.connections.len() as int;
    let e = auto_edits(a.connections[k], page_size)[i];
    lemma_edits_contain(a, page_size, n, k, e);
    let at = choose|at: int| 0 <= at < a.edits(page_size, n).len() && a.edits(page_size, n)[at] == e;
    assert(a.page_one_edits(page_size)[at] == e);
}

proof fn lemma_edits_contain(a: AnalysisModel, page_size: nat, n: int, k: int, e: EditModel)
    requires
        0 <= k < n <= a.connections.len(),
        a.connections[k].paginate,
        auto_edits(a.connections[k], page_size).contains(e),
    ensures
        a.edits(page_size, n).contains(e),
    decreases n,
{
    let all = a.edits(page_size, n);
    if n - 1 == k {
        let earlier = a.edits(page_size, k);
        let auto = auto_edits(a.connections[k], page_size);
        let i = choose|i: int| 0 <= i < auto.len() && auto[i] == e;
        assert(all[earlier.len() + i] == e);
    } else {
        lemma_edits_contain(a, page_size, n - 1, k, e);
        let earlier = a.edits(page_size, n - 1);
        let at = choose|at: int| 0 <= at < earlier.len() && earlier[at] == e;
        assert(all[at] == e);
    }
}

impl Document {
    /// Whether node `p` is a field of selection set `set`.
    pub open spec fn is_selected(self, set: int, p: int) -> bool {
        &&& under(self.nodes, set, p)
        &&& self.nodes[p].depth == self.nodes[set].depth + 1
        &&& self.nodes[p].kind == "FIELD"@
    }

    /// Whether node `f` is a field of selection set `set`, or of the selection set of one that
    /// is, and so on.
    pub open spec fn selects(self, set: int, f: int) -> bool
        decreases self.nodes.len() - set,
    {
        ||| self.is_selected(set, f)
        ||| exists|p: int|
            {
                &&& #[trigger] self.is_selected(set, p)
                &&& child(self.nodes, p, Wanted::Kind("NAME")) is Some
                &&& child(self.nodes, p, Wanted::Kind("SELECTION_SET")) matches Some(inner)
                &&& set < inner < self.nodes.len()
                &&& self.selects(inner, f)
            }
    }
}

/// Whether the connection that node `f` is stands among connections, to be paginated.
pub open spec fn is_walked(d: Document, connections: Seq<ConnectionModel>, f: int) -> bool {
    exists|k: int|
        0 <= k < connections.len() && (#[trigger] connections[k]).paginate
            && connections[k].field_span == (d.nodes[f].start, d.nodes[f].end)
}

/// Without a limit, every page is fetched: in a document that is accepted, each connection of the
/// operation without one is found, and is to be paginated.
pub proof fn law_every_unlimited_connection_is_walked(d: Document, set: int, f: int)
    requires
        d.analysis() matches Ok(a) && a.kind is Operation,
        child(d.nodes, d.operations()[0], Wanted::Kind("SELECTION_SET")) == Some(set),
        d.selects(set, f),
        d.is_open(f),
    ensures
        is_walked(d, (d.analysis()->Ok_0).connections, f),
{
    lemma_open_is_walked(d, set, f, seq![], seq![]);
}

proof fn lemma_open_is_walked(
    d: Document,
    set: int,
    f: int,
    path: Seq<Seq<char>>,
    ancestors: Seq<Seq<char>>,
)
    requires
        d.walk(d.nodes[set].depth, set + 1, path, ancestors) is Ok,
        d.selects(set, f),
        d.is_open(f),
    ensures
        is_walked(d, d.walk(d.nodes[set].depth, set + 1, path, ancestors)->Ok_0, f),
    decreases d.nodes.len() - set,
{
    let found = d.walk(d.nodes[set].depth, set + 1, path, ancestors)->Ok_0;
    if d.is_selected(set, f) {
        lemma_walk_holds(d, set, set + 1, f, path, ancestors);
        lemma_open_has_list(d, f, path, ancestors);
        let name = child(d.nodes, f, Wanted::Kind("NAME"))->0;
        let inner = child(d.nodes, f, Wanted::Kind("SELECTION_SET"))->0;
        lemma_child(d.nodes, f, Wanted::Kind("SELECTION_SET"));
        let here = d.below(f, path, ancestors)->Ok_0;
        assert(here[0] == d.connection(f, name, inner, path, ancestors));
        assert(found.contains(here[0]));
        let k = choose|k: int| 0 <= k < found.len() && found[k] == here[0];
        assert(found[k].paginate);
    } else {
        let p = choose|p: int|
            {
                &&& #[trigger] d.is_selected(set, p)
                &&& child(d.nodes, p, Wanted::Kind("NAME")) is Some
                &&& child(d.nodes, p, Wanted::Kind("SELECTION_SET")) matches Some(inner)
                &&& set < inner < d.nodes.len()
                &&& d.selects(inner, f)
            };
        let inner = child(d.nodes, p, Wanted::Kind("SELECTION_SET"))->0;
        lemma_child(d.nodes, p, Wanted::Kind("SELECTION_SET"));
        lemma_walk_holds(d, set, set + 1, p, path, ancestors);
        lemma_selects_under(d, inner, f);
        if d.lists_from(d.nodes[inner].depth, inner + 1).len() > 0 {
            law_connection_inside_another_is_refused(d, p, inner, f, path, ancestors);
        } else {
            let deeper = path.push(d.response_key(p));
            let headed = ancestors.push(d.header(p, inner));
            lemma_open_is_walked(d, inner, f, deeper, headed);
            let here = d.below(p, path, ancestors)->Ok_0;
            let i = choose|i: int|
                0 <= i < here.len() && (#[trigger] here[i]).paginate && here[i].field_span == (
                    d.nodes[f].start,
                    d.nodes[f].end,
                );
            assert(found.contains(here[i]));
            let k = choose|k: int| 0 <= k < found.len() && found[k] == here[i];
            assert(found[k].paginate);
        }
    }
}

/// A field that is a connection through fragments only is not accepted where connections are
/// looked for.
proof fn lemma_open_has_list(d: Document, f: int, path: Seq<Seq<char>>, ancestors: Seq<Seq<char>>)
    requires
        0 <= f < d.nodes.len(),
        d.is_open(f),
        d.below(f, path, ancestors) is Ok,
    ensures
        d.has_list(f),
{
    if !d.has_list(f) {
        let edge = d.part_edge();
        let b = choose|b: int| #[trigger] reaches(edge, f, b) && d.has_list(b);
        lemma_first_step(edge, f, b);
        let y = choose|y: int| #[trigger] edge(f, y);
        assert(d.is_part(f, y));
        let inner = child(d.nodes, f, Wanted::Kind("SELECTION_SET"))->0;
        lemma_child(d.nodes, f, Wanted::Kind("SELECTION_SET"));
        let j = if d.is_direct(inner, y) && d.nodes[y].kind == "INLINE_FRAGMENT"@ {
            y
        } else {
            choose|j: int| #[trigger] d.is_direct(inner, j) && d.spreads(j, y)
        };
        lemma_fragment_stops(
            d,
            inner,
            inner + 1,
            j,
            path.push(d.response_key(f)),
            ancestors.push(d.header(f, inner)),
        );
    }
}

/// A fragment among the selections where connections are looked for is reported.
pub proof fn lemma_fragment_stops(
    d: Document,
    set: int,
    k: int,
    j: int,
    path: Seq<Seq<char>>,
    ancestors: Seq<Seq<char>>,
)
    requires
        d.is_direct(set, j),
        d.nodes[j].kind == "INLINE_FRAGMENT"@ || d.nodes[j].kind == "FRAGMENT_SPREAD"@,
        set < k <= j,
    ensures
        d.walk(d.nodes[set].depth, k, path, ancestors) is Err,
    decreases j - k,
{
    assert(d.nodes[k].depth > d.nodes[set].depth);
    if k < j {
        lemma_fragment_stops(d, set, k + 1, j, path, ancestors);
    }
}

/// What a field of a selection set adds is among what is found there.
pub proof fn lemma_walk_holds(
    d: Document,
    set: int,
    j: int,
    p: int,
    path: Seq<Seq<char>>,
    ancestors: Seq<Seq<char>>,
)
    requires
        d.is_selected(set, p),
        set < j <= p,
        d.walk(d.nodes[set].depth, j, path, ancestors) is Ok,
    ensures
        d.below(p, path, ancestors) is Ok,
        forall|i: int|
            0 <= i < (d.below(p, path, ancestors)->Ok_0).len() ==> (d.walk(
                d.nodes[set].depth,
                j,
                path,
                ancestors,
            )->Ok_0).contains(#[trigger] (d.below(p, path, ancestors)->Ok_0)[i]),
    decreases p - j,
{
    let depth = d.nodes[set].depth;
    let found = d.walk(depth, j, path, ancestors)->Ok_0;
    assert(d.nodes[j].depth > depth);
    reveal_strlit("FIELD");
    reveal_strlit("FRAGMENT_SPREAD");
    reveal_strlit("INLINE_FRAGMENT");
    assert("FIELD"@.len() == 5 && "FRAGMENT_SPREAD"@.len() == 15 && "INLINE_FRAGMENT"@.len() == 15);
    if j < p {
        lemma_walk_holds(d, set, j + 1, p, path, ancestors);
        let rest = d.walk(depth, j + 1, path, ancestors)->Ok_0;
        let here = d.below(p, path, ancestors)->Ok_0;
        assert forall|i: int| 0 <= i < here.len() implies found.contains(#[trigger] here[i]) by {
            assert(rest.contains(here[i]));
            let k = choose|k: int| 0 <= k < rest.len() && rest[k] == here[i];
            assert(found[found.len() - rest.len() + k] == here[i]);
        }
    } else {
        let here = d.below(p, path, ancestors)->Ok_0;
        assert forall|i: int| 0 <= i < here.len() implies found.contains(#[trigger] here[i]) by {
            assert(found[i] == here[i]);
        }
    }
}

/// What a selection set selects lies below it.
proof fn lemma_selects_under(d: Document, set: int, f: int)
    requires
        d.selects(set, f),
    ensures
        under(d.nodes, set, f),
    decreases d.nodes.len() - set,
{
    if !d.is_selected(set, f) {
        let p = choose|p: int|
            {
                &&& #[trigger] d.is_selected(set, p)
                &&& child(d.nodes, p, Wanted::Kind("NAME")) is Some
                &&& child(d.nodes, p, Wanted::Kind("SELECTION_SET")) matches Some(inner)
                &&& set < inner < d.nodes.len()
                &&& d.selects(inner, f)
            };
        let inner = child(d.nodes, p, Wanted::Kind("SELECTION_SET"))->0;
        lemma_child(d.nodes, p, Wanted::Kind("SELECTION_SET"));
        lemma_selects_under(d, inner, f);
        assert forall|k: int| set < k <= f implies (#[trigger] d.nodes[k]).depth
            > d.nodes[set].depth by {
            if p < k && k <= inner {
                assert(d.nodes[k].depth > d.nodes[p].depth);
            } else if k > inner {
                assert(d.nodes[k].depth > d.nodes[inner].depth);
            }
        }
    }
}

/// `auto` stands on connections to paginate only: wherever a document that is accepted has one
/// as a limit, it is among the arguments of such a connection, and the page size takes its place.
pub proof fn law_no_auto_is_left(d: Document, page_size: nat, j: int)
    requires
        0 <= j < d.nodes.len(),
        d.auto_argument(j) is Some,
        d.analysis() matches Ok(a) && a.kind is Operation,
    ensures
        claimed((d.analysis()->Ok_0).connections, d.auto_argument(j)->0),
        (d.analysis()->Ok_0).page_one_edits(page_size).contains(
            EditModel {
                from: (d.auto_argument(j)->0).0,
                to: (d.auto_argument(j)->0).1,
                text: decimal(page_size),
            },
        ),
{
    let a = d.analysis()->Ok_0;
    let span = d.auto_argument(j)->0;
    lemma_no_stray(d, a.connections, 0, j);
    let k = choose|k: int|
        0 <= k < a.connections.len() && (#[trigger] a.connections[k]).paginate
            && a.connections[k].args.auto_spans.contains(span);
    let spans = a.connections[k].args.auto_spans;
    let i = choose|i: int| 0 <= i < spans.len() && spans[i] == span;
    law_auto_is_replaced(a, page_size, k, i);
}

proof fn lemma_no_stray(d: Document, connections: Seq<ConnectionModel>, from: int, j: int)
    requires
        0 <= from <= j < d.nodes.len(),
        d.stray_from(connections, from) is None,
        d.auto_argument(j) is Some,
    ensures
        claimed(connections, d.auto_argument(j)->0),
    decreases j - from,
{
    if from < j {
        lemma_no_stray(d, connections, from + 1, j);
    }
}

/// Whatever the `pageInfo` of a connection to paginate selects, the requests ask for `hasNextPage`
/// and `endCursor`: the user does, or it is added to a `pageInfo` that is not left out. (One
/// without selections is no GraphQL; it is the server's to refuse.)
pub proof fn law_both_are_asked_for(
    d: Document,
    i: int,
    name: int,
    set: int,
    path: Seq<Seq<char>>,
    ancestors: Seq<Seq<char>>,
)
    requires
        child(d.nodes, i, Wanted::Kind("NAME")) == Some(name),
        child(d.nodes, i, Wanted::Kind("SELECTION_SET")) == Some(set),
        0 <= i < set < d.nodes.len(),
        d.lists_from(d.nodes[set].depth, set + 1).len() > 0,
        d.unlimited(i, name),
        d.below(i, path, ancestors) is Ok,
        d.info_key(set) is Some ==> d.info_open(set) is Some,
    ensures
        ({
            let c = d.connection(i, name, set, path, ancestors);
            let inner = (d.nodes[set].start + 1) as usize;
            match d.page_info_from(d.nodes[set].depth, set + 1) {
                None => page_info_edits(c) == seq![
                    EditModel {
                        from: inner,
                        to: inner,
                        text: " pageInfo { hasNextPage endCursor }"@,
                    },
                ],
                Some(p) => {
                    let depth = d.nodes[set].depth;
                    let key = d.response_key(p);
                    let next = d.asked_from(depth, set + 1, key, "hasNextPage"@);
                    let cursor = d.asked_from(depth, set + 1, key, "endCursor"@);
                    let at = d.info_open(set)->0;
                    if next && cursor {
                        page_info_edits(c) == Seq::<EditModel>::empty()
                    } else {
                        &&& !d.may_be_left_out(p)
                        &&& page_info_edits(c) == seq![
                            EditModel {
                                from: at,
                                to: at,
                                text: if cursor {
                                    " hasNextPage"@
                                } else if next {
                                    " endCursor"@
                                } else {
                                    " hasNextPage endCursor"@
                                },
                            },
                        ]
                    }
                },
            }
        }),
{
}

/// A connection to be walked to the end that lies below another connection, at any distance, is
/// reported; the file is not frozen with its first page only. Fragments are followed to tell what
/// is a connection.
pub proof fn law_connection_inside_another_is_refused(
    d: Document,
    i: int,
    set: int,
    f: int,
    path: Seq<Seq<char>>,
    ancestors: Seq<Seq<char>>,
)
    requires
        0 <= i < d.nodes.len(),
        child(d.nodes, i, Wanted::Kind("NAME")) is Some,
        child(d.nodes, i, Wanted::Kind("SELECTION_SET")) == Some(set),
        d.lists_from(d.nodes[set].depth, set + 1).len() > 0,
        under(d.nodes, set, f),
        d.is_open(f),
    ensures
        d.below(i, path, ancestors) is Err,
{
    lemma_child(d.nodes, i, Wanted::Kind("SELECTION_SET"));
    lemma_open_found(d, set, f, set + 1);
}

/// A fragment spread below a connection is reported where the fragment, or one that it leads to,
/// has a connection to be walked to the end.
pub proof fn law_spread_inside_a_connection_is_refused(
    d: Document,
    i: int,
    set: int,
    j: int,
    g: int,
    h: int,
    f: int,
    path: Seq<Seq<char>>,
    ancestors: Seq<Seq<char>>,
)
    requires
        0 <= i < d.nodes.len(),
        child(d.nodes, i, Wanted::Kind("NAME")) is Some,
        child(d.nodes, i, Wanted::Kind("SELECTION_SET")) == Some(set),
        d.lists_from(d.nodes[set].depth, set + 1).len() > 0,
        under(d.nodes, set, j),
        d.spreads(j, g),
        reaches(d.bring_edge(), g, h),
        under(d.nodes, h, f),
        d.is_open(f),
    ensures
        d.below(i, path, ancestors) is Err,
{
    lemma_child(d.nodes, i, Wanted::Kind("SELECTION_SET"));
    assert(d.covers_open(h));
    assert(d.holds_open(g));
    assert(d.is_laden(j));
    lemma_laden_found(d, set, j, set + 1);
}

/// A limit is a limit: a connection with one is accepted, as long as no connection without one
/// lies below it or comes with a fragment that is spread below it.
pub proof fn law_limited_connection_is_accepted(
    d: Document,
    i: int,
    name: int,
    set: int,
    path: Seq<Seq<char>>,
    ancestors: Seq<Seq<char>>,
)
    requires
        0 <= i < d.nodes.len(),
        child(d.nodes, i, Wanted::Kind("NAME")) == Some(name),
        child(d.nodes, i, Wanted::Kind("SELECTION_SET")) == Some(set),
        d.lists_from(d.nodes[set].depth, set + 1).len() > 0,
        !d.unlimited(i, name),
        !d.covers_open(set),
        forall|j: int| #[trigger] under(d.nodes, set, j) ==> !d.is_laden(j),
    ensures
        d.below(i, path, ancestors) == Ok::<_, Seq<char>>(
            seq![d.connection(i, name, set, path, ancestors)],
        ),
{
    lemma_child(d.nodes, i, Wanted::Kind("SELECTION_SET"));
    lemma_nothing_open(d, set, set, set + 1);
    lemma_not_crowded(d, set, set + 1);
    lemma_not_laden(d, set, set + 1);
}

/// Where nothing below a node is to be walked, nothing is found.
pub proof fn lemma_nothing_open(d: Document, set: int, j: int, k: int)
    requires
        j == set || under(d.nodes, set, j),
        0 <= set <= j < k <= d.nodes.len(),
        forall|m: int| j < m < k ==> (#[trigger] d.nodes[m]).depth > d.nodes[j].depth,
        !d.covers_open(set),
    ensures
        !d.open_from(d.nodes[j].depth, k),
    decreases d.nodes.len() - k,
{
    if !d.over(d.nodes[j].depth, k) {
        assert(under(d.nodes, set, k)) by {
            assert forall|m: int| set < m <= k implies (#[trigger] d.nodes[m]).depth
                > d.nodes[set].depth by {
                if m > j {
                    assert(d.nodes[m].depth > d.nodes[j].depth);
                }
            }
        }
        lemma_nothing_open(d, set, j, k + 1);
    }
}

pub proof fn lemma_not_crowded(d: Document, set: int, k: int)
    requires
        0 <= set < k <= d.nodes.len(),
        forall|m: int| set < m < k ==> (#[trigger] d.nodes[m]).depth > d.nodes[set].depth,
        !d.covers_open(set),
    ensures
        d.crowded_from(d.nodes[set].depth, k) is None,
    decreases d.nodes.len() - k,
{
    if !d.over(d.nodes[set].depth, k) {
        assert(under(d.nodes, set, k));
        lemma_nothing_open(d, set, k, k + 1);
        lemma_not_crowded(d, set, k + 1);
    }
}

pub proof fn lemma_not_laden(d: Document, set: int, k: int)
    requires
        0 <= set < k <= d.nodes.len(),
        forall|m: int| set < m < k ==> (#[trigger] d.nodes[m]).depth > d.nodes[set].depth,
        forall|j: int| #[trigger] under(d.nodes, set, j) ==> !d.is_laden(j),
    ensures
        d.laden_from(d.nodes[set].depth, k) is None,
    decreases d.nodes.len() - k,
{
    if !d.over(d.nodes[set].depth, k) {
        assert(under(d.nodes, set, k));
        lemma_not_laden(d, set, k + 1);
    }
}

pub proof fn lemma_open_found(d: Document, j: int, f: int, k: int)
    requires
        under(d.nodes, j, f),
        d.is_open(f),
        j < k <= f,
    ensures
        d.open_from(d.nodes[j].depth, k),
    decreases f - k,
{
    assert(d.nodes[k].depth > d.nodes[j].depth);
    if k < f {
        lemma_open_found(d, j, f, k + 1);
    }
}

pub proof fn lemma_laden_found(d: Document, j: int, f: int, k: int)
    requires
        under(d.nodes, j, f),
        d.is_laden(f),
        j < k <= f,
    ensures
        d.laden_from(d.nodes[j].depth, k) is Some,
    decreases f - k,
{
    assert(d.nodes[k].depth > d.nodes[j].depth);
    if k < f {
        lemma_laden_found(d, j, f, k + 1);
    }
}

} // verus!
