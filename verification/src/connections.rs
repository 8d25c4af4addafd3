//! What the analysis of a document says of its connections.
use vstd::prelude::*;

use crate::fragments::has_key;
use crate::graph::{law_reached_step_by_step, reaches};
use crate::json::{field, follow, law_path_leads_on, JsonModel, Reach};
use crate::query::{
    lemma_fragment_stops, lemma_laden_found, lemma_not_crowded, lemma_not_laden, lemma_nothing_open,
    lemma_open_found, lemma_walk_holds, source_analysis, ConnectionModel, Document, ListField, VarInsert,
};
use crate::syntax::{child, child_from, is_wanted, lemma_child, node_text, part, under, NodeModel, Wanted};
use crate::text::{
    decimal, is_white, joined, law_each_part_occurs, lemma_trimmed_end, occurs, occurs_at, trimmed,
};

verus! {

/// Whether node `c` is a wanted node directly below node `i`.
pub open spec fn is_child(nodes: Seq<NodeModel>, i: int, c: int, wanted: Wanted) -> bool {
    &&& under(nodes, i, c)
    &&& nodes[c].depth == nodes[i].depth + 1
    &&& is_wanted(nodes[c].kind, wanted)
}

/// Of the wanted nodes directly below a node the first one counts; only where there is none,
/// none is found.
pub proof fn law_first_child_counts(nodes: Seq<NodeModel>, i: int, wanted: Wanted)
    requires
        0 <= i < nodes.len(),
    ensures
        match child(nodes, i, wanted) {
            Some(c) => is_child(nodes, i, c, wanted) && forall|k: int|
                #[trigger] is_child(nodes, i, k, wanted) ==> c <= k,
            None => forall|k: int| !#[trigger] is_child(nodes, i, k, wanted),
        },
{
    lemma_first_child(nodes, i, i + 1, wanted);
}

proof fn lemma_first_child(nodes: Seq<NodeModel>, i: int, j: int, wanted: Wanted)
    requires
        0 <= i < j <= nodes.len(),
        forall|k: int| i < k < j ==> (#[trigger] nodes[k]).depth > nodes[i].depth,
    ensures
        match child_from(nodes, nodes[i].depth, j, wanted) {
            Some(c) => j <= c && is_child(nodes, i, c, wanted) && forall|k: int|
                j <= k && #[trigger] is_child(nodes, i, k, wanted) ==> c <= k,
            None => forall|k: int| j <= k ==> !#[trigger] is_child(nodes, i, k, wanted),
        },
    decreases nodes.len() - j,
{
    if j < nodes.len() && nodes[j].depth > nodes[i].depth {
        lemma_first_child(nodes, i, j + 1, wanted);
        assert(under(nodes, i, j));
    } else {
        assert forall|k: int| j <= k implies !#[trigger] is_child(nodes, i, k, wanted) by {
            if is_child(nodes, i, k, wanted) {
                assert(nodes[j].depth > nodes[i].depth);
            }
        }
    }
}

/// A field comes back under its alias; without an alias, under its name.
pub proof fn law_response_key(d: Document, f: int, name: int)
    requires
        child(d.nodes, f, Wanted::Kind("NAME")) == Some(name),
    ensures
        match child(d.nodes, f, Wanted::Kind("ALIAS")) {
            Some(alias) => match child(d.nodes, alias, Wanted::Kind("NAME")) {
                Some(other) => d.response_key(f) == node_text(d.source, d.nodes[other]),
                None => d.response_key(f) == node_text(d.source, d.nodes[name]),
            },
            None => d.response_key(f) == node_text(d.source, d.nodes[name]),
        },
        d.name(f) == Some(node_text(d.source, d.nodes[name])),
{
}

/// Whether fields lead from a selection set to a field: the first one is in the set, and each
/// other one in the selection set of the one before it.
pub open spec fn is_way(d: Document, set: int, way: Seq<int>) -> bool {
    &&& way.len() > 0
    &&& d.is_selected(set, way[0])
    &&& leads_on(d, way)
}

/// Whether each field but the first is in the selection set of the one before it.
pub open spec fn leads_on(d: Document, way: Seq<int>) -> bool {
    forall|i: int| 0 < i < way.len() ==> #[trigger] is_step(d, way, i)
}

/// Whether field `i` of a way is in the selection set of the one before it.
pub open spec fn is_step(d: Document, way: Seq<int>, i: int) -> bool {
    &&& child(d.nodes, way[i - 1], Wanted::Kind("SELECTION_SET")) is Some
    &&& d.is_selected(inner_set(d, way[i - 1]), way[i])
}

/// Whether a way leads through fields that are no connections themselves.
pub open spec fn is_bare_way(d: Document, set: int, way: Seq<int>) -> bool {
    is_way(d, set, way) && is_bare(d, way)
}

/// Whether fields have names, and none but the last has a list.
pub open spec fn is_bare(d: Document, way: Seq<int>) -> bool {
    &&& forall|i: int|
        0 <= i < way.len() ==> child(d.nodes, #[trigger] way[i], Wanted::Kind("NAME")) is Some
    &&& forall|i: int| 0 <= i < way.len() - 1 ==> !has_lists(d, #[trigger] way[i])
}

/// Whether a field has a `nodes` or `edges` of its own.
pub open spec fn has_lists(d: Document, f: int) -> bool {
    &&& child(d.nodes, f, Wanted::Kind("SELECTION_SET")) is Some
    &&& exists|j: int| #[trigger] is_list(d, inner_set(d, f), j)
}

/// The selection set of a field.
pub open spec fn inner_set(d: Document, f: int) -> int {
    child(d.nodes, f, Wanted::Kind("SELECTION_SET"))->0
}

/// Whether a connection is the one that a way leads to: its path has the response key of each
/// field on the way, its ancestors are the fields before the last one, and it is what the last
/// one says.
pub open spec fn is_reached(d: Document, c: ConnectionModel, way: Seq<int>) -> bool {
    &&& keys_are(d, c.path, way)
    &&& headers_are(d, c.ancestors, way)
    &&& is_described(d, way.last(), c)
}

/// Whether a path has the response key of each field on a way, one for one.
pub open spec fn keys_are(d: Document, path: Seq<Seq<char>>, way: Seq<int>) -> bool {
    &&& path.len() == way.len()
    &&& forall|i: int| 0 <= i < way.len() ==> #[trigger] path[i] == d.response_key(way[i])
}

/// Whether ancestors are the headers of the fields on a way, but for the last one.
pub open spec fn headers_are(d: Document, ancestors: Seq<Seq<char>>, way: Seq<int>) -> bool {
    &&& ancestors.len() == way.len() - 1
    &&& forall|i: int|
        0 <= i < way.len() - 1 ==> #[trigger] ancestors[i] == d.header(
            way[i],
            inner_set(d, way[i]),
        )
}

/// Whether what a connection says, but for how one gets to it, is so of field `f`.
#[verifier::opaque]
pub open spec fn is_described(d: Document, f: int, c: ConnectionModel) -> bool {
    let set = inner_set(d, f);
    &&& c.field_span == (d.nodes[f].start, d.nodes[f].end)
    &&& c.selection_span == (d.nodes[set].start, d.nodes[set].end)
    &&& child(d.nodes, f, Wanted::Kind("SELECTION_SET")) is Some
    &&& child(d.nodes, f, Wanted::Kind("NAME")) matches Some(name)
    &&& c.args.open_at == d.nodes[name].end
    &&& c.lists.len() > 0
    &&& lists_are(d, set, c.lists)
    &&& page_info_is(d, set, c)
    &&& arguments_are(d, f, c)
}

/// Whether node `f` is a list field of a selection set.
pub open spec fn is_list(d: Document, set: int, f: int) -> bool {
    d.is_selected(set, f) && (d.name(f) == Some("nodes"@) || d.name(f) == Some("edges"@))
}

/// Whether lists are the `nodes` and `edges` of a selection set, under their response keys, in
/// the order in which they are written.
pub open spec fn lists_are(d: Document, set: int, lists: Seq<(ListField, Seq<char>)>) -> bool {
    exists|at: Seq<int>| #[trigger] lists_are_at(d, set, lists, at)
}

/// [`lists_are`], with the positions of the fields.
pub open spec fn lists_are_at(
    d: Document,
    set: int,
    lists: Seq<(ListField, Seq<char>)>,
    at: Seq<int>,
) -> bool {
    &&& at.len() == lists.len()
    &&& forall|i: int, j: int| 0 <= i < j < at.len() ==> #[trigger] at[i] < #[trigger] at[j]
    &&& forall|i: int|
        0 <= i < at.len() ==> {
            let f = #[trigger] at[i];
            &&& is_list(d, set, f)
            &&& lists[i].0 is Nodes <==> d.name(f) == Some("nodes"@)
            &&& lists[i].1 == d.response_key(f)
        }
    &&& forall|f: int| #[trigger] is_list(d, set, f) ==> at.contains(f)
}

/// Whether node `p` is a `pageInfo` of a selection set.
pub open spec fn is_info(d: Document, set: int, p: int) -> bool {
    d.is_selected(set, p) && d.name(p) == Some("pageInfo"@)
}

/// Whether what a connection says of its `pageInfo` is so of the last one in its selection set.
pub open spec fn page_info_is(d: Document, set: int, c: ConnectionModel) -> bool {
    match c.page_info_key {
        Some(key) => exists|p: int|
            {
                &&& #[trigger] is_info(d, set, p)
                &&& forall|q: int| #[trigger] is_info(d, set, q) ==> q <= p
                &&& key == d.response_key(p)
                &&& match child(d.nodes, p, Wanted::Kind("SELECTION_SET")) {
                    Some(inner) => {
                        &&& c.page_info_open == Some((d.nodes[inner].start + 1) as usize)
                        &&& c.lacks_next <==> !is_sure(d, set, key, "hasNextPage"@)
                        &&& c.lacks_cursor <==> !is_sure(d, set, key, "endCursor"@)
                    },
                    None => c.page_info_open is None && !c.lacks_next && !c.lacks_cursor,
                }
            },
        None => {
            &&& forall|q: int| !#[trigger] is_info(d, set, q)
            &&& c.page_info_open is None
            &&& !c.lacks_next
            &&& !c.lacks_cursor
        },
    }
}

/// Whether a field has a directive that can leave it out: `skip` unless it says `false`, or
/// `include` unless it says `true`.
pub open spec fn is_optional(d: Document, f: int) -> bool {
    &&& child(d.nodes, f, Wanted::Kind("DIRECTIVES")) matches Some(all)
    &&& exists|k: int|
        {
            &&& #[trigger] is_child(d.nodes, all, k, Wanted::Kind("DIRECTIVE"))
            &&& {
                ||| d.name(k) == Some("skip"@) && !d.is_given(k, "false"@)
                ||| d.name(k) == Some("include"@) && !d.is_given(k, "true"@)
            }
        }
}

/// Whether a field of a `pageInfo` is sure to come back under its own name: some `pageInfo`
/// under the key has it, and neither of them has a directive that can leave it out.
pub open spec fn is_sure(d: Document, set: int, key: Seq<char>, name: Seq<char>) -> bool {
    exists|p: int, f: int|
        {
            &&& #[trigger] is_info(d, set, p)
            &&& d.response_key(p) == key
            &&& !is_optional(d, p)
            &&& child(d.nodes, p, Wanted::Kind("SELECTION_SET")) is Some
            &&& #[trigger] d.is_selected(inner_set(d, p), f)
            &&& d.name(f) == Some(name)
            &&& d.response_key(f) == name
            &&& !is_optional(d, f)
        }
}

/// Whether node `j` is a `first` or a `last` among arguments.
pub open spec fn is_bound(d: Document, args: int, j: int) -> bool {
    &&& is_child(d.nodes, args, j, Wanted::Kind("ARGUMENT"))
    &&& d.name(j) == Some("first"@) || d.name(j) == Some("last"@)
}

/// Whether the value of an argument is `auto`.
pub open spec fn is_auto(d: Document, j: int) -> bool {
    &&& child(d.nodes, j, Wanted::Value) matches Some(v)
    &&& trimmed(node_text(d.source, d.nodes[v])) == "auto"@
}

/// Whether spans are those of the values of the limits that are `auto`, in the order in which
/// they are written.
pub open spec fn autos_are(d: Document, args: int, spans: Seq<(usize, usize)>) -> bool {
    exists|at: Seq<int>| #[trigger] autos_are_at(d, args, spans, at)
}

/// [`autos_are`], with the positions of the arguments.
pub open spec fn autos_are_at(
    d: Document,
    args: int,
    spans: Seq<(usize, usize)>,
    at: Seq<int>,
) -> bool {
    &&& at.len() == spans.len()
    &&& forall|i: int, j: int| 0 <= i < j < at.len() ==> #[trigger] at[i] < #[trigger] at[j]
    &&& forall|i: int|
        0 <= i < at.len() ==> {
            let j = #[trigger] at[i];
            let v = child(d.nodes, j, Wanted::Value)->0;
            &&& is_bound(d, args, j)
            &&& is_auto(d, j)
            &&& spans[i] == (d.nodes[v].start, d.nodes[v].end)
        }
    &&& forall|j: int| #[trigger] is_bound(d, args, j) && is_auto(d, j) ==> at.contains(j)
}

/// Whether node `j` is an `after` whose value is a variable.
pub open spec fn is_cursor(d: Document, args: int, j: int) -> bool {
    &&& is_child(d.nodes, args, j, Wanted::Kind("ARGUMENT"))
    &&& d.name(j) == Some("after"@)
    &&& child(d.nodes, j, Wanted::Value) matches Some(v)
    &&& d.nodes[v].kind == "VARIABLE"@
}

/// Whether what a connection says of its arguments is so of those of field `f`: its limits, the
/// cursor that the user wrote, and that it is walked to the end unless a limit is written out and
/// no cursor is.
pub open spec fn arguments_are(d: Document, f: int, c: ConnectionModel) -> bool {
    match child(d.nodes, f, Wanted::Kind("ARGUMENTS")) {
        Some(args) => {
            &&& c.args.close_at == Some((d.nodes[args].end - 1) as usize)
            &&& c.args.has_limit <==> exists|j: int| #[trigger] is_bound(d, args, j)
            &&& autos_are(d, args, c.args.auto_spans)
            &&& if exists|j: int| #[trigger] is_cursor(d, args, j) {
                exists|j: int|
                    {
                        &&& #[trigger] is_cursor(d, args, j)
                        &&& forall|k: int| #[trigger] is_cursor(d, args, k) ==> j <= k
                        &&& c.user_cursor_var == d.name(child(d.nodes, j, Wanted::Value)->0)
                    }
            } else {
                c.user_cursor_var is None
            }
            &&& c.paginate <==> (!c.args.has_limit || c.args.auto_spans.len() > 0
                || c.user_cursor_var is Some)
        },
        None => {
            &&& c.args.close_at is None
            &&& !c.args.has_limit
            &&& c.args.auto_spans.len() == 0
            &&& c.user_cursor_var is None
            &&& c.paginate
        },
    }
}

proof fn lemma_lists(d: Document, set: int, j: int) -> (at: Seq<int>)
    requires
        0 <= set < j <= d.nodes.len(),
        forall|k: int| set < k < j ==> (#[trigger] d.nodes[k]).depth > d.nodes[set].depth,
    ensures
        ({
            let lists = d.lists_from(d.nodes[set].depth, j);
            &&& at.len() == lists.len()
            &&& forall|i: int, k: int| 0 <= i < k < at.len() ==> #[trigger] at[i] < #[trigger] at[k]
            &&& forall|i: int|
                0 <= i < at.len() ==> {
                    let f = #[trigger] at[i];
                    &&& j <= f
                    &&& is_list(d, set, f)
                    &&& lists[i].0 is Nodes <==> d.name(f) == Some("nodes"@)
                    &&& lists[i].1 == d.response_key(f)
                }
            &&& forall|f: int| j <= f && #[trigger] is_list(d, set, f) ==> at.contains(f)
        }),
    decreases d.nodes.len() - j,
{
    let depth = d.nodes[set].depth;
    reveal_strlit("nodes");
    reveal_strlit("edges");
    assert("nodes"@[0] != "edges"@[0]);
    if d.over(depth, j) {
        assert forall|f: int| j <= f && #[trigger] is_list(d, set, f) implies false by {
            assert(d.nodes[j].depth > depth);
        }
        Seq::empty()
    } else {
        assert(under(d.nodes, set, j));
        let rest = lemma_lists(d, set, j + 1);
        if d.list_at(depth, j) is Some {
            let all = seq![j] + rest;
            assert(all[0] == j);
            assert forall|f: int| j <= f && #[trigger] is_list(d, set, f) implies all.contains(f) by {
                if f > j {
                    assert(rest.contains(f));
                    let i = choose|i: int| 0 <= i < rest.len() && rest[i] == f;
                    assert(all[i + 1] == f);
                }
            }
            all
        } else {
            rest
        }
    }
}

/// The lists of a selection set are its `nodes` and `edges`, however many there are.
pub proof fn law_lists_are_found(d: Document, set: int)
    requires
        0 <= set < d.nodes.len(),
    ensures
        lists_are(d, set, d.lists_from(d.nodes[set].depth, set + 1)),
{
    let at = lemma_lists(d, set, set + 1);
    assert(lists_are_at(d, set, d.lists_from(d.nodes[set].depth, set + 1), at));
}

proof fn lemma_autos(d: Document, args: int, j: int) -> (at: Seq<int>)
    requires
        0 <= args < j <= d.nodes.len(),
        forall|k: int| args < k < j ==> (#[trigger] d.nodes[k]).depth > d.nodes[args].depth,
    ensures
        ({
            let spans = d.auto_from(d.nodes[args].depth, j);
            &&& at.len() == spans.len()
            &&& forall|i: int, k: int| 0 <= i < k < at.len() ==> #[trigger] at[i] < #[trigger] at[k]
            &&& forall|i: int|
                0 <= i < at.len() ==> {
                    let f = #[trigger] at[i];
                    let v = child(d.nodes, f, Wanted::Value)->0;
                    &&& j <= f
                    &&& is_bound(d, args, f)
                    &&& is_auto(d, f)
                    &&& spans[i] == (d.nodes[v].start, d.nodes[v].end)
                }
            &&& forall|f: int|
                j <= f && #[trigger] is_bound(d, args, f) && is_auto(d, f) ==> at.contains(f)
        }),
    decreases d.nodes.len() - j,
{
    let depth = d.nodes[args].depth;
    if d.over(depth, j) {
        assert forall|f: int| j <= f && #[trigger] is_bound(d, args, f) implies false by {
            assert(d.nodes[j].depth > depth);
        }
        Seq::empty()
    } else {
        assert(under(d.nodes, args, j));
        let rest = lemma_autos(d, args, j + 1);
        if d.auto_limit(depth, j) is Some {
            let all = seq![j] + rest;
            assert(all[0] == j);
            assert forall|f: int|
                j <= f && #[trigger] is_bound(d, args, f) && is_auto(d, f) implies all.contains(f) by {
                if f > j {
                    assert(rest.contains(f));
                    let i = choose|i: int| 0 <= i < rest.len() && rest[i] == f;
                    assert(all[i + 1] == f);
                }
            }
            all
        } else {
            rest
        }
    }
}

proof fn lemma_bounds(d: Document, args: int, j: int)
    requires
        0 <= args < j <= d.nodes.len(),
        forall|k: int| args < k < j ==> (#[trigger] d.nodes[k]).depth > d.nodes[args].depth,
    ensures
        d.limit_from(d.nodes[args].depth, j) <==> exists|k: int|
            j <= k && #[trigger] is_bound(d, args, k),
    decreases d.nodes.len() - j,
{
    let depth = d.nodes[args].depth;
    if d.over(depth, j) {
        assert forall|f: int| j <= f && #[trigger] is_bound(d, args, f) implies false by {
            assert(d.nodes[j].depth > depth);
        }
    } else {
        assert(under(d.nodes, args, j));
        lemma_bounds(d, args, j + 1);
        assert(d.is_limit(depth, j) <==> is_bound(d, args, j));
    }
}

proof fn lemma_cursor(d: Document, args: int, j: int)
    requires
        0 <= args < j <= d.nodes.len(),
        forall|k: int| args < k < j ==> (#[trigger] d.nodes[k]).depth > d.nodes[args].depth,
    ensures
        ({
            let found = d.after_from(d.nodes[args].depth, j);
            if exists|k: int| j <= k && #[trigger] is_cursor(d, args, k) {
                exists|k: int|
                    {
                        &&& j <= k
                        &&& #[trigger] is_cursor(d, args, k)
                        &&& forall|m: int| j <= m && #[trigger] is_cursor(d, args, m) ==> k <= m
                        &&& found == d.name(child(d.nodes, k, Wanted::Value)->0)
                    }
            } else {
                found is None
            }
        }),
    decreases d.nodes.len() - j,
{
    let depth = d.nodes[args].depth;
    if d.over(depth, j) {
        assert forall|f: int| j <= f && #[trigger] is_cursor(d, args, f) implies false by {
            assert(d.nodes[j].depth > depth);
        }
    } else {
        assert(under(d.nodes, args, j));
        lemma_cursor(d, args, j + 1);
        assert(d.is_after(depth, j) <==> is_cursor(d, args, j));
    }
}

proof fn lemma_optional(d: Document, all: int, k: int)
    requires
        0 <= all < k <= d.nodes.len(),
        forall|m: int| all < m < k ==> (#[trigger] d.nodes[m]).depth > d.nodes[all].depth,
    ensures
        d.omission_from(d.nodes[all].depth, k) <==> exists|m: int|
            {
                &&& k <= m
                &&& #[trigger] is_child(d.nodes, all, m, Wanted::Kind("DIRECTIVE"))
                &&& {
                    ||| d.name(m) == Some("skip"@) && !d.is_given(m, "false"@)
                    ||| d.name(m) == Some("include"@) && !d.is_given(m, "true"@)
                }
            },
    decreases d.nodes.len() - k,
{
    let depth = d.nodes[all].depth;
    if d.over(depth, k) {
        assert forall|m: int|
            k <= m && #[trigger] is_child(d.nodes, all, m, Wanted::Kind("DIRECTIVE")) implies false by {
            assert(d.nodes[k].depth > depth);
        }
    } else {
        assert(under(d.nodes, all, k));
        lemma_optional(d, all, k + 1);
        if d.is_omission(depth, k) {
            assert(is_child(d.nodes, all, k, Wanted::Kind("DIRECTIVE")));
        }
    }
}

/// A field can be left out where one of its directives can do so.
pub proof fn law_left_out(d: Document, f: int)
    requires
        0 <= f < d.nodes.len(),
    ensures
        d.may_be_left_out(f) <==> is_optional(d, f),
{
    lemma_child(d.nodes, f, Wanted::Kind("DIRECTIVES"));
    if let Some(all) = child(d.nodes, f, Wanted::Kind("DIRECTIVES")) {
        lemma_optional(d, all, all + 1);
    }
}

proof fn lemma_plain(d: Document, set: int, j: int, name: Seq<char>)
    requires
        0 <= set < j <= d.nodes.len(),
        forall|k: int| set < k < j ==> (#[trigger] d.nodes[k]).depth > d.nodes[set].depth,
    ensures
        d.plain_from(d.nodes[set].depth, j, name) <==> exists|f: int|
            {
                &&& j <= f
                &&& #[trigger] d.is_selected(set, f)
                &&& d.name(f) == Some(name)
                &&& d.response_key(f) == name
                &&& !is_optional(d, f)
            },
    decreases d.nodes.len() - j,
{
    let depth = d.nodes[set].depth;
    if d.over(depth, j) {
        assert forall|f: int| j <= f && #[trigger] d.is_selected(set, f) implies false by {
            assert(d.nodes[j].depth > depth);
        }
    } else {
        assert(under(d.nodes, set, j));
        lemma_plain(d, set, j + 1, name);
        law_left_out(d, j);
        if d.is_plain(depth, j, name) {
            assert(d.is_selected(set, j));
        }
    }
}

proof fn lemma_sure(d: Document, set: int, j: int, key: Seq<char>, name: Seq<char>)
    requires
        0 <= set < j <= d.nodes.len(),
        forall|k: int| set < k < j ==> (#[trigger] d.nodes[k]).depth > d.nodes[set].depth,
    ensures
        d.asked_from(d.nodes[set].depth, j, key, name) <==> exists|p: int, f: int|
            {
                &&& j <= p
                &&& #[trigger] is_info(d, set, p)
                &&& d.response_key(p) == key
                &&& !is_optional(d, p)
                &&& child(d.nodes, p, Wanted::Kind("SELECTION_SET")) is Some
                &&& #[trigger] d.is_selected(inner_set(d, p), f)
                &&& d.name(f) == Some(name)
                &&& d.response_key(f) == name
                &&& !is_optional(d, f)
            },
    decreases d.nodes.len() - j,
{
    let depth = d.nodes[set].depth;
    if d.over(depth, j) {
        assert forall|f: int| j <= f && #[trigger] is_info(d, set, f) implies false by {
            assert(d.nodes[j].depth > depth);
        }
    } else {
        assert(under(d.nodes, set, j));
        lemma_sure(d, set, j + 1, key, name);
        law_left_out(d, j);
        lemma_child(d.nodes, j, Wanted::Kind("SELECTION_SET"));
        assert(d.is_field(depth, j, "pageInfo"@) <==> is_info(d, set, j));
        if let Some(inner) = child(d.nodes, j, Wanted::Kind("SELECTION_SET")) {
            lemma_plain(d, inner, inner + 1, name);
            if d.is_asked(depth, j, key, name) {
                let f = choose|f: int|
                    {
                        &&& inner + 1 <= f
                        &&& #[trigger] d.is_selected(inner, f)
                        &&& d.name(f) == Some(name)
                        &&& d.response_key(f) == name
                        &&& !is_optional(d, f)
                    };
                assert(d.is_selected(inner_set(d, j), f));
            }
        }
    }
}

proof fn lemma_last_info(d: Document, set: int, j: int)
    requires
        0 <= set < j <= d.nodes.len(),
        forall|k: int| set < k < j ==> (#[trigger] d.nodes[k]).depth > d.nodes[set].depth,
    ensures
        match d.page_info_from(d.nodes[set].depth, j) {
            Some(p) => j <= p && is_info(d, set, p) && forall|q: int|
                #[trigger] is_info(d, set, q) ==> q <= p,
            None => forall|q: int| j <= q ==> !#[trigger] is_info(d, set, q),
        },
    decreases d.nodes.len() - j,
{
    let depth = d.nodes[set].depth;
    if d.over(depth, j) {
        assert forall|f: int| j <= f && #[trigger] is_info(d, set, f) implies false by {
            assert(d.nodes[j].depth > depth);
        }
    } else {
        assert(under(d.nodes, set, j));
        lemma_last_info(d, set, j + 1);
        assert(d.is_field(depth, j, "pageInfo"@) <==> is_info(d, set, j));
    }
}

proof fn lemma_connection(
    d: Document,
    f: int,
    name: int,
    set: int,
    path: Seq<Seq<char>>,
    ancestors: Seq<Seq<char>>,
)
    requires
        0 <= f < d.nodes.len(),
        child(d.nodes, f, Wanted::Kind("NAME")) == Some(name),
        child(d.nodes, f, Wanted::Kind("SELECTION_SET")) == Some(set),
        d.lists_from(d.nodes[set].depth, set + 1).len() > 0,
    ensures
        is_described(d, f, d.connection(f, name, set, path, ancestors)),
{
    reveal(is_described);
    let c = d.connection(f, name, set, path, ancestors);
    lemma_child(d.nodes, f, Wanted::Kind("SELECTION_SET"));
    law_lists_are_found(d, set);
    lemma_last_info(d, set, set + 1);
    if let Some(p) = d.page_info_from(d.nodes[set].depth, set + 1) {
        let key = d.response_key(p);
        lemma_sure(d, set, set + 1, key, "hasNextPage"@);
        lemma_sure(d, set, set + 1, key, "endCursor"@);
        assert(is_info(d, set, p));
    }
    lemma_child(d.nodes, f, Wanted::Kind("ARGUMENTS"));
    if let Some(args) = child(d.nodes, f, Wanted::Kind("ARGUMENTS")) {
        lemma_bounds(d, args, args + 1);
        lemma_cursor(d, args, args + 1);
        let at = lemma_autos(d, args, args + 1);
        assert(autos_are_at(d, args, c.args.auto_spans, at));
        if exists|j: int| #[trigger] is_bound(d, args, j) {
            let j = choose|j: int| #[trigger] is_bound(d, args, j);
            assert(args + 1 <= j && is_bound(d, args, j));
        }
        if exists|j: int| #[trigger] is_cursor(d, args, j) {
            let j = choose|j: int| #[trigger] is_cursor(d, args, j);
            assert(args + 1 <= j && is_cursor(d, args, j));
        }
    }
}

proof fn lemma_has_lists(d: Document, f: int)
    requires
        0 <= f < d.nodes.len(),
        child(d.nodes, f, Wanted::Kind("SELECTION_SET")) is Some,
    ensures
        has_lists(d, f) <==> d.lists_from(
            d.nodes[inner_set(d, f)].depth,
            inner_set(d, f) + 1,
        ).len() > 0,
{
    lemma_child(d.nodes, f, Wanted::Kind("SELECTION_SET"));
    let set = inner_set(d, f);
    let at = lemma_lists(d, set, set + 1);
    if d.lists_from(d.nodes[set].depth, set + 1).len() > 0 {
        assert(is_list(d, inner_set(d, f), at[0]));
    }
    if has_lists(d, f) {
        let j = choose|j: int| #[trigger] is_list(d, inner_set(d, f), j);
        assert(at.contains(j));
    }
}

/// Whether a connection is the one that a way leads to, once a path and ancestors lead to where
/// the way begins.
spec fn is_reached_after(
    d: Document,
    c: ConnectionModel,
    path: Seq<Seq<char>>,
    ancestors: Seq<Seq<char>>,
    way: Seq<int>,
) -> bool {
    &&& path.is_prefix_of(c.path)
    &&& ancestors.is_prefix_of(c.ancestors)
    &&& keys_are(d, c.path.skip(path.len() as int), way)
    &&& headers_are(d, c.ancestors.skip(ancestors.len() as int), way)
    &&& is_described(d, way.last(), c)
}

/// A field with a list is a connection that it leads to itself.
proof fn lemma_own_way(
    d: Document,
    f: int,
    name: int,
    set: int,
    path: Seq<Seq<char>>,
    ancestors: Seq<Seq<char>>,
)
    requires
        0 <= f < d.nodes.len(),
        child(d.nodes, f, Wanted::Kind("NAME")) == Some(name),
        child(d.nodes, f, Wanted::Kind("SELECTION_SET")) == Some(set),
        d.lists_from(d.nodes[set].depth, set + 1).len() > 0,
    ensures
        is_reached_after(
            d,
            d.connection(f, name, set, path, ancestors),
            path,
            ancestors,
            seq![f],
        ),
{
    let c = d.connection(f, name, set, path, ancestors);
    lemma_connection(d, f, name, set, path, ancestors);
    assert(path =~= c.path.take(path.len() as int));
    assert(ancestors =~= c.ancestors.take(ancestors.len() as int));
    assert(c.path.skip(path.len() as int) =~= seq![d.response_key(f)]);
    assert(c.ancestors.skip(ancestors.len() as int) =~= seq![]);
}

/// A bare way goes on being one with another field in front.
proof fn lemma_longer_way(d: Document, f: int, set: int, rest: Seq<int>)
    requires
        child(d.nodes, f, Wanted::Kind("NAME")) is Some,
        child(d.nodes, f, Wanted::Kind("SELECTION_SET")) == Some(set),
        !has_lists(d, f),
        is_bare_way(d, set, rest),
    ensures
        leads_on(d, seq![f] + rest),
        is_bare(d, seq![f] + rest),
{
    let way = seq![f] + rest;
    assert forall|i: int| 0 < i < way.len() implies #[trigger] is_step(d, way, i) by {
        assert(way[i] == rest[i - 1]);
        if i > 1 {
            assert(way[i - 1] == rest[i - 2]);
            assert(is_step(d, rest, i - 1));
        }
    }
    assert forall|i: int| 0 <= i < way.len() implies child(
        d.nodes,
        #[trigger] way[i],
        Wanted::Kind("NAME"),
    ) is Some by {
        if i > 0 {
            assert(way[i] == rest[i - 1]);
        }
    }
    assert forall|i: int| 0 <= i < way.len() - 1 implies !has_lists(d, #[trigger] way[i]) by {
        if i > 0 {
            assert(way[i] == rest[i - 1]);
        }
    }
}

/// The rest of a bare way is one, from the selection set of its first field.
proof fn lemma_shorter_way(d: Document, set: int, way: Seq<int>)
    requires
        is_bare_way(d, set, way),
        way.len() > 1,
    ensures
        child(d.nodes, way[0], Wanted::Kind("SELECTION_SET")) is Some,
        is_bare_way(d, inner_set(d, way[0]), way.skip(1)),
        !has_lists(d, way[0]),
{
    let rest = way.skip(1);
    assert(is_step(d, way, 1));
    assert forall|i: int| 0 < i < rest.len() implies #[trigger] is_step(d, rest, i) by {
        assert(rest[i] == way[i + 1]);
        assert(rest[i - 1] == way[i]);
        assert(is_step(d, way, i + 1));
    }
    assert forall|i: int| 0 <= i < rest.len() implies child(
        d.nodes,
        #[trigger] rest[i],
        Wanted::Kind("NAME"),
    ) is Some by {
        assert(rest[i] == way[i + 1]);
    }
    assert forall|i: int| 0 <= i < rest.len() - 1 implies !has_lists(d, #[trigger] rest[i]) by {
        assert(rest[i] == way[i + 1]);
    }
}

proof fn lemma_way_below(
    d: Document,
    f: int,
    path: Seq<Seq<char>>,
    ancestors: Seq<Seq<char>>,
    k: int,
) -> (way: Seq<int>)
    requires
        0 <= f < d.nodes.len(),
        d.below(f, path, ancestors) is Ok,
        0 <= k < (d.below(f, path, ancestors)->Ok_0).len(),
    ensures
        way.len() > 0,
        way[0] == f,
        leads_on(d, way),
        is_bare(d, way),
        is_reached_after(d, (d.below(f, path, ancestors)->Ok_0)[k], path, ancestors, way),
    decreases d.nodes.len() - f, 0int,
{
    let name = child(d.nodes, f, Wanted::Kind("NAME"))->0;
    let set = child(d.nodes, f, Wanted::Kind("SELECTION_SET"))->0;
    let c = (d.below(f, path, ancestors)->Ok_0)[k];
    lemma_child(d.nodes, f, Wanted::Kind("SELECTION_SET"));
    lemma_has_lists(d, f);
    if d.lists_from(d.nodes[set].depth, set + 1).len() > 0 {
        lemma_own_way(d, f, name, set, path, ancestors);
        seq![f]
    } else {
        let deeper = path.push(d.response_key(f));
        let headed = ancestors.push(d.header(f, set));
        let rest = lemma_way_walk(d, set, set + 1, deeper, headed, k);
        let way = seq![f] + rest;
        lemma_longer_way(d, f, set, rest);
        assert(way.skip(1) =~= rest);
        lemma_one_more(d, c, path, ancestors, way);
        way
    }
}

proof fn lemma_way_walk(
    d: Document,
    set: int,
    j: int,
    path: Seq<Seq<char>>,
    ancestors: Seq<Seq<char>>,
    k: int,
) -> (way: Seq<int>)
    requires
        0 <= set < j <= d.nodes.len(),
        forall|m: int| set < m < j ==> (#[trigger] d.nodes[m]).depth > d.nodes[set].depth,
        d.walk(d.nodes[set].depth, j, path, ancestors) is Ok,
        0 <= k < (d.walk(d.nodes[set].depth, j, path, ancestors)->Ok_0).len(),
    ensures
        is_bare_way(d, set, way),
        is_reached_after(
            d,
            (d.walk(d.nodes[set].depth, j, path, ancestors)->Ok_0)[k],
            path,
            ancestors,
            way,
        ),
    decreases d.nodes.len() - j, 1int,
{
    let depth = d.nodes[set].depth;
    assert(under(d.nodes, set, j));
    if d.nodes[j].depth == depth + 1 && d.nodes[j].kind == "FIELD"@ {
        let here = d.below(j, path, ancestors)->Ok_0;
        if k < here.len() {
            lemma_way_below(d, j, path, ancestors, k)
        } else {
            lemma_way_walk(d, set, j + 1, path, ancestors, k - here.len())
        }
    } else {
        lemma_way_walk(d, set, j + 1, path, ancestors, k)
    }
}

/// Every connection that is found is one that fields lead to from the selection set of the
/// operation, and everything that is said of it is so of the last of them: above all, its path
/// has the response key of each field on the way, one for one.
pub proof fn law_path_follows_the_fields(d: Document, op: int, set: int, k: int)
    requires
        0 <= op < d.nodes.len(),
        d.operations() == seq![op],
        child(d.nodes, op, Wanted::Kind("SELECTION_SET")) == Some(set),
        d.analysis() is Ok,
        0 <= k < (d.analysis()->Ok_0).connections.len(),
    ensures
        exists|way: Seq<int>|
            #[trigger] is_bare_way(d, set, way) && is_reached(
                d,
                (d.analysis()->Ok_0).connections[k],
                way,
            ),
{
    lemma_child(d.nodes, op, Wanted::Kind("SELECTION_SET"));
    assert(d.operations()[0] == op);
    let way = lemma_way_walk(d, set, set + 1, seq![], seq![], k);
    let c = (d.analysis()->Ok_0).connections[k];
    assert(c.path.skip(0) =~= c.path);
    assert(c.ancestors.skip(0) =~= c.ancestors);
}

/// So in a response that is shaped like the query, with the value of each field on the way under
/// its response key, the path of the connection leads to the value of its field.
pub proof fn law_path_leads_to_the_connection(
    d: Document,
    c: ConnectionModel,
    way: Seq<int>,
    values: Seq<JsonModel>,
)
    requires
        is_reached(d, c, way),
        values.len() == way.len() + 1,
        forall|i: int|
            0 <= i < way.len() ==> field(#[trigger] values[i], d.response_key(way[i])) == Some(
                values[i + 1],
            ),
    ensures
        follow(values[0], c.path, 0) == Reach::Found(values.last()),
{
    assert forall|i: int| 0 <= i < c.path.len() implies field(
        #[trigger] values[i],
        c.path[i],
    ) == Some(values[i + 1]) by {
        assert(c.path[i] == d.response_key(way[i]));
    }
    law_path_leads_on(values, c.path, 0);
}

/// No connection is passed over: in a document that is accepted, each field with a list that
/// fields without one lead to is among the connections.
pub proof fn law_every_connection_is_found(d: Document, op: int, set: int, way: Seq<int>)
    requires
        0 <= op < d.nodes.len(),
        d.operations() == seq![op],
        child(d.nodes, op, Wanted::Kind("SELECTION_SET")) == Some(set),
        d.analysis() is Ok,
        is_bare_way(d, set, way),
        has_lists(d, way.last()),
    ensures
        exists|k: int|
            0 <= k < (d.analysis()->Ok_0).connections.len() && is_reached(
                d,
                #[trigger] (d.analysis()->Ok_0).connections[k],
                way,
            ),
{
    lemma_child(d.nodes, op, Wanted::Kind("SELECTION_SET"));
    assert(d.operations()[0] == op);
    lemma_way_found(d, set, way, seq![], seq![]);
    let found = (d.analysis()->Ok_0).connections;
    let k = choose|k: int|
        0 <= k < found.len() && is_reached_after(d, #[trigger] found[k], seq![], seq![], way);
    assert(found[k].path.skip(0) =~= found[k].path);
    assert(found[k].ancestors.skip(0) =~= found[k].ancestors);
}

proof fn lemma_way_found(
    d: Document,
    set: int,
    way: Seq<int>,
    path: Seq<Seq<char>>,
    ancestors: Seq<Seq<char>>,
)
    requires
        d.walk(d.nodes[set].depth, set + 1, path, ancestors) is Ok,
        is_bare_way(d, set, way),
        has_lists(d, way.last()),
    ensures
        exists|k: int|
            0 <= k < (d.walk(d.nodes[set].depth, set + 1, path, ancestors)->Ok_0).len()
                && is_reached_after(
                d,
                #[trigger] (d.walk(d.nodes[set].depth, set + 1, path, ancestors)->Ok_0)[k],
                path,
                ancestors,
                way,
            ),
    decreases way.len(),
{
    let f = way[0];
    let found = d.walk(d.nodes[set].depth, set + 1, path, ancestors)->Ok_0;
    lemma_walk_holds(d, set, set + 1, f, path, ancestors);
    let here = d.below(f, path, ancestors)->Ok_0;
    let name = child(d.nodes, f, Wanted::Kind("NAME"))->0;
    let inner = inner_set(d, f);
    let i = if way.len() == 1 {
        lemma_child(d.nodes, f, Wanted::Kind("SELECTION_SET"));
        lemma_has_lists(d, f);
        lemma_own_way(d, f, name, inner, path, ancestors);
        assert(way =~= seq![f]);
        assert(here[0] == d.connection(f, name, inner, path, ancestors));
        0
    } else {
        let deeper = path.push(d.response_key(f));
        let headed = ancestors.push(d.header(f, inner));
        lemma_shorter_way(d, set, way);
        lemma_child(d.nodes, f, Wanted::Kind("SELECTION_SET"));
        lemma_has_lists(d, f);
        assert(way.skip(1).last() == way.last());
        lemma_way_found(d, inner, way.skip(1), deeper, headed);
        let i = choose|i: int|
            0 <= i < here.len() && is_reached_after(
                d,
                #[trigger] here[i],
                deeper,
                headed,
                way.skip(1),
            );
        lemma_one_more(d, here[i], path, ancestors, way);
        i
    };
    assert(found.contains(here[i]));
    let k = choose|k: int| 0 <= k < found.len() && found[k] == here[i];
    assert(is_reached_after(d, found[k], path, ancestors, way));
}

/// One more field on the way is one more key on the path.
proof fn lemma_one_more(
    d: Document,
    c: ConnectionModel,
    path: Seq<Seq<char>>,
    ancestors: Seq<Seq<char>>,
    way: Seq<int>,
)
    requires
        way.len() > 1,
        is_reached_after(
            d,
            c,
            path.push(d.response_key(way[0])),
            ancestors.push(d.header(way[0], inner_set(d, way[0]))),
            way.skip(1),
        ),
    ensures
        is_reached_after(d, c, path, ancestors, way),
{
    let rest = way.skip(1);
    let deeper = path.push(d.response_key(way[0]));
    let headed = ancestors.push(d.header(way[0], inner_set(d, way[0])));
    assert(deeper =~= c.path.take(deeper.len() as int));
    assert(headed =~= c.ancestors.take(headed.len() as int));
    assert forall|i: int| 0 <= i < deeper.len() implies #[trigger] deeper[i] == c.path[i] by {
        assert(deeper[i] == c.path.take(deeper.len() as int)[i]);
    }
    assert forall|i: int| 0 <= i < headed.len() implies #[trigger] headed[i] == c.ancestors[i] by {
        assert(headed[i] == c.ancestors.take(headed.len() as int)[i]);
    }
    assert(path =~= c.path.take(path.len() as int)) by {
        assert forall|i: int| 0 <= i < path.len() implies path[i] == c.path[i] by {
            assert(deeper[i] == path[i]);
        }
    }
    assert(ancestors =~= c.ancestors.take(ancestors.len() as int)) by {
        assert forall|i: int| 0 <= i < ancestors.len() implies ancestors[i] == c.ancestors[i] by {
            assert(headed[i] == ancestors[i]);
        }
    }
    assert(deeper[path.len() as int] == d.response_key(way[0]));
    assert(headed[ancestors.len() as int] == d.header(way[0], inner_set(d, way[0])));
    let all = c.path.skip(path.len() as int);
    let tail = c.path.skip(deeper.len() as int);
    assert forall|i: int| 0 <= i < way.len() implies #[trigger] all[i] == d.response_key(way[i]) by {
        if i > 0 {
            assert(all[i] == tail[i - 1]);
            assert(way[i] == rest[i - 1]);
        }
    }
    let heads = c.ancestors.skip(ancestors.len() as int);
    let later = c.ancestors.skip(headed.len() as int);
    assert forall|i: int| 0 <= i < way.len() - 1 implies #[trigger] heads[i] == d.header(
        way[i],
        inner_set(d, way[i]),
    ) by {
        if i > 0 {
            assert(heads[i] == later[i - 1]);
            assert(way[i] == rest[i - 1]);
        }
    }
    assert(way.last() == rest.last());
}

/// Whether node `j` is an operation of the document.
pub open spec fn is_operation(d: Document, j: int) -> bool {
    is_child(d.nodes, 0, j, Wanted::Kind("OPERATION_DEFINITION"))
}

proof fn lemma_operations(d: Document, j: int)
    requires
        0 < j <= d.nodes.len(),
        forall|k: int| 0 < k < j ==> (#[trigger] d.nodes[k]).depth > d.nodes[0].depth,
    ensures
        ({
            let ops = d.operations_from(j);
            &&& forall|i: int, k: int| 0 <= i < k < ops.len() ==> #[trigger] ops[i] < #[trigger] ops[k]
            &&& forall|i: int| 0 <= i < ops.len() ==> j <= #[trigger] ops[i] && is_operation(d, ops[i])
            &&& forall|k: int| j <= k && #[trigger] is_operation(d, k) ==> ops.contains(k)
        }),
    decreases d.nodes.len() - j,
{
    let ops = d.operations_from(j);
    if d.over(d.nodes[0].depth, j) {
        assert forall|k: int| j <= k && #[trigger] is_operation(d, k) implies false by {
            assert(d.nodes[j].depth > d.nodes[0].depth);
        }
    } else {
        assert(under(d.nodes, 0, j));
        lemma_operations(d, j + 1);
        let rest = d.operations_from(j + 1);
        if is_operation(d, j) {
            assert(ops =~= seq![j] + rest);
            assert(ops[0] == j);
            assert forall|k: int| j <= k && #[trigger] is_operation(d, k) implies ops.contains(k) by {
                if k > j {
                    assert(rest.contains(k));
                    let i = choose|i: int| 0 <= i < rest.len() && rest[i] == k;
                    assert(ops[i + 1] == k);
                }
            }
        }
    }
}

/// The operations of a document are found, all of them, in the order in which they are written.
pub proof fn law_operations_are_found(d: Document)
    requires
        d.nodes.len() > 0,
    ensures
        forall|i: int, k: int|
            0 <= i < k < d.operations().len() ==> #[trigger] d.operations()[i]
                < #[trigger] d.operations()[k],
        forall|k: int| #[trigger] is_operation(d, k) <==> d.operations().contains(k),
{
    lemma_operations(d, 1);
    let ops = d.operations();
    assert forall|k: int| #[trigger] is_operation(d, k) <==> ops.contains(k) by {
        if is_operation(d, k) {
            assert(1 <= k);
        }
    }
}

proof fn lemma_only_operation(d: Document, op: int)
    requires
        d.nodes.len() > 0,
        is_operation(d, op),
        forall|k: int| #[trigger] is_operation(d, k) ==> k == op,
    ensures
        d.operations() == seq![op],
{
    law_operations_are_found(d);
    let ops = d.operations();
    assert(ops.contains(op));
    if ops.len() > 1 {
        assert(ops.contains(ops[0]));
        assert(ops.contains(ops[1]));
        assert(is_operation(d, ops[0]) && is_operation(d, ops[1]));
        assert(ops[0] < ops[1]);
    }
    assert(ops =~= seq![op]);
}

/// A file holds one operation at most: with two of them it is refused. One without any is no
/// query: with fragments it is skipped, and without them it is empty.
pub proof fn law_one_operation_for_each_file(d: Document)
    requires
        d.nodes.len() > 0,
    ensures
        forall|i: int, j: int|
            #[trigger] is_operation(d, i) && #[trigger] is_operation(d, j) && i != j
                ==> d.analysis() is Err,
        d.analysis() matches Ok(a) ==> {
            &&& a.source == d.source
            &&& a.kind is Operation <==> exists|op: int| #[trigger] is_operation(d, op)
            &&& a.kind is FragmentsOnly <==> (forall|op: int| !#[trigger] is_operation(d, op)) && (
            exists|k: int|
                #[trigger] is_child(d.nodes, 0, k, Wanted::Kind("FRAGMENT_DEFINITION")))
            &&& !(a.kind is Operation) ==> a.connections.len() == 0 && a.operation_name is None
                && a.var_insert is None
            &&& forall|op: int| #[trigger] is_operation(d, op) ==> a.operation_name == d.name(op)
        },
        (forall|op: int| !#[trigger] is_operation(d, op)) ==> d.analysis() is Ok,
{
    law_operations_are_found(d);
    law_first_child_counts(d.nodes, 0, Wanted::Kind("FRAGMENT_DEFINITION"));
    let ops = d.operations();
    assert forall|i: int, j: int|
        #[trigger] is_operation(d, i) && #[trigger] is_operation(d, j) && i
            != j implies ops.len() > 1 by {
        let a = choose|a: int| 0 <= a < ops.len() && ops[a] == i;
        let b = choose|b: int| 0 <= b < ops.len() && ops[b] == j;
    }
    if ops.len() > 0 {
        assert(ops.contains(ops[0]));
        assert(is_operation(d, ops[0]));
    }
}

/// Whether a selection set has no fragment among its selections.
pub open spec fn is_clear(d: Document, set: int) -> bool {
    forall|j: int| #[trigger]
        d.is_direct(set, j) ==> d.nodes[j].kind != "FRAGMENT_SPREAD"@ && d.nodes[j].kind
            != "INLINE_FRAGMENT"@
}

/// Whether the `pageInfo` that counts has to be added to, and has a directive that can leave it
/// out.
pub open spec fn is_unsure(d: Document, set: int) -> bool {
    exists|p: int|
        {
            &&& #[trigger] is_info(d, set, p)
            &&& forall|q: int| #[trigger] is_info(d, set, q) ==> q <= p
            &&& is_optional(d, p)
            &&& child(d.nodes, p, Wanted::Kind("SELECTION_SET")) is Some
            &&& !is_sure(d, set, d.response_key(p), "hasNextPage"@) || !is_sure(
                d,
                set,
                d.response_key(p),
                "endCursor"@,
            )
        }
}

/// Whether nothing is wrong with a field: below a connection there is none to be walked to the
/// end, nor does a fragment bring one along, and one that is to be walked itself has no list from
/// a fragment only and a `pageInfo` to rely on; in any other field there is no fragment.
pub open spec fn is_sound(d: Document, f: int) -> bool {
    child(d.nodes, f, Wanted::Kind("SELECTION_SET")) matches Some(set) ==> if has_lists(d, f) {
        &&& !d.covers_open(set)
        &&& forall|j: int| #[trigger] under(d.nodes, set, j) ==> !d.is_laden(j)
        &&& d.unlimited(f, child(d.nodes, f, Wanted::Kind("NAME"))->0) ==> !d.has_odd_list(f, set)
            && !is_unsure(d, set)
    } else {
        is_clear(d, set)
    }
}

proof fn lemma_unsure(d: Document, set: int)
    requires
        0 <= set < d.nodes.len(),
    ensures
        d.is_vague(set) <==> is_unsure(d, set),
{
    lemma_last_info(d, set, set + 1);
    if let Some(p) = d.page_info_from(d.nodes[set].depth, set + 1) {
        let key = d.response_key(p);
        lemma_sure(d, set, set + 1, key, "hasNextPage"@);
        lemma_sure(d, set, set + 1, key, "endCursor"@);
        law_left_out(d, p);
        assert(is_info(d, set, p));
    }
}

proof fn lemma_sound(d: Document, f: int, name: int, set: int, path: Seq<Seq<char>>)
    requires
        0 <= f < d.nodes.len(),
        child(d.nodes, f, Wanted::Kind("NAME")) == Some(name),
        child(d.nodes, f, Wanted::Kind("SELECTION_SET")) == Some(set),
        has_lists(d, f),
    ensures
        d.hindrance(f, name, set, path) is None <==> is_sound(d, f),
{
    lemma_child(d.nodes, f, Wanted::Kind("SELECTION_SET"));
    lemma_unsure(d, set);
    if d.covers_open(set) {
        let g = choose|g: int| #[trigger] under(d.nodes, set, g) && d.is_open(g);
        lemma_open_found(d, set, g, set + 1);
    } else {
        lemma_nothing_open(d, set, set, set + 1);
        lemma_not_crowded(d, set, set + 1);
        if exists|j: int| #[trigger] under(d.nodes, set, j) && d.is_laden(j) {
            let j = choose|j: int| #[trigger] under(d.nodes, set, j) && d.is_laden(j);
            lemma_laden_found(d, set, j, set + 1);
        } else {
            lemma_not_laden(d, set, set + 1);
        }
    }
}

proof fn lemma_sound_below(d: Document, f: int, path: Seq<Seq<char>>, ancestors: Seq<Seq<char>>)
    requires
        0 <= f < d.nodes.len(),
        child(d.nodes, f, Wanted::Kind("NAME")) is Some ==> is_sound(d, f),
        child(d.nodes, f, Wanted::Kind("NAME")) is Some && child(
            d.nodes,
            f,
            Wanted::Kind("SELECTION_SET"),
        ) is Some && !has_lists(d, f) ==> forall|way: Seq<int>|
            #[trigger] is_bare_way(d, inner_set(d, f), way) ==> is_sound(d, way.last()),
    ensures
        d.below(f, path, ancestors) is Ok,
    decreases d.nodes.len() - f, 0int,
{
    match (
        child(d.nodes, f, Wanted::Kind("NAME")),
        child(d.nodes, f, Wanted::Kind("SELECTION_SET")),
    ) {
        (Some(name), Some(set)) => {
            lemma_child(d.nodes, f, Wanted::Kind("SELECTION_SET"));
            lemma_has_lists(d, f);
            if has_lists(d, f) {
                lemma_sound(d, f, name, set, path.push(d.response_key(f)));
            } else {
                lemma_sound_walk(
                    d,
                    set,
                    set + 1,
                    path.push(d.response_key(f)),
                    ancestors.push(d.header(f, set)),
                );
            }
        },
        _ => {},
    }
}

proof fn lemma_sound_walk(
    d: Document,
    set: int,
    j: int,
    path: Seq<Seq<char>>,
    ancestors: Seq<Seq<char>>,
)
    requires
        0 <= set < j <= d.nodes.len(),
        forall|m: int| set < m < j ==> (#[trigger] d.nodes[m]).depth > d.nodes[set].depth,
        is_clear(d, set),
        forall|way: Seq<int>| #[trigger] is_bare_way(d, set, way) ==> is_sound(d, way.last()),
    ensures
        d.walk(d.nodes[set].depth, j, path, ancestors) is Ok,
    decreases d.nodes.len() - j, 1int,
{
    let depth = d.nodes[set].depth;
    if !d.over(depth, j) {
        assert(under(d.nodes, set, j));
        if d.nodes[j].depth == depth + 1 {
            assert(d.is_direct(set, j));
        }
        if d.nodes[j].depth == depth + 1 && d.nodes[j].kind == "FIELD"@ {
            if child(d.nodes, j, Wanted::Kind("NAME")) is Some {
                let own = seq![j];
                assert(is_bare_way(d, set, own));
                assert(own.last() == j);
                if child(d.nodes, j, Wanted::Kind("SELECTION_SET")) is Some && !has_lists(d, j) {
                    assert forall|way: Seq<int>|
                        #[trigger] is_bare_way(d, inner_set(d, j), way) implies is_sound(
                        d,
                        way.last(),
                    ) by {
                        lemma_longer_way(d, j, inner_set(d, j), way);
                        let longer = seq![j] + way;
                        assert(longer[0] == j);
                        assert(is_bare_way(d, set, longer));
                        assert(longer.last() == way.last());
                    }
                }
            }
            lemma_sound_below(d, j, path, ancestors);
        }
        lemma_sound_walk(d, set, j + 1, path, ancestors);
    }
}

/// Whether an `auto` limit is one of a connection that fields without a list lead to.
pub open spec fn is_placed(d: Document, set: int, j: int) -> bool {
    exists|way: Seq<int>|
        {
            &&& #[trigger] is_bare_way(d, set, way)
            &&& has_lists(d, way.last())
            &&& child(d.nodes, way.last(), Wanted::Kind("ARGUMENTS")) matches Some(args)
            &&& is_bound(d, args, j)
        }
}

/// A document is accepted where there is nothing wrong with it: it has one operation, with a
/// selection set, no fragment where connections are looked for, nothing wrong with a field that
/// is looked at, and `auto` on connections only.
pub proof fn law_sound_document_is_accepted(d: Document, op: int, set: int)
    requires
        d.nodes.len() > 0,
        is_operation(d, op),
        forall|k: int| #[trigger] is_operation(d, k) ==> k == op,
        child(d.nodes, op, Wanted::Kind("SELECTION_SET")) == Some(set),
        is_clear(d, set),
        forall|way: Seq<int>| #[trigger] is_bare_way(d, set, way) ==> is_sound(d, way.last()),
        forall|j: int|
            0 <= j < d.nodes.len() && (#[trigger] d.nodes[j]).kind == "ARGUMENT"@ && (d.name(j)
                == Some("first"@) || d.name(j) == Some("last"@)) && is_auto(d, j) ==> is_placed(
                d,
                set,
                j,
            ),
    ensures
        d.analysis() is Ok,
{
    lemma_only_operation(d, op);
    assert(d.operations()[0] == op);
    lemma_child(d.nodes, op, Wanted::Kind("SELECTION_SET"));
    lemma_sound_walk(d, set, set + 1, seq![], seq![]);
    let found = d.walk(d.nodes[set].depth, set + 1, seq![], seq![])->Ok_0;
    assert forall|j: int| 0 <= j < d.nodes.len() && #[trigger] d.auto_argument(j) is Some implies (
    d.auto_argument(j) matches Some(span) && crate::query::claimed(found, span)) by {
        let span = d.auto_argument(j)->0;
        assert(d.nodes[j].kind == "ARGUMENT"@);
        assert(is_placed(d, set, j));
        let way = choose|way: Seq<int>|
            {
                &&& #[trigger] is_bare_way(d, set, way)
                &&& has_lists(d, way.last())
                &&& child(d.nodes, way.last(), Wanted::Kind("ARGUMENTS")) matches Some(args)
                &&& is_bound(d, args, j)
            };
        lemma_way_found(d, set, way, seq![], seq![]);
        let k = choose|k: int|
            0 <= k < found.len() && is_reached_after(d, #[trigger] found[k], seq![], seq![], way);
        lemma_claimed(d, way.last(), found[k], j);
        assert(found[k].paginate && found[k].args.auto_spans.contains(span));
    }
    lemma_no_stray(d, found, 0);
}

proof fn lemma_claimed(d: Document, f: int, c: ConnectionModel, j: int)
    requires
        is_described(d, f, c),
        child(d.nodes, f, Wanted::Kind("ARGUMENTS")) matches Some(args) && is_bound(d, args, j),
        d.auto_at(j) is Some,
    ensures
        c.paginate,
        c.args.auto_spans.contains(d.auto_at(j)->0),
{
    reveal(is_described);
    let args = child(d.nodes, f, Wanted::Kind("ARGUMENTS"))->0;
    let at = choose|at: Seq<int>| #[trigger] autos_are_at(d, args, c.args.auto_spans, at);
    assert(is_auto(d, j));
    assert(at.contains(j));
    let i = choose|i: int| 0 <= i < at.len() && at[i] == j;
    assert(c.args.auto_spans[i] == d.auto_at(j)->0);
}

proof fn lemma_no_stray(d: Document, found: Seq<ConnectionModel>, from: int)
    requires
        0 <= from <= d.nodes.len(),
        forall|j: int|
            0 <= j < d.nodes.len() && #[trigger] d.auto_argument(j) is Some ==> (d.auto_argument(
                j,
            ) matches Some(span) && crate::query::claimed(found, span)),
    ensures
        d.stray_from(found, from) is None,
    decreases d.nodes.len() - from,
{
    if from < d.nodes.len() {
        lemma_no_stray(d, found, from + 1);
        if d.auto_argument(from) is Some {
            assert(crate::query::claimed(found, d.auto_argument(from)->0));
        }
    }
}

/// Nothing wrong is let pass: in a document that is accepted there is no fragment where
/// connections are looked for, and nothing wrong with any field that is looked at.
pub proof fn law_accepted_document_is_sound(d: Document, op: int, set: int, way: Seq<int>)
    requires
        0 <= op < d.nodes.len(),
        d.operations() == seq![op],
        child(d.nodes, op, Wanted::Kind("SELECTION_SET")) == Some(set),
        d.analysis() is Ok,
    ensures
        is_clear(d, set),
        is_bare_way(d, set, way) ==> is_sound(d, way.last()),
{
    assert(d.operations()[0] == op);
    lemma_child(d.nodes, op, Wanted::Kind("SELECTION_SET"));
    lemma_clear(d, set, seq![], seq![]);
    if is_bare_way(d, set, way) {
        lemma_all_sound(d, set, way, seq![], seq![]);
    }
}

proof fn lemma_clear(d: Document, set: int, path: Seq<Seq<char>>, ancestors: Seq<Seq<char>>)
    requires
        d.walk(d.nodes[set].depth, set + 1, path, ancestors) is Ok,
    ensures
        is_clear(d, set),
{
    assert forall|j: int| #[trigger] d.is_direct(set, j) implies d.nodes[j].kind
        != "FRAGMENT_SPREAD"@ && d.nodes[j].kind != "INLINE_FRAGMENT"@ by {
        if d.nodes[j].kind == "FRAGMENT_SPREAD"@ || d.nodes[j].kind == "INLINE_FRAGMENT"@ {
            lemma_fragment_stops(d, set, set + 1, j, path, ancestors);
        }
    }
}

proof fn lemma_all_sound(
    d: Document,
    set: int,
    way: Seq<int>,
    path: Seq<Seq<char>>,
    ancestors: Seq<Seq<char>>,
)
    requires
        d.walk(d.nodes[set].depth, set + 1, path, ancestors) is Ok,
        is_bare_way(d, set, way),
    ensures
        is_sound(d, way.last()),
    decreases way.len(),
{
    let f = way[0];
    lemma_walk_holds(d, set, set + 1, f, path, ancestors);
    let name = child(d.nodes, f, Wanted::Kind("NAME"))->0;
    let inner = inner_set(d, f);
    let deeper = path.push(d.response_key(f));
    let headed = ancestors.push(d.header(f, inner));
    lemma_child(d.nodes, f, Wanted::Kind("SELECTION_SET"));
    if way.len() == 1 {
        if child(d.nodes, f, Wanted::Kind("SELECTION_SET")) is Some {
            lemma_has_lists(d, f);
            if has_lists(d, f) {
                lemma_sound(d, f, name, inner, deeper);
            } else {
                lemma_clear(d, inner, deeper, headed);
            }
        }
    } else {
        lemma_shorter_way(d, set, way);
        lemma_has_lists(d, f);
        assert(way.skip(1).last() == way.last());
        lemma_all_sound(d, inner, way.skip(1), deeper, headed);
    }
}

/// What is kept of an ancestor is its text up to its selection set, without the white space
/// before that.
pub proof fn law_header_is_all_before_the_selections(d: Document, i: int, set: int)
    ensures
        ({
            let before = part(d.source, d.nodes[i].start as int, d.nodes[set].start as int);
            let header = d.header(i, set);
            &&& header.is_prefix_of(before)
            &&& forall|k: int| header.len() <= k < before.len() ==> is_white(#[trigger] before[k])
            &&& header.len() > 0 ==> !is_white(header.last())
        }),
{
    let before = part(d.source, d.nodes[i].start as int, d.nodes[set].start as int);
    let to = lemma_trimmed_end(before);
}

/// Variables are declared behind those that there are, inside the bracket; else behind the name
/// of the operation, or behind `query` where it has none; an operation that is only a selection
/// set is given a header in front of it.
pub proof fn law_variables_are_declared_in_the_operation(d: Document, op: int, set: int)
    requires
        d.operations() == seq![op],
        child(d.nodes, op, Wanted::Kind("SELECTION_SET")) == Some(set),
        d.analysis() is Ok,
    ensures
        ({
            let variables = child(d.nodes, op, Wanted::Kind("VARIABLE_DEFINITIONS"));
            let keyword = child(d.nodes, op, Wanted::Kind("OPERATION_TYPE"));
            let name = child(d.nodes, op, Wanted::Kind("NAME"));
            (d.analysis()->Ok_0).var_insert == Some(
                if variables is Some {
                    VarInsert::Extend((d.nodes[variables->0].end - 1) as usize)
                } else if keyword is None {
                    VarInsert::Shorthand(d.nodes[set].start)
                } else if name is Some {
                    VarInsert::After(d.nodes[name->0].end)
                } else {
                    VarInsert::After(d.nodes[keyword->0].end)
                },
            )
        }),
{
    assert(d.operations()[0] == op);
}

/// A refusal says where: it begins with the path to the connection, or to the list in it, that is
/// the matter; or it names the fragment that is spread.
pub proof fn law_refusal_says_where(
    d: Document,
    i: int,
    name: int,
    set: int,
    path: Seq<Seq<char>>,
)
    requires
        0 <= set < d.nodes.len(),
        d.hindrance(i, name, set, path) is Some,
    ensures
        ({
            let message = d.hindrance(i, name, set, path)->0;
            ||| joined(path, "."@).is_prefix_of(message)
            ||| exists|f: int|
                #[trigger] is_list(d, set, f) && joined(
                    path.push(d.response_key(f)),
                    "."@,
                ).is_prefix_of(message)
            ||| exists|j: int|
                #[trigger] under(d.nodes, set, j) && d.is_laden(j) && message == d.spread_message(j)
        }),
{
    let depth = d.nodes[set].depth;
    let message = d.hindrance(i, name, set, path)->0;
    lemma_crowded(d, set, set + 1);
    lemma_laden(d, set, set + 1);
    match d.crowded_from(depth, set + 1) {
        Some(key) => {
            let f = choose|f: int| #[trigger] is_list(d, set, f) && d.response_key(f) == key;
            let begin = joined(path.push(d.response_key(f)), "."@);
            assert(begin =~= message.take(begin.len() as int));
        },
        None => {
            let begin = joined(path, "."@);
            if d.open_from(depth, set + 1) || d.laden_from(depth, set + 1) is None {
                assert(begin =~= message.take(begin.len() as int));
            }
        },
    }
}

proof fn lemma_crowded(d: Document, set: int, j: int)
    requires
        0 <= set < j <= d.nodes.len(),
        forall|m: int| set < m < j ==> (#[trigger] d.nodes[m]).depth > d.nodes[set].depth,
    ensures
        d.crowded_from(d.nodes[set].depth, j) matches Some(key) ==> exists|f: int|
            #[trigger] is_list(d, set, f) && d.response_key(f) == key,
    decreases d.nodes.len() - j,
{
    let depth = d.nodes[set].depth;
    if !d.over(depth, j) {
        assert(under(d.nodes, set, j));
        lemma_crowded(d, set, j + 1);
        if d.list_at(depth, j) is Some {
            assert(is_list(d, set, j));
        }
    }
}

proof fn lemma_laden(d: Document, set: int, j: int)
    requires
        0 <= set < j <= d.nodes.len(),
        forall|m: int| set < m < j ==> (#[trigger] d.nodes[m]).depth > d.nodes[set].depth,
    ensures
        d.laden_from(d.nodes[set].depth, j) matches Some(f) ==> under(d.nodes, set, f)
            && d.is_laden(f),
    decreases d.nodes.len() - j,
{
    if !d.over(d.nodes[set].depth, j) {
        assert(under(d.nodes, set, j));
        lemma_laden(d, set, j + 1);
    }
}

/// A directive is given `if` with a value where its first argument is `if` and has that value.
pub proof fn law_directive_is_given(d: Document, k: int, value: Seq<char>)
    ensures
        d.is_given(k, value) <==> match child(d.nodes, k, Wanted::Kind("ARGUMENTS")) {
            Some(args) => match child(d.nodes, args, Wanted::Kind("ARGUMENT")) {
                Some(first) => match child(d.nodes, first, Wanted::Value) {
                    Some(v) => d.name(first) == Some("if"@) && trimmed(
                        node_text(d.source, d.nodes[v]),
                    ) == value,
                    None => false,
                },
                None => false,
            },
            None => false,
        },
{
}

/// Whether a fragment gives its selections to node `x`: it is inline there, or it is defined
/// under the name of one that is spread there.
pub open spec fn is_fragment_of(d: Document, x: int, y: int) -> bool {
    &&& child(d.nodes, x, Wanted::Kind("SELECTION_SET")) is Some
    &&& {
        ||| is_child(d.nodes, inner_set(d, x), y, Wanted::Kind("INLINE_FRAGMENT"))
        ||| exists|j: int|
            #[trigger] is_child(d.nodes, inner_set(d, x), j, Wanted::Kind("FRAGMENT_SPREAD"))
                && names_fragment(d, j, y)
    }
}

/// Whether node `j` has the name of the fragment that node `g` defines.
pub open spec fn names_fragment(d: Document, j: int, g: int) -> bool {
    &&& 0 <= g < d.nodes.len()
    &&& d.nodes[g].kind == "FRAGMENT_DEFINITION"@
    &&& child(d.nodes, j, Wanted::Kind("FRAGMENT_NAME")) matches Some(a)
    &&& child(d.nodes, g, Wanted::Kind("FRAGMENT_NAME")) matches Some(b)
    &&& child(d.nodes, a, Wanted::Kind("NAME")) matches Some(x)
    &&& child(d.nodes, b, Wanted::Kind("NAME")) matches Some(y)
    &&& node_text(d.source, d.nodes[x]) == node_text(d.source, d.nodes[y])
}

proof fn lemma_fragment_of(d: Document, x: int, y: int)
    ensures
        d.is_part(x, y) <==> is_fragment_of(d, x, y),
        d.part_edge()(x, y) <==> is_fragment_of(d, x, y),
{
    if d.is_part(x, y) {
        let set = inner_set(d, x);
        if !is_child(d.nodes, set, y, Wanted::Kind("INLINE_FRAGMENT")) {
            let j = choose|j: int| #[trigger] d.is_direct(set, j) && d.spreads(j, y);
            assert(is_child(d.nodes, set, j, Wanted::Kind("FRAGMENT_SPREAD")));
            assert(names_fragment(d, j, y));
        }
    }
    if is_fragment_of(d, x, y) {
        let set = inner_set(d, x);
        if !is_child(d.nodes, set, y, Wanted::Kind("INLINE_FRAGMENT")) {
            let j = choose|j: int|
                #[trigger] is_child(d.nodes, set, j, Wanted::Kind("FRAGMENT_SPREAD"))
                    && names_fragment(d, j, y);
            assert(d.is_direct(set, j) && d.spreads(j, y));
        }
    }
}

/// A field is a connection where it has a list itself, or through a fragment of it, or of that,
/// and so on.
pub proof fn law_connection_through_fragments(d: Document, f: int)
    requires
        0 <= f < d.nodes.len(),
    ensures
        d.is_connection(f) <==> has_lists(d, f) || exists|y: int|
            #[trigger] is_fragment_of(d, f, y) && d.is_connection(y),
{
    let edge = d.part_edge();
    if child(d.nodes, f, Wanted::Kind("SELECTION_SET")) is Some {
        lemma_has_lists(d, f);
    }
    if d.is_connection(f) {
        let b = choose|b: int| #[trigger] reaches(edge, f, b) && d.has_list(b);
        law_reached_step_by_step(edge, f, b);
        if f != b {
            let c = choose|c: int| #[trigger] edge(f, c) && reaches(edge, c, b);
            lemma_fragment_of(d, f, c);
            assert(d.is_connection(c));
        }
    }
    if has_lists(d, f) {
        law_reached_step_by_step(edge, f, f);
        assert(d.has_list(f));
    }
    if exists|y: int| #[trigger] is_fragment_of(d, f, y) && d.is_connection(y) {
        let y = choose|y: int| #[trigger] is_fragment_of(d, f, y) && d.is_connection(y);
        let b = choose|b: int| #[trigger] reaches(edge, y, b) && d.has_list(b);
        lemma_fragment_of(d, f, y);
        assert(edge(f, y) && reaches(edge, y, b));
        law_reached_step_by_step(edge, f, b);
    }
}

/// A connection is walked to the end unless it is the list of one, or a limit is written out and
/// no cursor is.
pub proof fn law_what_is_walked_to_the_end(d: Document, f: int)
    requires
        0 <= f < d.nodes.len(),
    ensures
        d.is_open(f) <==> {
            &&& d.nodes[f].kind == "FIELD"@
            &&& d.name(f) is Some
            &&& d.name(f) != Some("nodes"@)
            &&& d.name(f) != Some("edges"@)
            &&& d.is_connection(f)
            &&& is_endless(d, f)
        },
{
    lemma_child(d.nodes, f, Wanted::Kind("ARGUMENTS"));
    if let Some(args) = child(d.nodes, f, Wanted::Kind("ARGUMENTS")) {
        lemma_bounds(d, args, args + 1);
        lemma_cursor(d, args, args + 1);
        let at = lemma_autos(d, args, args + 1);
        if exists|j: int| #[trigger] is_bound(d, args, j) {
            let j = choose|j: int| #[trigger] is_bound(d, args, j);
            assert(args + 1 <= j && is_bound(d, args, j));
        }
        if exists|j: int| #[trigger] is_bound(d, args, j) && is_auto(d, j) {
            let j = choose|j: int| #[trigger] is_bound(d, args, j) && is_auto(d, j);
            assert(at.contains(j));
        }
        if at.len() > 0 {
            assert(is_bound(d, args, at[0]) && is_auto(d, at[0]));
        }
        if exists|j: int| #[trigger] is_first_cursor(d, args, j) {
            let j = choose|j: int| #[trigger] is_first_cursor(d, args, j);
            assert(args + 1 <= j && is_cursor(d, args, j));
        }
        if d.after_from(d.nodes[args].depth, args + 1) is Some {
            let k = choose|k: int|
                {
                    &&& args + 1 <= k
                    &&& #[trigger] is_cursor(d, args, k)
                    &&& forall|m: int|
                        args + 1 <= m && #[trigger] is_cursor(d, args, m) ==> k <= m
                    &&& d.after_from(d.nodes[args].depth, args + 1) == d.name(
                        child(d.nodes, k, Wanted::Value)->0,
                    )
                };
            assert(is_first_cursor(d, args, k));
        }
    }
}

/// Whether node `j` is the first `after` whose value is a variable.
pub open spec fn is_first_cursor(d: Document, args: int, j: int) -> bool {
    &&& is_cursor(d, args, j)
    &&& forall|k: int| #[trigger] is_cursor(d, args, k) ==> j <= k
}

/// Whether a field has no limit, one that is `auto`, or a cursor that the user wrote.
pub open spec fn is_endless(d: Document, f: int) -> bool {
    child(d.nodes, f, Wanted::Kind("ARGUMENTS")) matches Some(args) ==> {
        ||| forall|j: int| !#[trigger] is_bound(d, args, j)
        ||| exists|j: int| #[trigger] is_bound(d, args, j) && is_auto(d, j)
        ||| exists|j: int|
            #[trigger] is_first_cursor(d, args, j) && d.name(child(d.nodes, j, Wanted::Value)->0)
                is Some
    }
}

/// A spread brings a connection to be walked along where there is one in the fragment that it
/// names, or in one that is spread in that, and so on.
pub proof fn law_spread_brings_connections_along(d: Document, j: int, g: int)
    requires
        0 <= j < d.nodes.len(),
    ensures
        d.is_laden(j) <==> d.nodes[j].kind == "FRAGMENT_SPREAD"@ && exists|h: int|
            #[trigger] names_fragment(d, j, h) && d.holds_open(h),
        d.holds_open(g) <==> {
            ||| exists|f: int| #[trigger] under(d.nodes, g, f) && d.is_open(f)
            ||| exists|k: int, h: int|
                #[trigger] under(d.nodes, g, k) && d.nodes[k].kind == "FRAGMENT_SPREAD"@
                    && #[trigger] names_fragment(d, k, h) && d.holds_open(h)
        },
{
    let edge = d.bring_edge();
    if d.is_laden(j) {
        let h = choose|h: int| #[trigger] d.spreads(j, h) && d.holds_open(h);
        assert(names_fragment(d, j, h));
    }
    if d.nodes[j].kind == "FRAGMENT_SPREAD"@ && exists|h: int|
        #[trigger] names_fragment(d, j, h) && d.holds_open(h) {
        let h = choose|h: int| #[trigger] names_fragment(d, j, h) && d.holds_open(h);
        assert(d.spreads(j, h));
    }
    if d.holds_open(g) {
        let h = choose|h: int| #[trigger] reaches(edge, g, h) && d.covers_open(h);
        law_reached_step_by_step(edge, g, h);
        if g != h {
            let c = choose|c: int| #[trigger] edge(g, c) && reaches(edge, c, h);
            assert(d.is_brought(g, c));
            let k = choose|k: int| #[trigger] under(d.nodes, g, k) && d.spreads(k, c);
            assert(names_fragment(d, k, c));
            assert(d.holds_open(c));
        }
    }
    if exists|f: int| #[trigger] under(d.nodes, g, f) && d.is_open(f) {
        assert(d.covers_open(g));
        law_reached_step_by_step(edge, g, g);
    }
    if exists|k: int, h: int|
        #[trigger] under(d.nodes, g, k) && d.nodes[k].kind == "FRAGMENT_SPREAD"@
            && #[trigger] names_fragment(d, k, h) && d.holds_open(h) {
        let (k, h) = choose|k: int, h: int|
            #[trigger] under(d.nodes, g, k) && d.nodes[k].kind == "FRAGMENT_SPREAD"@
                && #[trigger] names_fragment(d, k, h) && d.holds_open(h);
        let b = choose|b: int| #[trigger] reaches(edge, h, b) && d.covers_open(b);
        assert(d.spreads(k, h));
        assert(d.is_brought(g, h));
        assert(edge(g, h) && reaches(edge, h, b));
        law_reached_step_by_step(edge, g, b);
    }
}

/// A fragment adds a list to a connection where it, or a fragment of it, and so on, has one under
/// a key under which the connection itself has none.
pub proof fn law_list_from_a_fragment(d: Document, x: int, set: int)
    requires
        0 <= x < d.nodes.len(),
        0 <= set < d.nodes.len(),
    ensures
        d.has_odd_list(x, set) <==> {
            ||| child(d.nodes, x, Wanted::Kind("SELECTION_SET")) is Some && exists|f: int|
                #[trigger] is_list(d, inner_set(d, x), f) && forall|g: int|
                    #[trigger] is_list(d, set, g) ==> d.response_key(g) != d.response_key(f)
            ||| exists|y: int| #[trigger] is_fragment_of(d, x, y) && d.has_odd_list(y, set)
        },
{
    let edge = d.part_edge();
    lemma_odd(d, x, set);
    if d.has_odd_list(x, set) {
        let b = choose|b: int| #[trigger] reaches(edge, x, b) && d.is_odd(b, set);
        law_reached_step_by_step(edge, x, b);
        if x != b {
            let c = choose|c: int| #[trigger] edge(x, c) && reaches(edge, c, b);
            lemma_fragment_of(d, x, c);
            assert(d.has_odd_list(c, set));
        }
    }
    if d.is_odd(x, set) {
        law_reached_step_by_step(edge, x, x);
    }
    if exists|y: int| #[trigger] is_fragment_of(d, x, y) && d.has_odd_list(y, set) {
        let y = choose|y: int| #[trigger] is_fragment_of(d, x, y) && d.has_odd_list(y, set);
        let b = choose|b: int| #[trigger] reaches(edge, y, b) && d.is_odd(b, set);
        lemma_fragment_of(d, x, y);
        assert(edge(x, y) && reaches(edge, y, b));
        law_reached_step_by_step(edge, x, b);
    }
}

proof fn lemma_odd(d: Document, x: int, set: int)
    requires
        0 <= x < d.nodes.len(),
        0 <= set < d.nodes.len(),
    ensures
        d.is_odd(x, set) <==> child(d.nodes, x, Wanted::Kind("SELECTION_SET")) is Some && exists|
            f: int,
        |
            #[trigger] is_list(d, inner_set(d, x), f) && forall|g: int|
                #[trigger] is_list(d, set, g) ==> d.response_key(g) != d.response_key(f),
{
    lemma_child(d.nodes, x, Wanted::Kind("SELECTION_SET"));
    if child(d.nodes, x, Wanted::Kind("SELECTION_SET")) is Some {
        let inner = inner_set(d, x);
        let own = d.lists_from(d.nodes[inner].depth, inner + 1);
        let others = d.lists_from(d.nodes[set].depth, set + 1);
        let at = lemma_lists(d, inner, inner + 1);
        let to = lemma_lists(d, set, set + 1);
        assert forall|key: Seq<char>| #[trigger] has_key(others, key) <==> exists|g: int|
            #[trigger] is_list(d, set, g) && d.response_key(g) == key by {
            if has_key(others, key) {
                let k = choose|k: int| 0 <= k < others.len() && (#[trigger] others[k]).1 == key;
                assert(is_list(d, set, to[k]));
            }
            if exists|g: int| #[trigger] is_list(d, set, g) && d.response_key(g) == key {
                let g = choose|g: int| #[trigger] is_list(d, set, g) && d.response_key(g) == key;
                assert(to.contains(g));
                let k = choose|k: int| 0 <= k < to.len() && to[k] == g;
                assert(others[k].1 == key);
            }
        }
        if d.is_odd(x, set) {
            let k = choose|k: int| 0 <= k < own.len() && !has_key(others, (#[trigger] own[k]).1);
            assert(is_list(d, inner_set(d, x), at[k]));
            assert(d.response_key(at[k]) == own[k].1);
        }
        if exists|f: int|
            #[trigger] is_list(d, inner_set(d, x), f) && forall|g: int|
                #[trigger] is_list(d, set, g) ==> d.response_key(g) != d.response_key(f) {
            let f = choose|f: int|
                #[trigger] is_list(d, inner_set(d, x), f) && forall|g: int|
                    #[trigger] is_list(d, set, g) ==> d.response_key(g) != d.response_key(f);
            assert(at.contains(f));
            let k = choose|k: int| 0 <= k < at.len() && at[k] == f;
            assert(own[k].1 == d.response_key(f));
            assert(!has_key(others, own[k].1));
        }
    }
}

/// A file with several operations is refused with how many there are, and the name of each.
pub proof fn law_several_operations_are_named(d: Document, i: int)
    requires
        d.operations().len() > 1,
        0 <= i < d.operations().len(),
    ensures
        d.analysis() matches Err(message) && (("this file holds "@ + decimal(d.operations().len())
            + " operations ("@).is_prefix_of(message) && (d.name(d.operations()[i]) matches Some(name)
            ==> occurs(message, name))),
{
    let names = d.operation_names();
    let head = "this file holds "@ + decimal(d.operations().len()) + " operations ("@;
    let list = joined(names, ", "@);
    let tail = ") — gqlfreez expects one operation per file"@;
    let message = head + list + tail;
    assert(head =~= message.take(head.len() as int));
    if let Some(name) = d.name(d.operations()[i]) {
        assert(names[i] == name);
        law_each_part_occurs(names, ", "@, i);
        lemma_occurs_in_longer(head, list, tail, name);
    }
}

proof fn lemma_occurs_in_longer(head: Seq<char>, text: Seq<char>, tail: Seq<char>, part: Seq<char>)
    requires
        occurs(text, part),
    ensures
        occurs(head + text + tail, part),
{
    let at = choose|at: int| occurs_at(text, part, at);
    let all = head + text + tail;
    assert(all.subrange(head.len() + at, head.len() + at + part.len()) =~= text.subrange(
        at,
        at + part.len(),
    ));
    assert(occurs_at(all, part, head.len() + at));
}

/// A fragment that is in the way is reported by its name, and an `auto` that is out of place as it
/// is written.
pub proof fn law_what_is_out_of_place_is_shown(d: Document, j: int)
    ensures
        d.fragment_name(j) matches Some(name) ==> ("fragment spread `..."@ + name
            + "` — gqlfreez cannot yet read a connection through a fragment"@).is_prefix_of(
            d.spread_message(j),
        ),
        ("`"@ + node_text(d.source, d.nodes[j]) + "`"@).is_prefix_of(d.stray_message(j)),
{
    if let Some(name) = d.fragment_name(j) {
        let begin = "fragment spread `..."@ + name;
        reveal_strlit("` — gqlfreez cannot yet read a connection through a fragment");
        reveal_strlit("` — gqlfreez cannot yet read a connection through a fragment; inline it for now");
        let more = begin + "` — gqlfreez cannot yet read a connection through a fragment"@;
        let message = d.spread_message(j);
        assert(more =~= message.take(more.len() as int));
    }
    let shown = "`"@ + node_text(d.source, d.nodes[j]) + "`"@;
    let message = d.stray_message(j);
    assert(shown =~= message.take(shown.len() as int));
}

/// A source with a syntax error is refused with where it is and what the parser says of it; any
/// other source is what its tree says.
pub proof fn law_syntax_errors_are_refused(
    source: Seq<char>,
    nodes: Seq<NodeModel>,
    index: usize,
    why: Seq<char>,
)
    ensures
        source_analysis(source, Err((index, why))) == Err::<crate::query::AnalysisModel, _>(
            "syntax error at byte "@ + decimal(index as nat) + ": "@ + why,
        ),
        source_analysis(source, Ok(nodes)) == (Document { source, nodes }).analysis(),
{
}

} // verus!
