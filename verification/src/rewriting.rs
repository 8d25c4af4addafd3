//! What the documents that are sent ask for.
use vstd::prelude::*;
use vstd::utf8::*;

use crate::edit::{
    apart, fits, holds_bytes_at, lands, later, lemma_boundary_in_part, lemma_in_order,
    lemma_rewritten_bytes, moved, patched, rewritten, EditModel,
};
use crate::query::{
    additions, analysis_fits, argument_edits, auto_edits, connection_edits, connection_fits,
    edit_within, lemma_connection_edits, lemma_free, page_info_edits, wrapped,
    AnalysisModel, ConnectionModel, VarInsert,
};
use crate::sort::arranged;
use crate::syntax::{bytes, lemma_boundary_in_prefix, part};
use crate::text::{decimal, joined, law_parts_are_joined, occurs};

verus! {

/// The text that adds the arguments that a connection to paginate lacks: a limit of the page
/// size, and the cursor.
pub open spec fn missing(c: ConnectionModel, var: Seq<char>, page_size: nat) -> Seq<char> {
    if !c.args.has_limit && c.user_cursor_var is None {
        "first: "@ + decimal(page_size) + ", "@ + "after: $"@ + var
    } else if !c.args.has_limit {
        "first: "@ + decimal(page_size)
    } else {
        "after: $"@ + var
    }
}

/// Whether an edit is one of those that make a connection paginated: the page size in place of an
/// `auto`, the arguments that it lacks behind those that it has or behind its name, `pageInfo`
/// where it has none, or in it what it lacks.
pub open spec fn is_needed(
    c: ConnectionModel,
    var: Seq<char>,
    page_size: nat,
    e: EditModel,
) -> bool {
    ||| c.args.auto_spans.contains((e.from, e.to)) && e.text == decimal(page_size)
    ||| {
        &&& !c.args.has_limit || c.user_cursor_var is None
        &&& e.from == e.to
        &&& match c.args.close_at {
            Some(close) => e.from == close && e.text == ", "@ + missing(c, var, page_size),
            None => e.from == c.args.open_at && e.text == "("@ + missing(c, var, page_size) + ")"@,
        }
    }
    ||| {
        &&& c.page_info_key is None
        &&& e.from == e.to
        &&& e.from == (c.selection_span.0 + 1) as usize
        &&& e.text == " pageInfo { hasNextPage endCursor }"@
    }
    ||| {
        &&& c.page_info_key is Some
        &&& c.page_info_open matches Some(at) && e.from == at
        &&& e.from == e.to
        &&& {
            ||| c.lacks_next && c.lacks_cursor && e.text == " hasNextPage endCursor"@
            ||| c.lacks_next && !c.lacks_cursor && e.text == " hasNextPage"@
            ||| !c.lacks_next && c.lacks_cursor && e.text == " endCursor"@
        }
    }
}

proof fn lemma_missing(c: ConnectionModel, var: Seq<char>, page_size: nat)
    ensures
        additions(c, var, page_size).len() > 0 <==> !c.args.has_limit || c.user_cursor_var is None,
        additions(c, var, page_size).len() > 0 ==> joined(additions(c, var, page_size), ", "@)
            == missing(c, var, page_size),
{
    let all = additions(c, var, page_size);
    let limit = seq!["first: "@ + decimal(page_size)];
    let after = seq!["after: $"@ + var];
    law_parts_are_joined(limit, after, ", "@);
    law_parts_are_joined(after, limit, ", "@);
    if !c.args.has_limit && c.user_cursor_var is None {
        assert(all =~= limit + after);
        assert(missing(c, var, page_size) =~= limit[0] + ", "@ + after[0]);
    } else if !c.args.has_limit {
        assert(all =~= limit);
    } else if c.user_cursor_var is None {
        assert(all =~= after);
    }
}

/// A connection to paginate is given all that it lacks, and nothing else happens to it.
pub proof fn law_connection_is_given_what_it_lacks(
    c: ConnectionModel,
    var: Seq<char>,
    page_size: nat,
    e: EditModel,
)
    ensures
        connection_edits(c, var, page_size).contains(e) <==> is_needed(c, var, page_size, e),
{
    lemma_missing(c, var, page_size);
    let autos = auto_edits(c, page_size);
    let arguments = argument_edits(c, var, page_size);
    let info = page_info_edits(c);
    let all = connection_edits(c, var, page_size);
    if all.contains(e) {
        let i = choose|i: int| 0 <= i < all.len() && all[i] == e;
        if i < autos.len() {
            assert(c.args.auto_spans[i] == (e.from, e.to));
        } else if i < autos.len() + arguments.len() {
            assert(e == arguments[i - autos.len()]);
        } else {
            assert(e == info[i - autos.len() - arguments.len()]);
        }
    }
    if is_needed(c, var, page_size, e) {
        if c.args.auto_spans.contains((e.from, e.to)) && e.text == decimal(page_size) {
            let i = choose|i: int|
                0 <= i < c.args.auto_spans.len() && c.args.auto_spans[i] == (e.from, e.to);
            assert(autos[i] == e);
            assert(all[i] == e);
        } else if arguments.len() > 0 && arguments[0] == e {
            assert(all[autos.len() as int] == e);
        } else {
            assert(info[0] == e);
            assert(all[autos.len() as int + arguments.len()] == e);
        }
    }
}

/// Whether an edit declares the cursor variables, in the list of variables that there is, in one
/// of their own, or in a header where the operation has none.
pub open spec fn declares(a: AnalysisModel, e: EditModel) -> bool {
    let list = joined(a.declarations(a.connections.len() as int), ", "@);
    &&& exists|k: int|
        0 <= k < a.connections.len() && (#[trigger] a.connections[k]).paginate
            && a.connections[k].user_cursor_var is None
    &&& e.from == e.to
    &&& match a.var_insert {
        Some(VarInsert::Extend(at)) => e.from == at && e.text == ", "@ + list,
        Some(VarInsert::After(at)) => e.from == at && e.text == "("@ + list + ")"@,
        Some(VarInsert::Shorthand(at)) => e.from == at && e.text == "query gqlfreez("@ + list
            + ") "@,
        None => false,
    }
}

/// For page 1, all that the connections to paginate lack is added, with the variables that they
/// need; nothing else happens to the source.
pub proof fn law_page_one_asks_for_all_connections(a: AnalysisModel, page_size: nat, e: EditModel)
    ensures
        a.page_one_edits(page_size).contains(e) <==> (declares(a, e) || exists|k: int|
            0 <= k < a.connections.len() && (#[trigger] a.connections[k]).paginate && is_needed(
                a.connections[k],
                a.cursor(k),
                page_size,
                e,
            )),
{
    let n = a.connections.len() as int;
    let most = a.edits(page_size, n);
    let last = a.declaration_edits();
    let all = a.page_one_edits(page_size);
    lemma_edits(a, page_size, n, e);
    law_each_cursor_is_declared(a, n);
    let names = choose|at: Seq<int>| #[trigger] are_declared(a, n, at);
    if declares(a, e) {
        let k = choose|k: int|
            0 <= k < a.connections.len() && (#[trigger] a.connections[k]).paginate
                && a.connections[k].user_cursor_var is None;
        assert(names.contains(k));
        assert(last[0] == e);
        assert(all[most.len() as int] == e);
    }
    if last.len() > 0 {
        assert(a.connections[names[0]].paginate);
    }
    if all.contains(e) {
        let i = choose|i: int| 0 <= i < all.len() && all[i] == e;
        if i < most.len() {
            assert(most[i] == e);
        } else {
            assert(last[i - most.len()] == e);
        }
    }
    if most.contains(e) {
        let i = choose|i: int| 0 <= i < most.len() && most[i] == e;
        assert(all[i] == e);
    }
}

proof fn lemma_edits(a: AnalysisModel, page_size: nat, n: int, e: EditModel)
    requires
        0 <= n <= a.connections.len(),
    ensures
        a.edits(page_size, n).contains(e) <==> exists|k: int|
            0 <= k < n && (#[trigger] a.connections[k]).paginate && is_needed(
                a.connections[k],
                a.cursor(k),
                page_size,
                e,
            ),
    decreases n,
{
    let all = a.edits(page_size, n);
    if n > 0 {
        lemma_edits(a, page_size, n - 1, e);
        let c = a.connections[n - 1];
        let earlier = a.edits(page_size, n - 1);
        let here = connection_edits(c, a.cursor(n - 1), page_size);
        law_connection_is_given_what_it_lacks(c, a.cursor(n - 1), page_size, e);
        if c.paginate {
            if all.contains(e) {
                let i = choose|i: int| 0 <= i < all.len() && all[i] == e;
                if i < earlier.len() {
                    assert(earlier[i] == e);
                } else {
                    assert(here[i - earlier.len()] == e);
                }
            }
            if earlier.contains(e) {
                let i = choose|i: int| 0 <= i < earlier.len() && earlier[i] == e;
                assert(all[i] == e);
            }
            if here.contains(e) {
                let i = choose|i: int| 0 <= i < here.len() && here[i] == e;
                assert(all[earlier.len() + i] == e);
            }
        }
    }
}

/// Whether the declarations are those of the cursors of the connections at the given places, and
/// these are the ones to paginate whose cursor the user did not write.
pub open spec fn are_declared(a: AnalysisModel, n: int, at: Seq<int>) -> bool {
    &&& at.len() == a.declarations(n).len()
    &&& forall|i: int, j: int| 0 <= i < j < at.len() ==> #[trigger] at[i] < #[trigger] at[j]
    &&& forall|i: int|
        0 <= i < at.len() ==> {
            let k = #[trigger] at[i];
            &&& 0 <= k < n
            &&& a.connections[k].paginate
            &&& a.connections[k].user_cursor_var is None
            &&& a.declarations(n)[i] == "$"@ + a.cursor(k) + ": String"@
        }
    &&& forall|k: int|
        0 <= k < n && (#[trigger] a.connections[k]).paginate && a.connections[k].user_cursor_var
            is None ==> at.contains(k)
}

/// Each cursor variable that was generated is declared, once, as a text that may be null; those
/// that the user wrote they declared themselves.
pub proof fn law_each_cursor_is_declared(a: AnalysisModel, n: int)
    requires
        0 <= n <= a.connections.len(),
    ensures
        exists|at: Seq<int>| #[trigger] are_declared(a, n, at),
{
    let at = lemma_declared(a, n);
}

proof fn lemma_declared(a: AnalysisModel, n: int) -> (at: Seq<int>)
    requires
        0 <= n <= a.connections.len(),
    ensures
        are_declared(a, n, at),
    decreases n,
{
    if n == 0 {
        Seq::empty()
    } else {
        let before = lemma_declared(a, n - 1);
        let c = a.connections[n - 1];
        if c.paginate && c.user_cursor_var is None {
            let at = before.push(n - 1);
            assert(at[before.len() as int] == n - 1);
            assert forall|k: int|
                0 <= k < n && (#[trigger] a.connections[k]).paginate
                    && a.connections[k].user_cursor_var is None implies at.contains(k) by {
                if k < n - 1 {
                    let i = choose|i: int| 0 <= i < before.len() && before[i] == k;
                    assert(at[i] == k);
                }
            }
            at
        } else {
            before
        }
    }
}

/// The connections to paginate are those, in the order in which they are written.
pub proof fn law_paginated_connections(a: AnalysisModel, n: int)
    requires
        0 <= n <= a.connections.len(),
    ensures
        forall|i: int, j: int|
            0 <= i < j < a.paginated(n).len() ==> #[trigger] a.paginated(n)[i]
                < #[trigger] a.paginated(n)[j],
        forall|k: int| #[trigger]
            a.paginated(n).contains(k) <==> 0 <= k < n && a.connections[k].paginate,
    decreases n,
{
    if n > 0 {
        law_paginated_connections(a, n - 1);
        let before = a.paginated(n - 1);
        let all = a.paginated(n);
        assert forall|i: int| 0 <= i < before.len() implies #[trigger] before[i] < n - 1 by {
            assert(before.contains(before[i]));
        }
        assert forall|k: int| #[trigger] all.contains(k) <==> 0 <= k < n
            && a.connections[k].paginate by {
            if a.connections[n - 1].paginate {
                assert(all[before.len() as int] == n - 1);
                if before.contains(k) {
                    let i = choose|i: int| 0 <= i < before.len() && before[i] == k;
                    assert(all[i] == k);
                }
                if all.contains(k) && k != n - 1 {
                    let i = choose|i: int| 0 <= i < all.len() && all[i] == k;
                    assert(before[i] == k);
                }
            }
            assert(before.contains(k) <==> 0 <= k < n - 1 && a.connections[k].paginate);
        }
    }
}

/// The cursor variable is the one that the user wrote; else it is named after the place of the
/// connection, with as many underscores behind it as it takes to be free.
pub proof fn law_cursor_variable(a: AnalysisModel, i: int, longer: nat)
    requires
        0 <= i < a.connections.len(),
    ensures
        match a.connections[i].user_cursor_var {
            Some(name) => a.cursor(i) == name,
            None => {
                let name = "gqlfreez_cursor"@ + "_"@ + decimal(i as nat);
                &&& name.is_prefix_of(a.cursor(i))
                &&& forall|k: int| name.len() <= k < a.cursor(i).len() ==> #[trigger] a.cursor(i)[k] == '_'
                &&& name.len() <= longer < a.cursor(i).len() ==> occurs(
                    a.source,
                    seq!['$'] + a.cursor(i).take(longer as int),
                )
                &&& !occurs(a.source, seq!['$'] + a.cursor(i))
            },
        },
{
    if a.connections[i].user_cursor_var is None {
        let name = "gqlfreez_cursor"@ + "_"@ + decimal(i as nat);
        lemma_free(a.source, name);
        lemma_underscores(a.source, name, longer);
    }
}

proof fn lemma_underscores(source: Seq<char>, name: Seq<char>, longer: nat)
    ensures
        name.len() <= longer < crate::query::free_name(source, name).len() ==> occurs(
            source,
            seq!['$'] + crate::query::free_name(source, name).take(longer as int),
        ),
    decreases source.len() - name.len(),
{
    if occurs(source, seq!['$'] + name) {
        lemma_underscores(source, name.push('_'), longer);
        lemma_free(source, name);
        let free = crate::query::free_name(source, name);
        if longer == name.len() && longer < free.len() {
            assert(free.take(longer as int) =~= name);
        }
    }
}

/// Ancestors are put around a selection, the first one outermost.
pub proof fn law_ancestors_are_put_around(first: Seq<char>, rest: Seq<Seq<char>>, body: Seq<char>)
    ensures
        wrapped(seq![], body) == body,
        wrapped(seq![first] + rest, body) == first + " { "@ + wrapped(rest, body) + " }"@,
    decreases rest.len(),
{
    let all = seq![first] + rest;
    if rest.len() == 0 {
        assert(all =~= seq![first]);
        assert(all.drop_last() =~= seq![]);
        assert(wrapped(all.drop_last(), first + " { "@ + body + " }"@) == first + " { "@ + body
            + " }"@);
    } else {
        assert(all.last() == rest.last());
        assert(all.drop_last() =~= seq![first] + rest.drop_last());
        law_ancestors_are_put_around(
            first,
            rest.drop_last(),
            rest.last() + " { "@ + body + " }"@,
        );
    }
}

/// A later page is asked for by an operation with the one variable that it needs, the cursor, and
/// with the field of the connection only, below its ancestors.
pub proof fn law_later_page_asks_for_its_connection_only(a: AnalysisModel, i: int, page_size: nat)
    requires
        0 <= i < a.connections.len(),
    ensures
        a.derived(i, page_size) == "query gqlfreez($"@ + a.cursor(i) + ": String) { "@ + wrapped(
            a.connections[i].ancestors,
            a.derived_field(i, page_size),
        ) + " }"@,
{
}

/// The field of a connection is asked for in the same way for every page: what is added to it for
/// a later page is what is added to it for page 1, in the same places.
pub proof fn law_every_page_is_asked_for_alike(a: AnalysisModel, i: int, page_size: nat, e: EditModel)
    requires
        0 <= i < a.connections.len(),
        a.connections[i].paginate,
        a.connections[i].field_span.0 <= e.from <= e.to,
        is_needed(a.connections[i], a.cursor(i), page_size, e),
    ensures
        a.page_one_edits(page_size).contains(e),
        moved(
            connection_edits(a.connections[i], a.cursor(i), page_size),
            a.connections[i].field_span.0 as int,
        ).contains(
            EditModel {
                from: (e.from - a.connections[i].field_span.0) as usize,
                to: (e.to - a.connections[i].field_span.0) as usize,
                text: e.text,
            },
        ),
{
    let c = a.connections[i];
    law_page_one_asks_for_all_connections(a, page_size, e);
    law_connection_is_given_what_it_lacks(c, a.cursor(i), page_size, e);
    let here = connection_edits(c, a.cursor(i), page_size);
    let k = choose|k: int| 0 <= k < here.len() && here[k] == e;
    let there = moved(here, c.field_span.0 as int);
    assert(there[k] == (EditModel {
        from: (e.from - c.field_span.0) as usize,
        to: (e.to - c.field_span.0) as usize,
        text: e.text,
    }));
}

/// Where the stretch of the source before edit `i` begins.
pub open spec fn stretch_from(edits: Seq<EditModel>, i: int) -> int {
    if i <= 0 {
        0
    } else {
        edits[i - 1].to as int
    }
}

/// Where it ends.
pub open spec fn stretch_to(source: Seq<u8>, edits: Seq<EditModel>, i: int) -> int {
    if i >= edits.len() {
        source.len() as int
    } else {
        edits[i].from as int
    }
}

/// Whether bytes are a source with the text of each edit in its place: the text of edit `i`
/// stands at offset `at[i]`, and between two of them is what lies between the edits in the source.
pub open spec fn is_patched(
    source: Seq<u8>,
    edits: Seq<EditModel>,
    at: Seq<int>,
    out: Seq<u8>,
) -> bool {
    &&& at.len() == edits.len()
    &&& forall|i: int| 0 <= i < edits.len() ==> #[trigger] stands_at(edits, at, out, i)
    &&& forall|i: int| 0 <= i <= edits.len() ==> #[trigger] runs_on(source, edits, at, out, i)
}

/// Whether the text of edit `i` stands in its place.
pub open spec fn stands_at(edits: Seq<EditModel>, at: Seq<int>, out: Seq<u8>, i: int) -> bool {
    holds_bytes_at(out, bytes(edits[i].text), at[i])
}

/// Whether the stretch of the source before edit `i` follows the text of the edit before it.
pub open spec fn runs_on(
    source: Seq<u8>,
    edits: Seq<EditModel>,
    at: Seq<int>,
    out: Seq<u8>,
    i: int,
) -> bool {
    let from = if i <= 0 {
        0
    } else {
        at[i - 1] + bytes(edits[i - 1].text).len()
    };
    let to = if i >= edits.len() {
        out.len() as int
    } else {
        at[i]
    };
    &&& 0 <= from <= to <= out.len()
    &&& 0 <= stretch_from(edits, i) <= stretch_to(source, edits, i) <= source.len()
    &&& out.subrange(from, to) == source.subrange(
        stretch_from(edits, i),
        stretch_to(source, edits, i),
    )
}

proof fn lemma_patched(source: Seq<u8>, edits: Seq<EditModel>) -> (at: Seq<int>)
    requires
        forall|i: int|
            0 <= i < edits.len() ==> (#[trigger] edits[i]).from <= edits[i].to <= source.len(),
        forall|i: int, j: int|
            0 <= i < j < edits.len() ==> (#[trigger] edits[i]).to <= (#[trigger] edits[j]).from,
    ensures
        is_patched(source, edits, at, patched(source, edits)),
    decreases edits.len(),
{
    let out = patched(source, edits);
    if edits.len() == 0 {
        let at = Seq::<int>::empty();
        assert(out.subrange(0, out.len() as int) =~= source.subrange(0, source.len() as int));
        assert(runs_on(source, edits, at, out, 0));
        at
    } else {
        let e = edits.last();
        let n = edits.len() - 1;
        assert(e == edits[n]);
        let fewer = edits.drop_last();
        let head = source.subrange(0, e.from as int);
        let tail = source.subrange(e.to as int, source.len() as int);
        assert forall|i: int| 0 <= i < fewer.len() implies (#[trigger] fewer[i]).from <= fewer[i].to
            <= head.len() by {
            assert(fewer[i] == edits[i]);
        }
        let before = lemma_patched(head, fewer);
        let first = patched(head, fewer);
        let text = bytes(e.text);
        let at = before.push(first.len() as int);
        assert(out == first + text + tail);
        assert forall|i: int| 0 <= i < edits.len() implies #[trigger] stands_at(edits, at, out, i) by {
            if i < n {
                assert(stands_at(fewer, before, first, i));
                let piece = bytes(edits[i].text);
                assert(out.subrange(at[i], at[i] + piece.len()) =~= first.subrange(
                    at[i],
                    at[i] + piece.len(),
                ));
            } else {
                assert(out.subrange(at[n], at[n] + text.len()) =~= text);
            }
        }
        assert forall|i: int| 0 <= i <= edits.len() implies #[trigger] runs_on(
            source,
            edits,
            at,
            out,
            i,
        ) by {
            if i <= n {
                assert(runs_on(head, fewer, before, first, i));
                let from = if i <= 0 {
                    0
                } else {
                    at[i - 1] + bytes(edits[i - 1].text).len()
                };
                assert(out.subrange(from, at[i]) =~= first.subrange(from, at[i]));
                assert(head.subrange(stretch_from(edits, i), stretch_to(source, edits, i))
                    =~= source.subrange(stretch_from(edits, i), stretch_to(source, edits, i)));
            } else {
                assert(out.subrange(at[n] + text.len(), out.len() as int) =~= tail);
            }
        }
        at
    }
}

/// Whether edits are the given ones, one after the other in the source.
pub open spec fn is_in_order(edits: Seq<EditModel>, sorted: Seq<EditModel>) -> bool {
    &&& sorted.to_multiset() == edits.to_multiset()
    &&& forall|i: int, j: int|
        0 <= i < j < sorted.len() ==> (#[trigger] sorted[i]).to <= (#[trigger] sorted[j]).from
}

/// Rewriting puts the text of every edit in its place, and changes nothing else.
pub proof fn law_every_edit_takes_effect(source: Seq<char>, edits: Seq<EditModel>)
    requires
        fits(bytes(source), edits),
    ensures
        exists|sorted: Seq<EditModel>, at: Seq<int>|
            is_in_order(edits, sorted) && #[trigger] is_patched(
                bytes(source),
                sorted,
                at,
                bytes(rewritten(source, edits)),
            ),
{
    let sorted = arranged(edits, later());
    lemma_rewritten_bytes(source, edits);
    lemma_in_order(bytes(source), edits);
    crate::sort::lemma_arranged(edits, later());
    assert forall|i: int| 0 <= i < sorted.len() implies (#[trigger] sorted[i]).from <= sorted[i].to
        <= bytes(source).len() by {
        assert(lands(bytes(source), sorted[i]));
    }
    let at = lemma_patched(bytes(source), sorted);
    assert(is_in_order(edits, sorted));
}

/// Whether an edit is one of those that make page 1: one that a connection to paginate needs, or
/// the one that declares the cursors.
pub open spec fn makes_page_one(a: AnalysisModel, page_size: nat, e: EditModel) -> bool {
    declares(a, e) || exists|k: int|
        0 <= k < a.connections.len() && (#[trigger] a.connections[k]).paginate && is_needed(
            a.connections[k],
            a.cursor(k),
            page_size,
            e,
        )
}

/// Whether a text is another one with edits in it, one after the other, and no other change.
pub open spec fn is_text_with(
    text: Seq<char>,
    sorted: Seq<EditModel>,
    at: Seq<int>,
    out: Seq<char>,
) -> bool {
    &&& forall|i: int, j: int|
        0 <= i < j < sorted.len() ==> (#[trigger] sorted[i]).to <= (#[trigger] sorted[j]).from
    &&& is_patched(bytes(text), sorted, at, bytes(out))
}

/// The document for page 1 is the source, with all that its connections to paginate lack, each
/// in its place, and nothing else.
pub proof fn law_page_one_is_the_source_completed(a: AnalysisModel, page_size: nat)
    requires
        analysis_fits(a),
    ensures
        exists|sorted: Seq<EditModel>, at: Seq<int>|
            #[trigger] is_text_with(a.source, sorted, at, a.page_one(page_size)) && forall|e: EditModel|
                #[trigger] sorted.contains(e) <==> makes_page_one(a, page_size, e),
{
    let edits = a.page_one_edits(page_size);
    a.lemma_page_one_edits(page_size);
    law_every_edit_takes_effect(a.source, edits);
    let (sorted, at) = choose|sorted: Seq<EditModel>, at: Seq<int>|
        is_in_order(edits, sorted) && #[trigger] is_patched(
            bytes(a.source),
            sorted,
            at,
            bytes(rewritten(a.source, edits)),
        );
    assert(is_text_with(a.source, sorted, at, a.page_one(page_size)));
    assert forall|e: EditModel| #[trigger] sorted.contains(e) <==> makes_page_one(a, page_size, e) by {
        lemma_same_members(edits, sorted, e);
        law_page_one_asks_for_all_connections(a, page_size, e);
    }
}

proof fn lemma_same_members(x: Seq<EditModel>, y: Seq<EditModel>, e: EditModel)
    requires
        x.to_multiset() == y.to_multiset(),
    ensures
        x.contains(e) <==> y.contains(e),
{
    broadcast use vstd::seq_lib::group_to_multiset_ensures;

    assert(x.contains(e) <==> x.to_multiset().count(e) > 0);
    assert(y.contains(e) <==> y.to_multiset().count(e) > 0);
}

/// Whether an edit in the text of a field is one that its connection needs, with its place
/// counted from where the field begins.
pub open spec fn completes(
    c: ConnectionModel,
    var: Seq<char>,
    page_size: nat,
    e: EditModel,
) -> bool {
    exists|f: EditModel|
        {
            &&& #[trigger] is_needed(c, var, page_size, f)
            &&& e.from == f.from - c.field_span.0
            &&& e.to == f.to - c.field_span.0
            &&& e.text == f.text
        }
}

/// The field that is asked for page after page is that of the connection, as the user wrote it,
/// with all that it lacks, each in its place, and nothing else.
pub proof fn law_later_page_is_the_field_completed(a: AnalysisModel, i: int, page_size: nat)
    requires
        analysis_fits(a),
        0 <= i < a.connections.len(),
    ensures
        ({
            let c = a.connections[i];
            exists|sorted: Seq<EditModel>, at: Seq<int>|
                #[trigger] is_text_with(
                    part(a.source, c.field_span.0 as int, c.field_span.1 as int),
                    sorted,
                    at,
                    a.derived_field(i, page_size),
                ) && forall|e: EditModel|
                    #[trigger] sorted.contains(e) <==> completes(c, a.cursor(i), page_size, e)
        }),
{
    let c = a.connections[i];
    let b = bytes(a.source);
    let field = part(a.source, c.field_span.0 as int, c.field_span.1 as int);
    let edits = connection_edits(c, a.cursor(i), page_size);
    let shifted = moved(edits, c.field_span.0 as int);
    assert(connection_fits(b, c));
    lemma_connection_edits(b, c, a.cursor(i), page_size);
    lemma_moved_fits(a.source, edits, c);
    law_every_edit_takes_effect(field, shifted);
    let (sorted, at) = choose|sorted: Seq<EditModel>, at: Seq<int>|
        is_in_order(shifted, sorted) && #[trigger] is_patched(
            bytes(field),
            sorted,
            at,
            bytes(rewritten(field, shifted)),
        );
    assert(is_text_with(field, sorted, at, a.derived_field(i, page_size)));
    assert forall|e: EditModel| #[trigger] sorted.contains(e) <==> completes(
        c,
        a.cursor(i),
        page_size,
        e,
    ) by {
        lemma_same_members(shifted, sorted, e);
        if shifted.contains(e) {
            let k = choose|k: int| 0 <= k < shifted.len() && shifted[k] == e;
            assert(edit_within(c, edits[k]));
            assert(edits.contains(edits[k]));
            law_connection_is_given_what_it_lacks(c, a.cursor(i), page_size, edits[k]);
        }
        if completes(c, a.cursor(i), page_size, e) {
            let f = choose|f: EditModel|
                {
                    &&& #[trigger] is_needed(c, a.cursor(i), page_size, f)
                    &&& e.from == f.from - c.field_span.0
                    &&& e.to == f.to - c.field_span.0
                    &&& e.text == f.text
                };
            law_connection_is_given_what_it_lacks(c, a.cursor(i), page_size, f);
            let k = choose|k: int| 0 <= k < edits.len() && edits[k] == f;
            assert(shifted[k] == e);
        }
    }
}

proof fn lemma_moved_fits(source: Seq<char>, edits: Seq<EditModel>, c: ConnectionModel)
    requires
        connection_fits(bytes(source), c),
        fits(bytes(source), edits),
        forall|i: int| 0 <= i < edits.len() ==> edit_within(c, #[trigger] edits[i]),
    ensures
        fits(
            bytes(part(source, c.field_span.0 as int, c.field_span.1 as int)),
            moved(edits, c.field_span.0 as int),
        ),
{
    let b = bytes(source);
    let from = c.field_span.0 as int;
    let to = c.field_span.1 as int;
    let shifted = moved(edits, from);
    encode_utf8_valid_utf8(source);
    lemma_boundary_in_prefix(b, from, to);
    let head = b.subrange(0, to);
    valid_utf8_split(head, from);
    assert(head.subrange(from, head.len() as int) =~= b.subrange(from, to));
    decode_utf8_encode_utf8(b.subrange(from, to));
    let p = bytes(part(source, from, to));
    assert(p == b.subrange(from, to));
    assert forall|i: int| 0 <= i < shifted.len() implies lands(p, #[trigger] shifted[i]) by {
        assert(edit_within(c, edits[i]));
        assert(lands(b, edits[i]));
        lemma_boundary_in_part(b, from, to, edits[i].from as int);
        lemma_boundary_in_part(b, from, to, edits[i].to as int);
    }
    assert forall|i: int, j: int|
        #![trigger apart()(shifted[i], shifted[j])]
        0 <= i < shifted.len() && 0 <= j < shifted.len() && i != j implies apart()(
        shifted[i],
        shifted[j],
    ) by {
        assert(apart()(edits[i], edits[j]));
        assert(edit_within(c, edits[i]) && edit_within(c, edits[j]));
    }
}

} // verus!
