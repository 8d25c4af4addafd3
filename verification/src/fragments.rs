//! What fragments bring along: which fields are connections once fragments are followed, and
//! which spreads lead to one that would have to be walked.
use vstd::prelude::*;
use vstd::string::*;

use crate::graph::{find_reached, lists_edges, reaches};
use crate::query::{
    document, list_models, name_of, read_after_var, read_args, read_lists, walked, Document,
    ListField,
};
use crate::syntax::{bytes, child, child_of, laid_out, node_models, text_of_node, under, Node, Wanted};
use crate::text::same;

verus! {

/// Whether one of the list fields comes back under a key.
pub open spec fn has_key(lists: Seq<(ListField, Seq<char>)>, key: Seq<char>) -> bool {
    exists|k: int| 0 <= k < lists.len() && (#[trigger] lists[k]).1 == key
}

/// Whether one of the list fields comes back under a key under which none of the others does.
pub open spec fn has_other_key(
    lists: Seq<(ListField, Seq<char>)>,
    others: Seq<(ListField, Seq<char>)>,
) -> bool {
    exists|k: int| 0 <= k < lists.len() && !has_key(others, (#[trigger] lists[k]).1)
}

impl Document {
    /// The name of the fragment that node `j` spreads, or defines.
    pub open spec fn fragment_name(self, j: int) -> Option<Seq<char>> {
        match child(self.nodes, j, Wanted::Kind("FRAGMENT_NAME")) {
            Some(n) => self.name(n),
            None => None,
        }
    }

    /// Whether node `j` spreads the fragment that node `g` defines.
    pub open spec fn spreads(self, j: int, g: int) -> bool {
        &&& 0 <= j < self.nodes.len()
        &&& 0 <= g < self.nodes.len()
        &&& self.nodes[j].kind == "FRAGMENT_SPREAD"@
        &&& self.nodes[g].kind == "FRAGMENT_DEFINITION"@
        &&& self.fragment_name(j) is Some
        &&& self.fragment_name(g) == self.fragment_name(j)
    }

    /// Whether node `j` is one of the selections of set `set`.
    pub open spec fn is_direct(self, set: int, j: int) -> bool {
        under(self.nodes, set, j) && self.nodes[j].depth == self.nodes[set].depth + 1
    }

    /// Whether the selections of fragment `y` are selections of node `x` too: `x` has it inline,
    /// or spreads it.
    pub open spec fn is_part(self, x: int, y: int) -> bool {
        &&& child(self.nodes, x, Wanted::Kind("SELECTION_SET")) matches Some(set)
        &&& {
            ||| self.is_direct(set, y) && self.nodes[y].kind == "INLINE_FRAGMENT"@
            ||| exists|j: int| #[trigger] self.is_direct(set, j) && self.spreads(j, y)
        }
    }

    /// [`Self::is_part`], as a relation.
    pub open spec fn part_edge(self) -> spec_fn(int, int) -> bool {
        |x: int, y: int| self.is_part(x, y)
    }

    /// Whether fragment `g` is spread below node `x`, at any distance.
    pub open spec fn is_brought(self, x: int, g: int) -> bool {
        exists|j: int| #[trigger] under(self.nodes, x, j) && self.spreads(j, g)
    }

    /// [`Self::is_brought`], as a relation.
    pub open spec fn bring_edge(self) -> spec_fn(int, int) -> bool {
        |x: int, g: int| self.is_brought(x, g)
    }

    /// Whether node `b` has a list field of its own.
    pub open spec fn has_list(self, b: int) -> bool {
        &&& child(self.nodes, b, Wanted::Kind("SELECTION_SET")) matches Some(set)
        &&& self.lists_from(self.nodes[set].depth, set + 1).len() > 0
    }

    /// Whether field `f` selects a list field, by itself or through fragments.
    pub open spec fn is_connection(self, f: int) -> bool {
        exists|b: int| #[trigger] reaches(self.part_edge(), f, b) && self.has_list(b)
    }

    /// Whether node `f` is a connection to be walked to the end. The list of a connection is not
    /// one itself, whatever its items have.
    pub open spec fn is_open(self, f: int) -> bool {
        &&& self.nodes[f].kind == "FIELD"@
        &&& self.name(f) != Some("nodes"@)
        &&& self.name(f) != Some("edges"@)
        &&& child(self.nodes, f, Wanted::Kind("NAME")) matches Some(name)
        &&& self.unlimited(f, name)
        &&& self.is_connection(f)
    }

    /// Whether there is a connection to be walked to the end below node `h`.
    pub open spec fn covers_open(self, h: int) -> bool {
        exists|f: int| #[trigger] under(self.nodes, h, f) && self.is_open(f)
    }

    /// Whether there is one in fragment `g`, or in a fragment that it leads to.
    pub open spec fn holds_open(self, g: int) -> bool {
        exists|h: int| #[trigger] reaches(self.bring_edge(), g, h) && self.covers_open(h)
    }

    /// Whether node `j` spreads a fragment that brings a connection to be walked along.
    pub open spec fn is_laden(self, j: int) -> bool {
        exists|g: int| #[trigger] self.spreads(j, g) && self.holds_open(g)
    }

    /// The first such spread among the nodes below a node of that depth, at any distance, from
    /// node `f` on.
    pub open spec fn laden_from(self, depth: usize, f: int) -> Option<int>
        decreases self.nodes.len() - f,
    {
        if self.over(depth, f) {
            None
        } else if self.is_laden(f) {
            Some(f)
        } else {
            self.laden_from(depth, f + 1)
        }
    }

    /// Whether node `b` has a list field under a key under which selection set `set` has none.
    pub open spec fn is_odd(self, b: int, set: int) -> bool {
        &&& child(self.nodes, b, Wanted::Kind("SELECTION_SET")) matches Some(inner)
        &&& has_other_key(
            self.lists_from(self.nodes[inner].depth, inner + 1),
            self.lists_from(self.nodes[set].depth, set + 1),
        )
    }

    /// Whether a fragment adds a list to field `i`, under a key under which its selection set
    /// `set` has none.
    pub open spec fn has_odd_list(self, i: int, set: int) -> bool {
        exists|b: int| #[trigger] reaches(self.part_edge(), i, b) && self.is_odd(b, set)
    }
}

// ---------------------------------------------------------------------------------------
// Following fragments
// ---------------------------------------------------------------------------------------
/// The name of the fragment that node `j` spreads, or defines.
pub(crate) fn fragment_name(source: &str, nodes: &Vec<Node>, j: usize) -> (r: Option<String>)
    requires
        j < nodes@.len(),
        laid_out(node_models(nodes@), bytes(source@)),
    ensures
        crate::text::opt_text(r) == document(source@, nodes@).fragment_name(j as int),
{
    match child_of(nodes, j, Wanted::Kind("FRAGMENT_NAME")) {
        Some(n) => name_of(source, nodes, n),
        None => None,
    }
}

/// Adds the fragments that node `j` spreads.
fn add_spread(source: &str, nodes: &Vec<Node>, j: usize, found: &mut Vec<usize>)
    requires
        j < nodes@.len(),
        laid_out(node_models(nodes@), bytes(source@)),
    ensures
        forall|g: usize|
            #[trigger] final(found)@.contains(g) <==> old(found)@.contains(g) || document(
                source@,
                nodes@,
            ).spreads(j as int, g as int),
{
    let ghost d = document(source@, nodes@);
    assert(d.nodes[j as int] == nodes@[j as int]@);
    if !same(nodes[j].kind.as_str(), "FRAGMENT_SPREAD") {
        return;
    }
    let name = match fragment_name(source, nodes, j) {
        Some(name) => name,
        None => {
            return;
        },
    };
    for g in 0..nodes.len()
        invariant
            d == document(source@, nodes@),
            laid_out(node_models(nodes@), bytes(source@)),
            j < nodes@.len(),
            d.nodes[j as int].kind == "FRAGMENT_SPREAD"@,
            d.fragment_name(j as int) == Some(name@),
            forall|h: usize|
                #[trigger] found@.contains(h) <==> old(found)@.contains(h) || (h < g && d.spreads(
                    j as int,
                    h as int,
                )),
    {
        assert(d.nodes[g as int] == nodes@[g as int]@);
        if same(nodes[g].kind.as_str(), "FRAGMENT_DEFINITION") {
            if let Some(other) = fragment_name(source, nodes, g) {
                if same(name.as_str(), other.as_str()) {
                    let ghost before = found@;
                    found.push(g);
                    proof {
                        assert forall|h: usize| #[trigger] found@.contains(h) <==> before.contains(
                            h,
                        ) || h == g by {
                            lemma_pushed(before, g, h);
                        }
                    }
                }
            }
        }
    }
}

/// What a sequence holds after one more item.
proof fn lemma_pushed(s: Seq<usize>, x: usize, y: usize)
    ensures
        s.push(x).contains(y) <==> s.contains(y) || y == x,
{
    if s.contains(y) {
        let k = choose|k: int| 0 <= k < s.len() && s[k] == y;
        assert(s.push(x)[k] == y);
    }
    if y == x {
        assert(s.push(x)[s.len() as int] == y);
    }
}

/// The fragments that are part of node `x`.
fn parts_of(source: &str, nodes: &Vec<Node>, x: usize) -> (r: Vec<usize>)
    requires
        x < nodes@.len(),
        laid_out(node_models(nodes@), bytes(source@)),
    ensures
        forall|y: usize|
            #[trigger] r@.contains(y) <==> document(source@, nodes@).is_part(x as int, y as int),
{
    let ghost d = document(source@, nodes@);
    let mut r: Vec<usize> = Vec::new();
    let set = match child_of(nodes, x, Wanted::Kind("SELECTION_SET")) {
        Some(set) => set,
        None => {
            return r;
        },
    };
    let depth = nodes[set].depth;
    let count = nodes.len();
    let mut j: usize = set + 1;
    assert(d.nodes[set as int] == nodes@[set as int]@);
    while j < count && nodes[j].depth > depth
        invariant
            set < j <= count,
            count == nodes@.len(),
            d == document(source@, nodes@),
            depth == d.nodes[set as int].depth,
            laid_out(node_models(nodes@), bytes(source@)),
            forall|k: int| set < k < j ==> (#[trigger] d.nodes[k]).depth > depth,
            forall|y: usize|
                #[trigger] r@.contains(y) <==> {
                    ||| y < j && d.is_direct(set as int, y as int) && d.nodes[y as int].kind
                        == "INLINE_FRAGMENT"@
                    ||| exists|k: int|
                        k < j && #[trigger] d.is_direct(set as int, k) && d.spreads(k, y as int)
                },
        decreases count - j,
    {
        assert(d.nodes[j as int] == nodes@[j as int]@);
        let ghost before = r@;
        proof {
            assert(under(d.nodes, set as int, j as int));
            reveal_strlit("INLINE_FRAGMENT");
            reveal_strlit("FRAGMENT_SPREAD");
            assert("INLINE_FRAGMENT"@[0] != "FRAGMENT_SPREAD"@[0]);
        }
        if nodes[j].depth - depth == 1 {
            assert(d.is_direct(set as int, j as int));
            if same(nodes[j].kind.as_str(), "INLINE_FRAGMENT") {
                r.push(j);
                assert forall|y: usize| #[trigger] r@.contains(y) <==> before.contains(y) || y
                    == j by {
                    lemma_pushed(before, j, y);
                }
            } else {
                add_spread(source, nodes, j, &mut r);
            }
        }
        proof {
            assert forall|y: usize| #[trigger] r@.contains(y) <==> {
                ||| y < j + 1 && d.is_direct(set as int, y as int) && d.nodes[y as int].kind
                    == "INLINE_FRAGMENT"@
                ||| exists|k: int|
                    k < j + 1 && #[trigger] d.is_direct(set as int, k) && d.spreads(k, y as int)
            } by {
                if before.contains(y) && exists|k: int|
                    k < j && #[trigger] d.is_direct(set as int, k) && d.spreads(k, y as int) {
                    let k = choose|k: int|
                        k < j && #[trigger] d.is_direct(set as int, k) && d.spreads(k, y as int);
                    assert(d.is_direct(set as int, k) && d.spreads(k, y as int));
                }
            }
        }
        j = j + 1;
    }
    assert forall|k: int| #[trigger] d.is_direct(set as int, k) implies k < j by {
        if k >= j {
            assert(d.nodes[j as int] == nodes@[j as int]@);
            assert(d.nodes[j as int].depth > d.nodes[set as int].depth);
        }
    }
    r
}

/// The fragments that are spread below node `x`, at any distance.
fn brought_by(source: &str, nodes: &Vec<Node>, x: usize) -> (r: Vec<usize>)
    requires
        x < nodes@.len(),
        laid_out(node_models(nodes@), bytes(source@)),
    ensures
        forall|g: usize|
            #[trigger] r@.contains(g) <==> document(source@, nodes@).is_brought(x as int, g as int),
{
    let ghost d = document(source@, nodes@);
    let mut r: Vec<usize> = Vec::new();
    let depth = nodes[x].depth;
    let count = nodes.len();
    let mut j: usize = x + 1;
    assert(d.nodes[x as int] == nodes@[x as int]@);
    while j < count && nodes[j].depth > depth
        invariant
            x < j <= count,
            count == nodes@.len(),
            d == document(source@, nodes@),
            depth == d.nodes[x as int].depth,
            laid_out(node_models(nodes@), bytes(source@)),
            forall|k: int| x < k < j ==> (#[trigger] d.nodes[k]).depth > depth,
            forall|g: usize|
                #[trigger] r@.contains(g) <==> exists|k: int|
                    k < j && #[trigger] under(d.nodes, x as int, k) && d.spreads(k, g as int),
        decreases count - j,
    {
        assert(d.nodes[j as int] == nodes@[j as int]@);
        let ghost before = r@;
        assert(under(d.nodes, x as int, j as int));
        add_spread(source, nodes, j, &mut r);
        proof {
            assert forall|g: usize| #[trigger] r@.contains(g) <==> exists|k: int|
                k < j + 1 && #[trigger] under(d.nodes, x as int, k) && d.spreads(k, g as int) by {
                if before.contains(g) {
                    let k = choose|k: int|
                        k < j && #[trigger] under(d.nodes, x as int, k) && d.spreads(k, g as int);
                    assert(under(d.nodes, x as int, k) && d.spreads(k, g as int));
                }
            }
        }
        j = j + 1;
    }
    assert forall|k: int| #[trigger] under(d.nodes, x as int, k) implies k < j by {
        if k >= j {
            assert(d.nodes[j as int] == nodes@[j as int]@);
            assert(d.nodes[j as int].depth > d.nodes[x as int].depth);
        }
    }
    r
}

/// For each node, the fragments that are part of it.
fn part_links(source: &str, nodes: &Vec<Node>) -> (r: Vec<Vec<usize>>)
    requires
        laid_out(node_models(nodes@), bytes(source@)),
    ensures
        r@.len() == nodes@.len(),
        lists_edges(r@, document(source@, nodes@).part_edge()),
{
    let ghost d = document(source@, nodes@);
    let mut r: Vec<Vec<usize>> = Vec::new();
    for x in 0..nodes.len()
        invariant
            d == document(source@, nodes@),
            laid_out(node_models(nodes@), bytes(source@)),
            r@.len() == x,
            forall|a: int, y: usize|
                0 <= a < x ==> (#[trigger] r@[a]@.contains(y) <==> d.is_part(a, y as int)),
    {
        r.push(parts_of(source, nodes, x));
    }
    proof {
        let edge = d.part_edge();
        assert forall|a: int, b: int| 0 <= a < r@.len() implies (#[trigger] edge(a, b) <==> 0 <= b
            < r@.len() && r@[a]@.contains(b as usize)) by {
            if edge(a, b) {
                assert(d.is_part(a, b));
                assert(0 <= b < d.nodes.len());
                assert(r@[a]@.contains(b as usize));
            }
        }
    }
    r
}

/// For each node, the fragments that are spread below it.
fn bring_links(source: &str, nodes: &Vec<Node>) -> (r: Vec<Vec<usize>>)
    requires
        laid_out(node_models(nodes@), bytes(source@)),
    ensures
        r@.len() == nodes@.len(),
        lists_edges(r@, document(source@, nodes@).bring_edge()),
{
    let ghost d = document(source@, nodes@);
    let mut r: Vec<Vec<usize>> = Vec::new();
    for x in 0..nodes.len()
        invariant
            d == document(source@, nodes@),
            laid_out(node_models(nodes@), bytes(source@)),
            r@.len() == x,
            forall|a: int, g: usize|
                0 <= a < x ==> (#[trigger] r@[a]@.contains(g) <==> d.is_brought(a, g as int)),
    {
        r.push(brought_by(source, nodes, x));
    }
    proof {
        let edge = d.bring_edge();
        assert forall|a: int, b: int| 0 <= a < r@.len() implies (#[trigger] edge(a, b) <==> 0 <= b
            < r@.len() && r@[a]@.contains(b as usize)) by {
            if edge(a, b) {
                assert(d.is_brought(a, b));
                assert(0 <= b < d.nodes.len());
                assert(r@[a]@.contains(b as usize));
            }
        }
    }
    r
}

/// Whether node `b` has a list field of its own.
fn has_list(source: &str, nodes: &Vec<Node>, b: usize) -> (r: bool)
    requires
        b < nodes@.len(),
        laid_out(node_models(nodes@), bytes(source@)),
    ensures
        r == document(source@, nodes@).has_list(b as int),
{
    match child_of(nodes, b, Wanted::Kind("SELECTION_SET")) {
        Some(set) => {
            assert(node_models(nodes@)[set as int] == nodes@[set as int]@);
            let lists = read_lists(source, nodes, set);
            assert(list_models(lists@).len() == lists@.len());
            lists.len() > 0
        },
        None => false,
    }
}

/// Whether field `f` selects a list field, by itself or through fragments.
fn is_connection(source: &str, nodes: &Vec<Node>, parts: &Vec<Vec<usize>>, f: usize) -> (r: bool)
    requires
        f < nodes@.len(),
        laid_out(node_models(nodes@), bytes(source@)),
        parts@.len() == nodes@.len(),
        lists_edges(parts@, document(source@, nodes@).part_edge()),
    ensures
        r == document(source@, nodes@).is_connection(f as int),
{
    let ghost d = document(source@, nodes@);
    let ghost edge = d.part_edge();
    let reached = find_reached(parts, f, Ghost(edge));
    for b in 0..nodes.len()
        invariant
            d == document(source@, nodes@),
            edge == d.part_edge(),
            laid_out(node_models(nodes@), bytes(source@)),
            reached@.len() == nodes@.len(),
            forall|k: int|
                0 <= k < reached@.len() ==> #[trigger] reached@[k] == reaches(edge, f as int, k),
            forall|k: int|
                0 <= k < b ==> !(#[trigger] reaches(edge, f as int, k) && d.has_list(k)),
    {
        assert(reached@[b as int] == reaches(edge, f as int, b as int));
        if reached[b] && has_list(source, nodes, b) {
            return true;
        }
    }
    proof {
        assert forall|k: int| !(#[trigger] reaches(edge, f as int, k) && d.has_list(k)) by {
            if reaches(edge, f as int, k) {
                lemma_stays_inside(d, parts@, edge, f as int, k);
            }
        }
    }
    false
}

/// No step leads out of the tree.
proof fn lemma_stays_inside(
    d: Document,
    links: Seq<Vec<usize>>,
    edge: spec_fn(int, int) -> bool,
    a: int,
    b: int,
)
    requires
        links.len() == d.nodes.len(),
        lists_edges(links, edge),
        0 <= a < d.nodes.len(),
        reaches(edge, a, b),
    ensures
        0 <= b < d.nodes.len(),
{
    crate::graph::lemma_closed(edge, |x: int| 0 <= x < d.nodes.len(), a, b);
}

/// Whether node `f` is a connection to be walked to the end.
fn is_open(source: &str, nodes: &Vec<Node>, parts: &Vec<Vec<usize>>, f: usize) -> (r: bool)
    requires
        f < nodes@.len(),
        laid_out(node_models(nodes@), bytes(source@)),
        parts@.len() == nodes@.len(),
        lists_edges(parts@, document(source@, nodes@).part_edge()),
    ensures
        r == document(source@, nodes@).is_open(f as int),
{
    assert(node_models(nodes@)[f as int] == nodes@[f as int]@);
    if !same(nodes[f].kind.as_str(), "FIELD") {
        return false;
    }
    match child_of(nodes, f, Wanted::Kind("NAME")) {
        Some(name) => {
            let text = text_of_node(source, nodes, name);
            !same(text.as_str(), "nodes") && !same(text.as_str(), "edges") && walked(
                &read_args(source, nodes, f, name),
                &read_after_var(source, nodes, f),
            ) && is_connection(source, nodes, parts, f)
        },
        None => false,
    }
}

/// Whether there is a connection to be walked to the end below node `h`, given which nodes are
/// ones.
fn covers_open(source: &str, nodes: &Vec<Node>, opens: &Vec<bool>, h: usize) -> (r: bool)
    requires
        h < nodes@.len(),
        opens@.len() == nodes@.len(),
        forall|f: int|
            0 <= f < opens@.len() ==> #[trigger] opens@[f] == document(source@, nodes@).is_open(f),
    ensures
        r == document(source@, nodes@).covers_open(h as int),
{
    let ghost d = document(source@, nodes@);
    let depth = nodes[h].depth;
    let count = nodes.len();
    let mut f: usize = h + 1;
    assert(d.nodes[h as int] == nodes@[h as int]@);
    while f < count && nodes[f].depth > depth
        invariant
            h < f <= count,
            count == nodes@.len(),
            d == document(source@, nodes@),
            depth == d.nodes[h as int].depth,
            opens@.len() == count,
            forall|k: int| 0 <= k < opens@.len() ==> #[trigger] opens@[k] == d.is_open(k),
            forall|k: int| h < k < f ==> (#[trigger] d.nodes[k]).depth > depth && !d.is_open(k),
        decreases count - f,
    {
        assert(d.nodes[f as int] == nodes@[f as int]@);
        assert(opens@[f as int] == d.is_open(f as int));
        if opens[f] {
            assert(under(d.nodes, h as int, f as int));
            return true;
        }
        f = f + 1;
    }
    assert forall|k: int| !(#[trigger] under(d.nodes, h as int, k) && d.is_open(k)) by {
        if under(d.nodes, h as int, k) {
            if k >= f {
                assert(d.nodes[f as int] == nodes@[f as int]@);
                assert(d.nodes[f as int].depth > d.nodes[h as int].depth);
            } else {
                assert(d.nodes[k].depth > depth);
            }
        }
    }
    false
}

/// Whether there is one in fragment `g`, or in a fragment that it leads to.
fn holds_open(
    source: &str,
    nodes: &Vec<Node>,
    opens: &Vec<bool>,
    brings: &Vec<Vec<usize>>,
    g: usize,
) -> (r: bool)
    requires
        g < nodes@.len(),
        opens@.len() == nodes@.len(),
        forall|f: int|
            0 <= f < opens@.len() ==> #[trigger] opens@[f] == document(source@, nodes@).is_open(f),
        brings@.len() == nodes@.len(),
        lists_edges(brings@, document(source@, nodes@).bring_edge()),
    ensures
        r == document(source@, nodes@).holds_open(g as int),
{
    let ghost d = document(source@, nodes@);
    let ghost edge = d.bring_edge();
    let reached = find_reached(brings, g, Ghost(edge));
    for h in 0..nodes.len()
        invariant
            d == document(source@, nodes@),
            edge == d.bring_edge(),
            opens@.len() == nodes@.len(),
            forall|f: int| 0 <= f < opens@.len() ==> #[trigger] opens@[f] == d.is_open(f),
            reached@.len() == nodes@.len(),
            forall|k: int|
                0 <= k < reached@.len() ==> #[trigger] reached@[k] == reaches(edge, g as int, k),
            forall|k: int|
                0 <= k < h ==> !(#[trigger] reaches(edge, g as int, k) && d.covers_open(k)),
    {
        assert(reached@[h as int] == reaches(edge, g as int, h as int));
        if reached[h] && covers_open(source, nodes, opens, h) {
            return true;
        }
    }
    proof {
        assert forall|k: int| !(#[trigger] reaches(edge, g as int, k) && d.covers_open(k)) by {
            if reaches(edge, g as int, k) {
                lemma_stays_inside(d, brings@, edge, g as int, k);
            }
        }
    }
    false
}

/// What there is to know of the fragments of a document.
pub(crate) struct Survey {
    /// For each node, the fragments that are part of it.
    pub parts: Vec<Vec<usize>>,
    /// Which nodes are connections to be walked to the end.
    pub opens: Vec<bool>,
    /// Which nodes spread a fragment that brings one along.
    pub laden: Vec<bool>,
}

/// Whether a survey says what there is to know.
pub(crate) open spec fn surveyed(s: Survey, d: Document) -> bool {
    &&& s.parts@.len() == d.nodes.len()
    &&& lists_edges(s.parts@, d.part_edge())
    &&& s.opens@.len() == d.nodes.len()
    &&& forall|f: int| 0 <= f < d.nodes.len() ==> #[trigger] s.opens@[f] == d.is_open(f)
    &&& s.laden@.len() == d.nodes.len()
    &&& forall|j: int| 0 <= j < d.nodes.len() ==> #[trigger] s.laden@[j] == d.is_laden(j)
}

/// Whether node `j` spreads a fragment that brings a connection to be walked along.
fn is_laden(
    source: &str,
    nodes: &Vec<Node>,
    opens: &Vec<bool>,
    brings: &Vec<Vec<usize>>,
    j: usize,
) -> (r: bool)
    requires
        j < nodes@.len(),
        laid_out(node_models(nodes@), bytes(source@)),
        opens@.len() == nodes@.len(),
        forall|f: int|
            0 <= f < opens@.len() ==> #[trigger] opens@[f] == document(source@, nodes@).is_open(f),
        brings@.len() == nodes@.len(),
        lists_edges(brings@, document(source@, nodes@).bring_edge()),
    ensures
        r == document(source@, nodes@).is_laden(j as int),
{
    let ghost d = document(source@, nodes@);
    let mut targets: Vec<usize> = Vec::new();
    add_spread(source, nodes, j, &mut targets);
    for k in 0..targets.len()
        invariant
            d == document(source@, nodes@),
            opens@.len() == nodes@.len(),
            forall|f: int| 0 <= f < opens@.len() ==> #[trigger] opens@[f] == d.is_open(f),
            brings@.len() == nodes@.len(),
            lists_edges(brings@, d.bring_edge()),
            forall|g: usize| #[trigger] targets@.contains(g) <==> d.spreads(j as int, g as int),
            forall|m: int| 0 <= m < k ==> !d.holds_open((#[trigger] targets@[m]) as int),
    {
        assert(targets@.contains(targets@[k as int]));
        if holds_open(source, nodes, opens, brings, targets[k]) {
            return true;
        }
    }
    proof {
        assert forall|g: int| !(#[trigger] d.spreads(j as int, g) && d.holds_open(g)) by {
            if d.spreads(j as int, g) {
                assert(d.nodes.len() == nodes.len());
                assert(targets@.contains(g as usize));
                let m = choose|m: int| 0 <= m < targets@.len() && targets@[m] == g as usize;
                assert(!d.holds_open(targets@[m] as int));
            }
        }
    }
    false
}

/// Follows the fragments of a document.
pub(crate) fn survey(source: &str, nodes: &Vec<Node>) -> (r: Survey)
    requires
        laid_out(node_models(nodes@), bytes(source@)),
    ensures
        surveyed(r, document(source@, nodes@)),
{
    let ghost d = document(source@, nodes@);
    let parts = part_links(source, nodes);
    let mut opens: Vec<bool> = Vec::new();
    for f in 0..nodes.len()
        invariant
            d == document(source@, nodes@),
            laid_out(node_models(nodes@), bytes(source@)),
            parts@.len() == nodes@.len(),
            lists_edges(parts@, d.part_edge()),
            opens@.len() == f,
            forall|k: int| 0 <= k < f ==> #[trigger] opens@[k] == d.is_open(k),
    {
        opens.push(is_open(source, nodes, &parts, f));
    }
    let brings = bring_links(source, nodes);
    let mut laden: Vec<bool> = Vec::new();
    for j in 0..nodes.len()
        invariant
            d == document(source@, nodes@),
            laid_out(node_models(nodes@), bytes(source@)),
            opens@.len() == nodes@.len(),
            forall|k: int| 0 <= k < opens@.len() ==> #[trigger] opens@[k] == d.is_open(k),
            brings@.len() == nodes@.len(),
            lists_edges(brings@, d.bring_edge()),
            laden@.len() == j,
            forall|k: int| 0 <= k < j ==> #[trigger] laden@[k] == d.is_laden(k),
    {
        laden.push(is_laden(source, nodes, &opens, &brings, j));
    }
    Survey { parts, opens, laden }
}

/// Whether a list field comes back under a key.
fn find_key(lists: &Vec<(ListField, String)>, key: &str) -> (r: bool)
    ensures
        r == has_key(list_models(lists@), key@),
{
    let ghost models = list_models(lists@);
    for k in 0..lists.len()
        invariant
            models == list_models(lists@),
            forall|m: int| 0 <= m < k ==> (#[trigger] models[m]).1 != key@,
    {
        assert(models[k as int] == (lists@[k as int].0, lists@[k as int].1@));
        if same(lists[k].1.as_str(), key) {
            return true;
        }
    }
    false
}

/// Whether node `b` has a list field under a key under which selection set `set`, whose list
/// fields are given, has none.
fn is_odd(source: &str, nodes: &Vec<Node>, b: usize, set: usize, lists: &Vec<(ListField, String)>)
    -> (r: bool)
    requires
        b < nodes@.len(),
        set < nodes@.len(),
        laid_out(node_models(nodes@), bytes(source@)),
        list_models(lists@) == document(source@, nodes@).lists_from(
            nodes@[set as int].depth,
            set + 1,
        ),
    ensures
        r == document(source@, nodes@).is_odd(b as int, set as int),
{
    let ghost d = document(source@, nodes@);
    assert(d.nodes[set as int] == nodes@[set as int]@);
    let inner = match child_of(nodes, b, Wanted::Kind("SELECTION_SET")) {
        Some(inner) => inner,
        None => {
            return false;
        },
    };
    assert(d.nodes[inner as int] == nodes@[inner as int]@);
    let others = read_lists(source, nodes, inner);
    let ghost models = list_models(others@);
    for k in 0..others.len()
        invariant
            d == document(source@, nodes@),
            models == list_models(others@),
            models == d.lists_from(d.nodes[inner as int].depth, inner + 1),
            child(d.nodes, b as int, Wanted::Kind("SELECTION_SET")) == Some(inner as int),
            list_models(lists@) == d.lists_from(d.nodes[set as int].depth, set + 1),
            forall|m: int|
                0 <= m < k ==> has_key(list_models(lists@), (#[trigger] models[m]).1),
    {
        assert(models[k as int] == (others@[k as int].0, others@[k as int].1@));
        if !find_key(lists, others[k].1.as_str()) {
            assert(!has_key(list_models(lists@), models[k as int].1));
            return true;
        }
    }
    false
}

/// Whether a fragment adds a list to field `i`, under a key under which its selection set `set`,
/// whose list fields are given, has none.
pub(crate) fn find_odd_list(
    source: &str,
    nodes: &Vec<Node>,
    parts: &Vec<Vec<usize>>,
    i: usize,
    set: usize,
    lists: &Vec<(ListField, String)>,
) -> (r: bool)
    requires
        i < nodes@.len(),
        set < nodes@.len(),
        laid_out(node_models(nodes@), bytes(source@)),
        parts@.len() == nodes@.len(),
        lists_edges(parts@, document(source@, nodes@).part_edge()),
        list_models(lists@) == document(source@, nodes@).lists_from(
            nodes@[set as int].depth,
            set + 1,
        ),
    ensures
        r == document(source@, nodes@).has_odd_list(i as int, set as int),
{
    let ghost d = document(source@, nodes@);
    let ghost edge = d.part_edge();
    let reached = find_reached(parts, i, Ghost(edge));
    for b in 0..nodes.len()
        invariant
            d == document(source@, nodes@),
            edge == d.part_edge(),
            set < nodes@.len(),
            laid_out(node_models(nodes@), bytes(source@)),
            list_models(lists@) == d.lists_from(nodes@[set as int].depth, set + 1),
            reached@.len() == nodes@.len(),
            forall|k: int|
                0 <= k < reached@.len() ==> #[trigger] reached@[k] == reaches(edge, i as int, k),
            forall|k: int|
                0 <= k < b ==> !(#[trigger] reaches(edge, i as int, k) && d.is_odd(k, set as int)),
    {
        assert(reached@[b as int] == reaches(edge, i as int, b as int));
        if reached[b] && is_odd(source, nodes, b, set, lists) {
            return true;
        }
    }
    proof {
        assert forall|k: int| !(#[trigger] reaches(edge, i as int, k) && d.is_odd(
            k,
            set as int,
        )) by {
            if reaches(edge, i as int, k) {
                lemma_stays_inside(d, parts@, edge, i as int, k);
            }
        }
    }
    false
}

} // verus!
