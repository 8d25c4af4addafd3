//! The syntax tree of a query file, as a flat list of nodes in reading order.
use vstd::prelude::*;
use vstd::string::*;
use vstd::utf8::*;

use apollo_parser::cst::CstNode;

verus! {

/// One node of the syntax tree.
#[derive(Debug)]
pub struct Node {
    /// Kind of the node, as the parser names it: `FIELD`, `SELECTION_SET`, …
    pub kind: String,
    /// Distance from the top: 1 for the document, one more for each level below.
    pub depth: usize,
    /// Byte offset of the first byte of the node in the source.
    pub start: usize,
    /// Byte offset just after the last byte of the node.
    pub end: usize,
}

/// What a [`Node`] stands for.
pub struct NodeModel {
    pub kind: Seq<char>,
    pub depth: usize,
    pub start: usize,
    pub end: usize,
}

impl View for Node {
    type V = NodeModel;

    open spec fn view(&self) -> NodeModel {
        NodeModel { kind: self.kind@, depth: self.depth, start: self.start, end: self.end }
    }
}

/// What a list of nodes stands for.
pub open spec fn node_models(nodes: Seq<Node>) -> Seq<NodeModel> {
    Seq::new(nodes.len(), |i: int| nodes[i]@)
}

/// The first thing that is wrong with a source.
#[derive(Debug)]
pub struct SyntaxFault {
    /// Byte offset in the source.
    pub index: usize,
    pub message: String,
}

/// The bytes of a text.
pub open spec fn bytes(text: Seq<char>) -> Seq<u8> {
    encode_utf8(text)
}

/// Whether node `j` lies below node `i`: every node after `i`, up to `j`, is deeper than `i`.
pub open spec fn under(nodes: Seq<NodeModel>, i: int, j: int) -> bool {
    &&& 0 <= i < j < nodes.len()
    &&& forall|k: int| i < k <= j ==> (#[trigger] nodes[k]).depth > nodes[i].depth
}

/// Whether nodes of this kind begin and end with a bracket of their own.
pub open spec fn bracketed(kind: Seq<char>) -> bool {
    kind == "ARGUMENTS"@ || kind == "VARIABLE_DEFINITIONS"@ || kind == "SELECTION_SET"@
}

/// Whether each node spans whole characters of the source. A name is not empty, and the
/// brackets of a bracketed node are one byte each.
pub open spec fn spans(nodes: Seq<NodeModel>, source: Seq<u8>) -> bool {
    forall|i: int|
        0 <= i < nodes.len() ==> {
            let n = #[trigger] nodes[i];
            &&& n.start <= n.end <= source.len()
            &&& is_char_boundary(source, n.start as int)
            &&& is_char_boundary(source, n.end as int)
            &&& n.kind == "NAME"@ ==> n.start < n.end
            &&& bracketed(n.kind) ==> n.start + 2 <= n.end && is_char_boundary(source, n.start + 1)
                && is_char_boundary(source, n.end - 1)
        }
}

/// Whether a node below another lies inside it, between its brackets when it has any, and any
/// other later node lies after it.
#[verifier::opaque]
pub open spec fn nested(nodes: Seq<NodeModel>) -> bool {
    forall|i: int, j: int|
        #![trigger nodes[i], nodes[j]]
        0 <= i < j < nodes.len() ==> if under(nodes, i, j) {
            &&& nodes[i].start <= nodes[j].start
            &&& nodes[j].end <= nodes[i].end
            &&& bracketed(nodes[i].kind) ==> nodes[i].start < nodes[j].start && nodes[j].end
                < nodes[i].end
        } else {
            nodes[i].end <= nodes[j].start
        }
}

/// How the nodes of a tree lie in its source.
pub open spec fn laid_out(nodes: Seq<NodeModel>, source: Seq<u8>) -> bool {
    spans(nodes, source) && nested(nodes)
}

/// What the GraphQL parser makes of a source: the nodes of the tree in reading order, or the
/// byte offset and the message of the first error.
pub uninterp spec fn parsed(source: Seq<char>) -> Result<Seq<NodeModel>, (usize, Seq<char>)>;

/// `apollo_parser::Parser::parse`, and what its tree says of each node.
///
/// Claimed of it: the outcome depends on the source alone; a tree without errors is lossless,
/// so that its nodes lie in the source as [`laid_out`] says. Sources longer than the parser can
/// address (`u32` offsets) are left out.
#[verifier::external_body]
pub(crate) fn parse(source: &str) -> (r: Result<Vec<Node>, SyntaxFault>)
    requires
        bytes(source@).len() <= u32::MAX,
    ensures
        match r {
            Ok(nodes) => {
                &&& parsed(source@) == Ok::<_, (usize, Seq<char>)>(node_models(nodes@))
                &&& laid_out(node_models(nodes@), bytes(source@))
            },
            Err(fault) => parsed(source@) == Err::<Seq<NodeModel>, _>((fault.index, fault.message@)),
        },
{
    let tree = apollo_parser::Parser::new(source).parse();
    match tree.errors().next() {
        Some(e) => Err(SyntaxFault { index: e.index(), message: e.message().to_string() }),
        None => Ok(
            tree.document().syntax().descendants().map(
                |n| Node {
                    kind: format!("{:?}", n.kind()),
                    depth: n.ancestors().count(),
                    start: usize::from(n.text_range().start()),
                    end: usize::from(n.text_range().end()),
                },
            ).collect(),
        ),
    }
}

// ---------------------------------------------------------------------------------------
// Finding one's way in the tree
// ---------------------------------------------------------------------------------------
/// Which kinds of node are wanted.
pub enum Wanted {
    /// The nodes of one kind.
    Kind(&'static str),
    /// The nodes that hold a value.
    Value,
}

/// Whether a node of this kind holds a value.
pub open spec fn value_kind(kind: Seq<char>) -> bool {
    ||| kind == "VARIABLE"@
    ||| kind == "STRING_VALUE"@
    ||| kind == "FLOAT_VALUE"@
    ||| kind == "INT_VALUE"@
    ||| kind == "BOOLEAN_VALUE"@
    ||| kind == "NULL_VALUE"@
    ||| kind == "ENUM_VALUE"@
    ||| kind == "LIST_VALUE"@
    ||| kind == "OBJECT_VALUE"@
}

/// Whether a node of this kind is wanted.
pub open spec fn is_wanted(kind: Seq<char>, wanted: Wanted) -> bool {
    match wanted {
        Wanted::Kind(k) => kind == k@,
        Wanted::Value => value_kind(kind),
    }
}

/// The first wanted node directly below a node of depth `depth`, from node `j` on.
pub open spec fn child_from(nodes: Seq<NodeModel>, depth: usize, j: int, wanted: Wanted) -> Option<int>
    decreases nodes.len() - j,
{
    if j < 0 || j >= nodes.len() || nodes[j].depth <= depth {
        None
    } else if nodes[j].depth == depth + 1 && is_wanted(nodes[j].kind, wanted) {
        Some(j)
    } else {
        child_from(nodes, depth, j + 1, wanted)
    }
}

/// The first wanted node directly below node `i`.
pub open spec fn child(nodes: Seq<NodeModel>, i: int, wanted: Wanted) -> Option<int> {
    child_from(nodes, nodes[i].depth, i + 1, wanted)
}

/// The part of a text between two byte offsets.
pub open spec fn part(text: Seq<char>, from: int, to: int) -> Seq<char> {
    decode_utf8(bytes(text).subrange(from, to))
}

/// The source text of a node.
pub open spec fn node_text(source: Seq<char>, node: NodeModel) -> Seq<char> {
    part(source, node.start as int, node.end as int)
}

/// A child lies below its parent, one level deeper.
pub proof fn lemma_child_from(nodes: Seq<NodeModel>, i: int, j: int, wanted: Wanted)
    requires
        0 <= i < j <= nodes.len(),
        forall|k: int| i < k < j ==> (#[trigger] nodes[k]).depth > nodes[i].depth,
    ensures
        child_from(nodes, nodes[i].depth, j, wanted) matches Some(c) ==> {
            &&& j <= c
            &&& under(nodes, i, c)
            &&& nodes[c].depth == nodes[i].depth + 1
            &&& is_wanted(nodes[c].kind, wanted)
        },
    decreases nodes.len() - j,
{
    if j < nodes.len() && nodes[j].depth > nodes[i].depth {
        lemma_child_from(nodes, i, j + 1, wanted);
    }
}

/// A child lies below its parent, one level deeper.
pub proof fn lemma_child(nodes: Seq<NodeModel>, i: int, wanted: Wanted)
    requires
        0 <= i < nodes.len(),
    ensures
        child(nodes, i, wanted) matches Some(c) ==> {
            &&& under(nodes, i, c)
            &&& nodes[c].depth == nodes[i].depth + 1
            &&& is_wanted(nodes[c].kind, wanted)
        },
{
    lemma_child_from(nodes, i, i + 1, wanted);
}

/// A node below another lies inside it, between its brackets when it has any.
pub proof fn lemma_inside(nodes: Seq<NodeModel>, i: int, j: int)
    requires
        nested(nodes),
        under(nodes, i, j),
    ensures
        nodes[i].start <= nodes[j].start,
        nodes[j].end <= nodes[i].end,
        bracketed(nodes[i].kind) ==> nodes[i].start < nodes[j].start && nodes[j].end
            < nodes[i].end,
{
    reveal(nested);
    assert(nodes[i].depth < nodes[j].depth);
}

/// A later node that is no deeper lies after the first.
pub proof fn lemma_after(nodes: Seq<NodeModel>, i: int, j: int)
    requires
        nested(nodes),
        0 <= i < j < nodes.len(),
        nodes[j].depth <= nodes[i].depth,
    ensures
        nodes[i].end <= nodes[j].start,
{
    reveal(nested);
    assert(!under(nodes, i, j));
}

/// Whether a node of this kind is wanted.
fn wants(kind: &str, wanted: &Wanted) -> (r: bool)
    ensures
        r == is_wanted(kind@, *wanted),
{
    match wanted {
        Wanted::Kind(k) => crate::text::same(kind, k),
        Wanted::Value => {
            crate::text::same(kind, "VARIABLE") || crate::text::same(kind, "STRING_VALUE")
                || crate::text::same(kind, "FLOAT_VALUE") || crate::text::same(kind, "INT_VALUE")
                || crate::text::same(kind, "BOOLEAN_VALUE") || crate::text::same(kind, "NULL_VALUE")
                || crate::text::same(kind, "ENUM_VALUE") || crate::text::same(kind, "LIST_VALUE")
                || crate::text::same(kind, "OBJECT_VALUE")
        },
    }
}

/// The first wanted node directly below node `i`.
pub fn child_of(nodes: &Vec<Node>, i: usize, wanted: Wanted) -> (r: Option<usize>)
    requires
        i < nodes@.len(),
    ensures
        match r {
            Some(c) => child(node_models(nodes@), i as int, wanted) == Some(c as int) && i < c
                < nodes@.len(),
            None => child(node_models(nodes@), i as int, wanted) is None,
        },
{
    let depth = nodes[i].depth;
    let ghost models = node_models(nodes@);
    let count = nodes.len();
    let mut j: usize = i + 1;
    while j < count && nodes[j].depth > depth
        invariant
            i < j <= nodes@.len(),
            count == nodes@.len(),
            models == node_models(nodes@),
            depth == models[i as int].depth,
            child(models, i as int, wanted) == child_from(models, depth, j as int, wanted),
        decreases nodes@.len() - j,
    {
        if nodes[j].depth - depth == 1 && wants(nodes[j].kind.as_str(), &wanted) {
            return Some(j);
        }
        j = j + 1;
    }
    None
}

/// A boundary of a text is a boundary of each longer beginning of it.
pub proof fn lemma_boundary_in_prefix(b: Seq<u8>, at: int, to: int)
    requires
        valid_utf8(b),
        0 <= at <= to <= b.len(),
        is_char_boundary(b, at),
        is_char_boundary(b, to),
    ensures
        valid_utf8(b.subrange(0, to)),
        is_char_boundary(b.subrange(0, to), at),
{
    valid_utf8_split(b, to);
    let head = b.subrange(0, to);
    if at < to {
        is_char_boundary_iff_not_is_continuation_byte(b, at);
        is_char_boundary_iff_not_is_continuation_byte(head, at);
        assert(head[at] == b[at]);
    } else {
        is_char_boundary_start_end_of_seq(head);
    }
}

/// The part of a text between two byte offsets.
pub fn cut<'a>(text: &'a str, from: usize, to: usize) -> (r: &'a str)
    requires
        from <= to <= bytes(text@).len(),
        is_char_boundary(bytes(text@), from as int),
        is_char_boundary(bytes(text@), to as int),
    ensures
        bytes(r@) == bytes(text@).subrange(from as int, to as int),
        r@ == part(text@, from as int, to as int),
{
    let head = text.split_at(to).0;
    proof {
        encode_utf8_valid_utf8(text@);
        lemma_boundary_in_prefix(bytes(text@), from as int, to as int);
    }
    let r = head.split_at(from).1;
    proof {
        assert(r.spec_bytes() =~= bytes(text@).subrange(from as int, to as int));
        encode_utf8_decode_utf8(r@);
    }
    r
}

/// The source text of a node.
pub fn text_of_node(source: &str, nodes: &Vec<Node>, i: usize) -> (r: String)
    requires
        i < nodes@.len(),
        laid_out(node_models(nodes@), bytes(source@)),
    ensures
        r@ == node_text(source@, node_models(nodes@)[i as int]),
{
    assert(node_models(nodes@)[i as int] == nodes@[i as int]@);
    cut(source, nodes[i].start, nodes[i].end).to_owned()
}

/// The part between two byte offsets is the text that lies between them.
pub proof fn law_part_is_what_lies_between(before: Seq<char>, text: Seq<char>, after: Seq<char>)
    ensures
        part(
            before + text + after,
            bytes(before).len() as int,
            bytes(before).len() + bytes(text).len() as int,
        ) == text,
{
    crate::edit::lemma_bytes_concat(before + text, after);
    crate::edit::lemma_bytes_concat(before, text);
    let all = bytes(before + text + after);
    let from = bytes(before).len() as int;
    assert(all.subrange(from, from + bytes(text).len()) =~= bytes(text));
    encode_utf8_decode_utf8(text);
}

} // verus!
