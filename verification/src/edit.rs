//! Textual edits on a source: everything outside the edited spans stays as it is.
use vstd::prelude::*;
use vstd::string::*;
use vstd::utf8::*;

use crate::sort::{arranged, pairwise, sort};
use crate::syntax::{bytes, cut, part};

verus! {

/// One textual edit: the bytes from `at.0` up to `at.1` give way to `text`.
#[derive(Debug)]
pub struct Edit {
    pub at: (usize, usize),
    pub text: String,
}

/// What an [`Edit`] stands for.
pub struct EditModel {
    pub from: usize,
    pub to: usize,
    pub text: Seq<char>,
}

impl View for Edit {
    type V = EditModel;

    open spec fn view(&self) -> EditModel {
        EditModel { from: self.at.0, to: self.at.1, text: self.text@ }
    }
}

/// What a list of edits stands for.
pub open spec fn edit_models(edits: Seq<Edit>) -> Seq<EditModel> {
    edits.map_values(|e: Edit| e@)
}

/// Whether the first edit begins later in the source than the second.
pub open spec fn later() -> spec_fn(EditModel, EditModel) -> bool {
    |a: EditModel, b: EditModel| a.from > b.from
}

/// Whether two edits concern different places.
pub open spec fn apart() -> spec_fn(EditModel, EditModel) -> bool {
    |a: EditModel, b: EditModel|
        (a.to <= b.from && a.from < b.from) || (b.to <= a.from && b.from < a.from)
}

/// Whether an edit replaces whole characters of a source.
pub open spec fn lands(source: Seq<u8>, e: EditModel) -> bool {
    &&& e.from <= e.to <= source.len()
    &&& is_char_boundary(source, e.from as int)
    &&& is_char_boundary(source, e.to as int)
}

/// Whether edits can be applied to a source together.
pub open spec fn fits(source: Seq<u8>, edits: Seq<EditModel>) -> bool {
    &&& forall|i: int| 0 <= i < edits.len() ==> lands(source, #[trigger] edits[i])
    &&& pairwise(edits, apart())
}

/// A source after edits that are listed in ascending order.
pub open spec fn patched(source: Seq<u8>, edits: Seq<EditModel>) -> Seq<u8>
    decreases edits.len(),
{
    if edits.len() == 0 {
        source
    } else {
        let e = edits.last();
        patched(source.subrange(0, e.from as int), edits.drop_last()) + bytes(e.text)
            + source.subrange(e.to as int, source.len() as int)
    }
}

/// A source after edits, in whichever order they are listed.
pub open spec fn rewritten(source: Seq<char>, edits: Seq<EditModel>) -> Seq<char> {
    decode_utf8(patched(bytes(source), arranged(edits, later())))
}

/// Writing one text after another puts the bytes one after the other.
pub proof fn lemma_bytes_concat(a: Seq<char>, b: Seq<char>)
    ensures
        bytes(a + b) == bytes(a) + bytes(b),
    decreases a.len(),
{
    if a.len() == 0 {
        assert(a + b =~= b);
        assert(bytes(a) =~= seq![]);
        assert(bytes(a) + bytes(b) =~= bytes(b));
    } else {
        assert((a + b).drop_first() =~= a.drop_first() + b);
        assert((a + b)[0] == a[0]);
        lemma_bytes_concat(a.drop_first(), b);
        assert(bytes(a + b) =~= bytes(a) + bytes(b));
    }
}

/// In ascending order, edits that concern different places follow one another.
pub proof fn lemma_in_order(source: Seq<u8>, edits: Seq<EditModel>)
    requires
        fits(source, edits),
    ensures
        fits(source, arranged(edits, later())),
        forall|i: int, j: int|
            0 <= i < j < edits.len() ==> (#[trigger] arranged(edits, later())[i]).to <= (
            #[trigger] arranged(edits, later())[j]).from,
{
    let sorted = arranged(edits, later());
    crate::sort::lemma_arranged(edits, later());
    crate::sort::lemma_arranged_pairwise(edits, later(), apart());
    assert forall|i: int| 0 <= i < sorted.len() implies lands(source, #[trigger] sorted[i]) by {
        crate::sort::lemma_arranged_member(edits, later(), i);
        let k = choose|k: int| 0 <= k < edits.len() && edits[k] == sorted[i];
        assert(lands(source, edits[k]));
    }
    assert(crate::sort::ranks(later()));
    assert forall|i: int, j: int| 0 <= i < j < edits.len() implies (#[trigger] sorted[i]).to <= (
    #[trigger] sorted[j]).from by {
        assert(!later()(sorted[i], sorted[j]));
        assert(apart()(sorted[i], sorted[j]));
    }
}

/// Edits in ascending order keep the encoding of a text.
proof fn lemma_patched_valid(source: Seq<u8>, edits: Seq<EditModel>)
    requires
        valid_utf8(source),
        forall|i: int| 0 <= i < edits.len() ==> lands(source, #[trigger] edits[i]),
        forall|i: int, j: int|
            0 <= i < j < edits.len() ==> (#[trigger] edits[i]).to <= (#[trigger] edits[j]).from,
    ensures
        valid_utf8(patched(source, edits)),
    decreases edits.len(),
{
    if edits.len() > 0 {
        let e = edits.last();
        assert(e == edits[edits.len() - 1]);
        assert(lands(source, e));
        let head = source.subrange(0, e.from as int);
        let tail = source.subrange(e.to as int, source.len() as int);
        let rest = edits.drop_last();
        valid_utf8_split(source, e.from as int);
        valid_utf8_split(source, e.to as int);
        assert forall|i: int| 0 <= i < rest.len() implies lands(head, #[trigger] rest[i]) by {
            assert(lands(source, edits[i]));
            crate::syntax::lemma_boundary_in_prefix(source, rest[i].from as int, e.from as int);
            crate::syntax::lemma_boundary_in_prefix(source, rest[i].to as int, e.from as int);
        }
        lemma_patched_valid(head, rest);
        encode_utf8_valid_utf8(e.text);
        valid_utf8_concat(patched(head, rest), bytes(e.text));
        valid_utf8_concat(patched(head, rest) + bytes(e.text), tail);
    }
}

/// The bytes of a rewritten source.
pub proof fn lemma_rewritten_bytes(source: Seq<char>, edits: Seq<EditModel>)
    requires
        fits(bytes(source), edits),
    ensures
        bytes(rewritten(source, edits)) == patched(bytes(source), arranged(edits, later())),
{
    let sorted = arranged(edits, later());
    lemma_in_order(bytes(source), edits);
    crate::sort::lemma_arranged(edits, later());
    encode_utf8_valid_utf8(source);
    lemma_patched_valid(bytes(source), sorted);
    decode_utf8_encode_utf8(patched(bytes(source), sorted));
}

/// Whether the first edit begins later in the source than the second.
fn begins_later(a: &Edit, b: &Edit) -> (y: bool)
    ensures
        y == later()(a@, b@),
{
    a.at.0 > b.at.0
}

/// The source with every edit applied.
pub fn apply(source: &str, edits: Vec<Edit>) -> (r: String)
    requires
        fits(bytes(source@), edit_models(edits@)),
    ensures
        r@ == rewritten(source@, edit_models(edits@)),
        bytes(r@) == patched(bytes(source@), arranged(edit_models(edits@), later())),
{
    let ghost after = |a: Edit, b: Edit| later()(a@, b@);
    let sorted = sort(edits, begins_later, Ghost(after));
    let ghost b = bytes(source@);
    let ghost es = arranged(edit_models(edits@), later());
    proof {
        crate::sort::lemma_arranged_map(edits@, |e: Edit| e@, after, later());
        assert(es == edit_models(sorted@));
        lemma_in_order(b, edit_models(edits@));
        crate::sort::lemma_arranged(edit_models(edits@), later());
        encode_utf8_valid_utf8(source@);
        is_char_boundary_start_end_of_seq(b);
        assert(b.subrange(0, b.len() as int) =~= b);
    }
    let mut k: usize = sorted.len();
    let mut limit: usize = source.as_bytes().len();
    let mut tail = String::new();
    proof {
        assert(es.take(k as int) =~= es);
        assert(bytes(tail@) =~= seq![]);
        assert(patched(b, es) + bytes(tail@) =~= patched(b, es));
    }
    while k > 0
        invariant
            k <= sorted@.len(),
            b == bytes(source@),
            valid_utf8(b),
            b.len() <= usize::MAX,
            es == edit_models(sorted@),
            fits(b, es),
            forall|i: int, j: int| 0 <= i < j < es.len() ==> (#[trigger] es[i]).to <= (
            #[trigger] es[j]).from,
            limit <= b.len(),
            is_char_boundary(b, limit as int),
            forall|i: int| 0 <= i < k ==> (#[trigger] es[i]).to <= limit,
            patched(b, es) == patched(b.subrange(0, limit as int), es.take(k as int)) + bytes(tail@),
        decreases k,
    {
        k = k - 1;
        let from = sorted[k].at.0;
        let to = sorted[k].at.1;
        proof {
            assert(es[k as int] == sorted@[k as int]@);
            assert(lands(b, es[k as int]));
        }
        let mut front = sorted[k].text.clone();
        let middle = cut(source, to, limit);
        front.append(middle);
        proof {
            let e = es[k as int];
            lemma_bytes_concat(e.text, middle@);
            lemma_bytes_concat(e.text + middle@, tail@);
            let head = b.subrange(0, limit as int);
            assert(es.take(k + 1).last() == e);
            assert(es.take(k + 1).drop_last() =~= es.take(k as int));
            assert(head.subrange(0, from as int) =~= b.subrange(0, from as int));
            assert(head.subrange(to as int, head.len() as int) =~= b.subrange(
                to as int,
                limit as int,
            ));
            assert(patched(head, es.take(k + 1)) + bytes(tail@) =~= patched(
                b.subrange(0, from as int),
                es.take(k as int),
            ) + (bytes(e.text) + bytes(middle@) + bytes(tail@)));
        }
        front.append(tail.as_str());
        tail = front;
        limit = from;
    }
    let mut r = cut(source, 0, limit).to_owned();
    proof {
        assert(es.take(0) =~= seq![]);
        lemma_bytes_concat(r@, tail@);
    }
    r.append(tail.as_str());
    proof {
        encode_utf8_decode_utf8(r@);
    }
    r
}

/// The edits, with offsets counted from `origin`.
pub open spec fn moved(edits: Seq<EditModel>, origin: int) -> Seq<EditModel> {
    Seq::new(
        edits.len(),
        |i: int|
            EditModel {
                from: (edits[i].from - origin) as usize,
                to: (edits[i].to - origin) as usize,
                text: edits[i].text,
            },
    )
}

/// Whether every edit lies in a span.
pub open spec fn inside(edits: Seq<EditModel>, span: (usize, usize)) -> bool {
    forall|i: int| 0 <= i < edits.len() ==> span.0 <= (#[trigger] edits[i]).from && edits[i].to <= span.1
}

/// One span of the source, with the edits that lie in it applied.
pub fn apply_within(source: &str, span: (usize, usize), edits: Vec<Edit>) -> (r: String)
    requires
        span.0 <= span.1 <= bytes(source@).len(),
        is_char_boundary(bytes(source@), span.0 as int),
        is_char_boundary(bytes(source@), span.1 as int),
        fits(bytes(source@), edit_models(edits@)),
        inside(edit_models(edits@), span),
    ensures
        r@ == rewritten(
            part(source@, span.0 as int, span.1 as int),
            moved(edit_models(edits@), span.0 as int),
        ),
{
    let mut shifted: Vec<Edit> = Vec::new();
    for e in it: edits
        invariant
            it.seq() == edits@,
            inside(edit_models(edits@), span),
            forall|i: int| 0 <= i < edits@.len() ==> edit_models(edits@)[i] == (#[trigger] edits@[i])@,
            forall|i: int|
                0 <= i < edits@.len() ==> (#[trigger] edit_models(edits@)[i]).from <= edit_models(
                    edits@,
                )[i].to,
            edit_models(shifted@) =~= moved(edit_models(edits@), span.0 as int).take(it.index()),
    {
        assert(edit_models(edits@)[it.index()] == edits@[it.index()]@);
        let ghost done = edit_models(shifted@);
        shifted.push(Edit { at: (e.at.0 - span.0, e.at.1 - span.0), text: e.text });
        assert(edit_models(shifted@) =~= done.push(shifted@.last()@));
    }
    let piece = cut(source, span.0, span.1);
    proof {
        let b = bytes(source@);
        let p = bytes(piece@);
        let es = edit_models(edits@);
        let ms = moved(es, span.0 as int);
        assert(edit_models(shifted@) =~= ms);
        encode_utf8_valid_utf8(source@);
        encode_utf8_valid_utf8(piece@);
        assert forall|i: int| 0 <= i < ms.len() implies lands(p, #[trigger] ms[i]) by {
            assert(lands(b, es[i]));
            lemma_boundary_in_part(b, span.0 as int, span.1 as int, es[i].from as int);
            lemma_boundary_in_part(b, span.0 as int, span.1 as int, es[i].to as int);
        }
        assert forall|i: int, j: int|
            #![trigger apart()(ms[i], ms[j])]
            0 <= i < ms.len() && 0 <= j < ms.len() && i != j implies apart()(ms[i], ms[j]) by {
            assert(apart()(es[i], es[j]));
            assert(lands(b, es[i]) && lands(b, es[j]));
        }
    }
    apply(piece, shifted)
}

/// A boundary of a text is a boundary of the part of it that spans it.
pub proof fn lemma_boundary_in_part(b: Seq<u8>, from: int, to: int, at: int)
    requires
        valid_utf8(b),
        0 <= from <= at <= to <= b.len(),
        is_char_boundary(b, from),
        is_char_boundary(b, to),
        is_char_boundary(b, at),
        valid_utf8(b.subrange(from, to)),
    ensures
        is_char_boundary(b.subrange(from, to), at - from),
{
    let p = b.subrange(from, to);
    if at < to {
        is_char_boundary_iff_not_is_continuation_byte(b, at);
        is_char_boundary_iff_not_is_continuation_byte(p, at - from);
        assert(p[at - from] == b[at]);
    } else {
        is_char_boundary_start_end_of_seq(p);
    }
}

/// Whether the items of one sequence are in another, in order.
pub open spec fn is_subsequence(a: Seq<char>, b: Seq<char>) -> bool
    decreases b.len(),
{
    ||| a.len() == 0
    ||| b.len() > 0 && a.last() == b.last() && is_subsequence(a.drop_last(), b.drop_last())
    ||| b.len() > 0 && is_subsequence(a, b.drop_last())
}

proof fn lemma_subsequence_longer(a: Seq<char>, b: Seq<char>, more: Seq<char>)
    requires
        is_subsequence(a, b),
    ensures
        is_subsequence(a, b + more),
    decreases more.len(),
{
    if more.len() == 0 {
        assert(b + more =~= b);
    } else {
        lemma_subsequence_longer(a, b, more.drop_last());
        assert((b + more).drop_last() =~= b + more.drop_last());
    }
}

proof fn lemma_subsequence_both(a: Seq<char>, b: Seq<char>, more: Seq<char>)
    requires
        is_subsequence(a, b),
    ensures
        is_subsequence(a + more, b + more),
    decreases more.len(),
{
    if more.len() == 0 {
        assert(a + more =~= a && b + more =~= b);
    } else {
        lemma_subsequence_both(a, b, more.drop_last());
        assert((a + more).drop_last() =~= a + more.drop_last());
        assert((b + more).drop_last() =~= b + more.drop_last());
    }
}

proof fn lemma_own_subsequence(a: Seq<char>)
    ensures
        is_subsequence(a, a),
    decreases a.len(),
{
    if a.len() > 0 {
        lemma_own_subsequence(a.drop_last());
    }
}

/// Insertions in ascending order keep the characters of a text.
proof fn lemma_inserted(text: Seq<char>, edits: Seq<EditModel>) -> (out: Seq<char>)
    requires
        forall|i: int| 0 <= i < edits.len() ==> lands(bytes(text), #[trigger] edits[i]),
        forall|i: int| 0 <= i < edits.len() ==> (#[trigger] edits[i]).from == edits[i].to,
        forall|i: int, j: int|
            0 <= i < j < edits.len() ==> (#[trigger] edits[i]).to <= (#[trigger] edits[j]).from,
    ensures
        patched(bytes(text), edits) == bytes(out),
        is_subsequence(text, out),
    decreases edits.len(),
{
    if edits.len() == 0 {
        lemma_own_subsequence(text);
        text
    } else {
        let b = bytes(text);
        let e = edits.last();
        assert(e == edits[edits.len() - 1]);
        assert(lands(b, e));
        let rest = edits.drop_last();
        encode_utf8_valid_utf8(text);
        valid_utf8_split(b, e.from as int);
        let front = b.subrange(0, e.from as int);
        let back = b.subrange(e.from as int, b.len() as int);
        let head = decode_utf8(front);
        let tail = decode_utf8(back);
        decode_utf8_encode_utf8(front);
        decode_utf8_encode_utf8(back);
        assert(text == head + tail) by {
            lemma_bytes_concat(head, tail);
            assert(front + back =~= b);
            encode_utf8_decode_utf8(text);
            encode_utf8_decode_utf8(head + tail);
        }
        assert forall|i: int| 0 <= i < rest.len() implies lands(front, #[trigger] rest[i]) by {
            assert(lands(b, edits[i]));
            crate::syntax::lemma_boundary_in_prefix(b, rest[i].from as int, e.from as int);
        }
        let done = lemma_inserted(head, rest);
        let out = done + e.text + tail;
        lemma_bytes_concat(done, e.text);
        lemma_bytes_concat(done + e.text, tail);
        lemma_subsequence_longer(head, done, e.text);
        lemma_subsequence_both(head, done + e.text, tail);
        out
    }
}

/// Edits that only insert keep the whole text: it is in the rewritten one, character for
/// character and in order.
pub proof fn law_insertions_keep_the_text(source: Seq<char>, edits: Seq<EditModel>)
    requires
        fits(bytes(source), edits),
        forall|i: int| 0 <= i < edits.len() ==> (#[trigger] edits[i]).from == edits[i].to,
    ensures
        is_subsequence(source, rewritten(source, edits)),
{
    let b = bytes(source);
    let sorted = arranged(edits, later());
    lemma_in_order(b, edits);
    crate::sort::lemma_arranged(edits, later());
    assert forall|i: int| 0 <= i < sorted.len() implies (#[trigger] sorted[i]).from
        == sorted[i].to && lands(b, sorted[i]) by {
        crate::sort::lemma_arranged_member(edits, later(), i);
        let k = choose|k: int| 0 <= k < edits.len() && edits[k] == sorted[i];
        assert(edits[k].from == edits[k].to);
    }
    let out = lemma_inserted(source, sorted);
    encode_utf8_decode_utf8(out);
}

/// Whether an edit leaves the bytes from `from` up to `to` alone.
pub open spec fn spares(e: EditModel, from: int, to: int) -> bool {
    e.to <= from || to <= e.from
}

/// Whether bytes occur in others, one after the other.
pub open spec fn holds_bytes(whole: Seq<u8>, piece: Seq<u8>) -> bool {
    exists|at: int| holds_bytes_at(whole, piece, at)
}

/// Whether bytes occur in others at an offset.
pub open spec fn holds_bytes_at(whole: Seq<u8>, piece: Seq<u8>, at: int) -> bool {
    0 <= at && at + piece.len() <= whole.len() && whole.subrange(at, at + piece.len()) == piece
}

/// What edits in ascending order leave alone stays in one piece.
proof fn lemma_spared(source: Seq<u8>, edits: Seq<EditModel>, from: int, to: int)
    requires
        0 <= from <= to <= source.len(),
        forall|i: int| 0 <= i < edits.len() ==> spares(#[trigger] edits[i], from, to),
        forall|i: int|
            0 <= i < edits.len() ==> (#[trigger] edits[i]).from <= edits[i].to <= source.len(),
        forall|i: int, j: int|
            0 <= i < j < edits.len() ==> (#[trigger] edits[i]).to <= (#[trigger] edits[j]).from,
    ensures
        holds_bytes(patched(source, edits), source.subrange(from, to)),
    decreases edits.len(),
{
    let piece = source.subrange(from, to);
    let all = patched(source, edits);
    if edits.len() == 0 {
        assert(holds_bytes_at(all, piece, from));
    } else {
        let e = edits.last();
        let rest = edits.drop_last();
        assert(e == edits[edits.len() - 1]);
        let head = source.subrange(0, e.from as int);
        let done = patched(head, rest);
        if to <= e.from {
            assert(head.subrange(from, to) =~= piece);
            assert forall|i: int| 0 <= i < rest.len() implies spares(#[trigger] rest[i], from, to)
                by {
                assert(spares(edits[i], from, to));
            }
            lemma_spared(head, rest, from, to);
            let at = choose|at: int| holds_bytes_at(done, piece, at);
            assert(all.subrange(at, at + piece.len()) =~= piece);
            assert(holds_bytes_at(all, piece, at));
        } else {
            let at = done.len() + bytes(e.text).len() + (from - e.to);
            assert(all.subrange(at, at + piece.len()) =~= piece);
            assert(holds_bytes_at(all, piece, at));
        }
    }
}

/// Whatever stretch of a source no edit touches is in the rewritten text, byte for byte.
pub proof fn law_untouched_text_stays(
    source: Seq<char>,
    edits: Seq<EditModel>,
    from: int,
    to: int,
)
    requires
        fits(bytes(source), edits),
        0 <= from <= to <= bytes(source).len(),
        forall|i: int| 0 <= i < edits.len() ==> spares(#[trigger] edits[i], from, to),
    ensures
        holds_bytes(bytes(rewritten(source, edits)), bytes(source).subrange(from, to)),
{
    lemma_rewritten_bytes(source, edits);
    let b = bytes(source);
    let sorted = arranged(edits, later());
    lemma_in_order(b, edits);
    crate::sort::lemma_arranged(edits, later());
    assert forall|i: int| 0 <= i < sorted.len() implies spares(#[trigger] sorted[i], from, to) by {
        crate::sort::lemma_arranged_member(edits, later(), i);
        let k = choose|k: int| 0 <= k < edits.len() && edits[k] == sorted[i];
        assert(spares(edits[k], from, to));
    }
    assert forall|i: int| 0 <= i < sorted.len() implies (#[trigger] sorted[i]).from <= sorted[i].to
        <= b.len() by {
        assert(lands(b, sorted[i]));
    }
    lemma_spared(b, sorted, from, to);
}

} // verus!
