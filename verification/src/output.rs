//! Writing results: stable serialization, and what is written when.
use vstd::prelude::*;
use vstd::string::*;

use crate::json::{
    agree, blank, canonical, crlf, follow, is_exact, is_numberless, law_equal_values,
    law_equal_values_are_the_same, law_equal_values_hold_the_same, law_key_order_is_irrelevant,
    law_value_agrees_with_itself, pretty, read_as, same_content, Json, JsonModel, Reach, DEPTH,
};
use crate::path::{law_extension_is_replaced, name_span, with_extension, with_other_extension};
use crate::text::texts;

verus! {

/// What each level of a frozen file is indented by.
pub const INDENT: &'static str = "  ";

/// The extension of the file that waits to be moved into place.
pub const TEMPORARY: &'static str = "json.gqlfreez-tmp";

/// Whether a rendered result is to be written.
#[derive(Debug, PartialEq, Eq, Structural)]
pub enum Staged {
    /// The content differs: a temporary file is to wait until it is moved into place.
    Ready,
    Unchanged,
}

/// The text of a frozen file.
pub open spec fn rendered(value: JsonModel) -> Seq<char> {
    pretty(canonical(value), INDENT@).push('\n')
}

/// Whether what was read from the disk and what was rendered differ, given what each is read as.
pub open spec fn compared(existing: Option<JsonModel>, fresh: Option<JsonModel>) -> Staged {
    match (existing, fresh) {
        (Some(a), Some(b)) => if agree(a, b) {
            Staged::Unchanged
        } else {
            Staged::Ready
        },
        _ => Staged::Ready,
    }
}

/// Whether a rendered text is to be written over what the file holds, if there is one.
pub open spec fn staged(existing: Option<Seq<char>>, fresh: Seq<char>) -> Staged {
    match existing {
        Some(text) => compared(read_as(text), read_as(fresh)),
        None => Staged::Ready,
    }
}

/// The file in which a result waits to be moved into place.
pub open spec fn temporary(path: Seq<char>) -> Seq<char> {
    with_other_extension(path, TEMPORARY@)
}

/// Serialize with sorted keys and a trailing newline, so Git diffs stay stable whatever order
/// the server (or an intermediate proxy) chose.
///
/// The text is read back as the value with its keys sorted, where each number comes back and the
/// value is not nested too deep. A file that holds the text, or that came back with CRLF line
/// ends, is not written again, as long as the text can be read back at all.
pub fn render(value: &Json) -> (r: String)
    ensures
        r@ == rendered(value@),
        is_exact(value@, DEPTH as int) ==> read_as(r@) == Some(canonical(value@)) && staged(
            Some(r@),
            r@,
        ) == Staged::Unchanged,
        read_as(r@) is Some ==> staged(Some(r@), r@) == Staged::Unchanged && staged(
            Some(crlf(r@)),
            r@,
        ) == Staged::Unchanged,
{
    let mut r = value.write_lines(INDENT);
    proof {
        reveal_strlit("  ");
        assert(blank(INDENT@));
        if let Some(v) = read_as(r@.push('\n')) {
            law_value_agrees_with_itself(v);
        }
    }
    r.push('\n');
    r
}

/// Whether the content differs, given what the file on disk and the rendered text are read as.
pub fn compare(existing: &Option<Json>, fresh: &Option<Json>) -> (r: Staged)
    ensures
        r == compared(
            match *existing {
                Some(value) => Some(value@),
                None => None,
            },
            match *fresh {
                Some(value) => Some(value@),
                None => None,
            },
        ),
{
    match (existing, fresh) {
        (Some(a), Some(b)) => if a.agrees(b) {
            Staged::Unchanged
        } else {
            Staged::Ready
        },
        _ => Staged::Ready,
    }
}

/// Write only when the content actually differs.
///
/// The comparison reads the file on disk as JSON rather than comparing bytes: on Windows with
/// `core.autocrlf`, a committed `.json` comes back with CRLF and a byte comparison would
/// rewrite on every single run.
pub fn stage(existing: Option<&str>, rendered: &str) -> (r: Staged)
    ensures
        r == staged(
            match existing {
                Some(text) => Some(text@),
                None => None,
            },
            rendered@,
        ),
{
    match existing {
        Some(text) => compare(&Json::read(text), &Json::read(rendered)),
        None => Staged::Ready,
    }
}

/// The file in which a result waits to be moved into place.
pub fn temp_for(path: &str) -> (r: String)
    ensures
        r@ == temporary(path@),
{
    with_extension(path, TEMPORARY)
}

/// The move that puts a waiting file into place, where there is one.
pub fn commit(path: &str, waiting: bool) -> (r: Option<(String, String)>)
    ensures
        match r {
            Some(step) => waiting && step.0@ == temporary(path@) && step.1@ == path@,
            None => !waiting,
        },
{
    if !waiting {
        return None;
    }
    Some((temp_for(path), path.to_owned()))
}

/// The waiting file to drop, without touching the destination.
pub fn discard(path: &str) -> (r: String)
    ensures
        r@ == temporary(path@),
{
    temp_for(path)
}

/// The temporary files that an interrupted run may have left, to be removed.
pub fn sweep_temporaries(paths: &Vec<String>) -> (r: Vec<String>)
    ensures
        texts(r@) == texts(paths@).map_values(|path: Seq<char>| temporary(path)),
{
    let mut r: Vec<String> = Vec::new();
    for i in 0..paths.len()
        invariant
            r@.len() == i,
            forall|j: int| 0 <= j < i ==> (#[trigger] r@[j])@ == temporary(paths@[j]@),
    {
        r.push(discard(paths[i].as_str()));
    }
    assert(texts(r@) =~= texts(paths@).map_values(|path: Seq<char>| temporary(path)));
    r
}

// ---------------------------------------------------------------------------------------
// Laws
// ---------------------------------------------------------------------------------------
/// A result that is on disk already is not written again, as long as it can be read back.
pub proof fn law_identical_content_is_kept(text: Seq<char>)
    requires
        read_as(text) is Some,
    ensures
        staged(Some(text), text) == Staged::Unchanged,
{
    law_value_agrees_with_itself(read_as(text)->0);
}

/// The files after the waiting file of an output was moved into place; unchanged where none
/// waits.
pub open spec fn placed(files: Map<Seq<char>, Seq<char>>, path: Seq<char>) -> Map<
    Seq<char>,
    Seq<char>,
> {
    if files.dom().contains(temporary(path)) {
        files.remove(temporary(path)).insert(path, files[temporary(path)])
    } else {
        files
    }
}

/// Once a waiting text that can be read is moved into place, the output holds it, no file waits,
/// the same text is not written again, and moving once more changes nothing. No other file is
/// touched.
pub proof fn law_moving_settles(
    files: Map<Seq<char>, Seq<char>>,
    source: Seq<char>,
    text: Seq<char>,
    other: Seq<char>,
)
    requires
        name_span(source) is Some,
        read_as(text) is Some,
        ({
            let path = with_other_extension(source, "json"@);
            &&& files.dom().contains(temporary(path))
            &&& files[temporary(path)] == text
            &&& other != path
            &&& other != temporary(path)
        }),
    ensures
        ({
            let path = with_other_extension(source, "json"@);
            let after = placed(files, path);
            &&& after.dom().contains(path)
            &&& after[path] == text
            &&& !after.dom().contains(temporary(path))
            &&& staged(Some(after[path]), text) == Staged::Unchanged
            &&& placed(after, path) == after
            &&& after.dom().contains(other) == files.dom().contains(other)
            &&& after[other] == files[other]
        }),
{
    law_temporaries_are_apart(source, source);
    law_identical_content_is_kept(text);
}

/// The waiting file of an output is never an output itself, and no two outputs share one.
pub proof fn law_temporaries_are_apart(a: Seq<char>, b: Seq<char>)
    requires
        name_span(a) is Some,
        name_span(b) is Some,
    ensures
        temporary(with_other_extension(a, "json"@)) != with_other_extension(b, "json"@),
        with_other_extension(a, "json"@) != with_other_extension(b, "json"@) ==> temporary(
            with_other_extension(a, "json"@),
        ) != temporary(with_other_extension(b, "json"@)),
{
    let x = with_other_extension(a, "json"@);
    let y = with_other_extension(b, "json"@);
    let suffix = ".gqlfreez-tmp"@;
    law_waiting_file_lies_next_to_the_output(a);
    law_waiting_file_lies_next_to_the_output(b);
    reveal_strlit("json");
    reveal_strlit(".gqlfreez-tmp");
    assert((x + suffix).last() == 'p');
    assert(y.last() == 'n');
    if x + suffix == y + suffix {
        assert(x =~= (x + suffix).take(x.len() as int));
        assert(y =~= (y + suffix).take(y.len() as int));
    }
}

/// The waiting file of an output is the output's path with one more suffix: it lies next to it.
pub proof fn law_waiting_file_lies_next_to_the_output(source: Seq<char>)
    requires
        name_span(source) is Some,
    ensures
        temporary(with_other_extension(source, "json"@)) == with_other_extension(source, "json"@)
            + ".gqlfreez-tmp"@,
{
    let output = with_other_extension(source, "json"@);
    reveal_strlit("json");
    reveal_strlit(".gqlfreez-tmp");
    reveal_strlit("json.gqlfreez-tmp");
    law_extension_is_replaced(source, "json"@, TEMPORARY@);
    assert("json"@ + ".gqlfreez-tmp"@ =~= TEMPORARY@);
    assert(temporary(output) =~= output + ".gqlfreez-tmp"@);
}

/// A file is written again whenever it is read as something else than the fresh text: where what
/// they hold under some path differs in a text, a truth value or in being there at all.
pub proof fn law_different_content_is_written(
    existing: Seq<char>,
    fresh: Seq<char>,
    path: Seq<Seq<char>>,
)
    requires
        read_as(existing) matches Some(a) && read_as(fresh) matches Some(b) && {
            let x = follow(read_as(existing)->0, path, 0);
            let y = follow(read_as(fresh)->0, path, 0);
            ||| x is Found != y is Found
            ||| x is Found && x->Found_0 != y->Found_0 && (x->Found_0 is Text || x->Found_0 is Bool
                || x->Found_0 is Null)
            ||| x is Found && x->Found_0 is Array && (!(y->Found_0 is Array)
                || x->Found_0->Array_0.len() != y->Found_0->Array_0.len())
        },
    ensures
        staged(Some(existing), fresh) == Staged::Ready,
{
    let a = read_as(existing)->0;
    let b = read_as(fresh)->0;
    if agree(a, b) {
        law_equal_values_hold_the_same(a, b, path, 0);
        if let Reach::Found(x) = follow(a, path, 0) {
            law_equal_values(x, follow(b, path, 0)->Found_0);
        }
    }
}

/// Between contents without numbers, a file is kept if and only if both are read as the same.
pub proof fn law_only_the_same_content_is_kept(existing: Seq<char>, fresh: Seq<char>)
    requires
        read_as(existing) matches Some(a) && is_numberless(a),
    ensures
        staged(Some(existing), fresh) == Staged::Unchanged <==> read_as(existing) == read_as(fresh),
{
    if let Some(b) = read_as(fresh) {
        law_equal_values_are_the_same(read_as(existing)->0, b);
    }
}

/// A file that is not there, or cannot be read, is written.
pub proof fn law_unreadable_content_is_written(existing: Option<Seq<char>>, fresh: Seq<char>)
    requires
        existing matches Some(text) ==> read_as(text) is None,
    ensures
        staged(existing, fresh) == Staged::Ready,
{
}

/// The text of a frozen file does not depend on the order in which keys came, and ends its last
/// line.
pub proof fn law_rendering_is_stable(a: JsonModel, b: JsonModel)
    requires
        same_content(a, b),
    ensures
        rendered(a) == rendered(b),
        rendered(a).last() == '\n',
{
    law_key_order_is_irrelevant(a, b);
}

} // verus!
