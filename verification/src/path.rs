//! Paths, as texts whose components are separated by `/`.
use vstd::prelude::*;
use vstd::string::*;

use crate::text::{
    chars_of, find_char, find_from, law_first_is_found, lemma_precedes, lemma_precedes_trans, precedes, same, text_of,
    texts,
};

verus! {

// ---------------------------------------------------------------------------------------
// File names and extensions
// ---------------------------------------------------------------------------------------
/// Where the last component of the first `n` characters ends: `/` and `/.` at the end do not
/// count.
pub open spec fn settled(path: Seq<char>, n: int) -> int
    decreases n,
{
    if n <= 0 || n > path.len() {
        n
    } else if path[n - 1] == '/' {
        settled(path, n - 1)
    } else if n >= 2 && path[n - 1] == '.' && path[n - 2] == '/' {
        settled(path, n - 2)
    } else {
        n
    }
}

/// Where the component that ends at `end` begins.
pub open spec fn name_start(path: Seq<char>, end: int) -> int
    decreases end,
{
    if end <= 0 || end > path.len() || path[end - 1] == '/' {
        end
    } else {
        name_start(path, end - 1)
    }
}

/// Where the file name of a path begins and ends; nothing for a path that ends in no name,
/// such as `/`, `.` and `..`.
pub open spec fn name_span(path: Seq<char>) -> Option<(int, int)> {
    let end = settled(path, path.len() as int);
    let start = name_start(path, end);
    let name = path.subrange(start, end);
    if start >= end || name == seq!['.'] || name == seq!['.', '.'] {
        None
    } else {
        Some((start, end))
    }
}

/// The file name of a path.
pub open spec fn name_of_path(path: Seq<char>) -> Option<Seq<char>> {
    match name_span(path) {
        Some((start, end)) => Some(path.subrange(start, end)),
        None => None,
    }
}

/// The offset of the last dot of a file name, looking back from `k`; a dot at the very
/// beginning does not count.
pub open spec fn last_dot(path: Seq<char>, start: int, k: int) -> Option<int>
    decreases k - start,
{
    if k <= start || k >= path.len() {
        None
    } else if path[k] == '.' {
        Some(k)
    } else {
        last_dot(path, start, k - 1)
    }
}

/// The extension of the file name of a path.
pub open spec fn extension_of_path(path: Seq<char>) -> Option<Seq<char>> {
    match name_span(path) {
        Some((start, end)) => match last_dot(path, start, end - 1) {
            Some(dot) => Some(path.subrange(dot + 1, end)),
            None => None,
        },
        None => None,
    }
}

/// The path with another extension; a path without a file name stays as it is.
pub open spec fn with_other_extension(path: Seq<char>, extension: Seq<char>) -> Seq<char> {
    match name_span(path) {
        Some((start, end)) => match last_dot(path, start, end - 1) {
            Some(dot) => path.subrange(0, dot) + "."@ + extension,
            None => path.subrange(0, end) + "."@ + extension,
        },
        None => path,
    }
}

/// The end of the last component lies in the path.
proof fn lemma_settled(path: Seq<char>, n: int)
    requires
        0 <= n <= path.len(),
    ensures
        0 <= settled(path, n) <= n,
    decreases n,
{
    if n > 0 && path[n - 1] == '/' {
        lemma_settled(path, n - 1);
    } else if n >= 2 && path[n - 1] == '.' && path[n - 2] == '/' {
        lemma_settled(path, n - 2);
    }
}

/// A component begins after a separator, and holds none.
proof fn lemma_name_start(path: Seq<char>, end: int)
    requires
        0 <= end <= path.len(),
    ensures
        0 <= name_start(path, end) <= end,
        forall|k: int| name_start(path, end) <= k < end ==> path[k] != '/',
        name_start(path, end) == 0 || path[name_start(path, end) - 1] == '/',
    decreases end,
{
    if end > 0 && path[end - 1] != '/' {
        lemma_name_start(path, end - 1);
    }
}

/// What begins after a separator, and holds none, is a component.
proof fn lemma_name_start_is(path: Seq<char>, start: int, end: int)
    requires
        0 <= start <= end <= path.len(),
        forall|k: int| start <= k < end ==> path[k] != '/',
        start == 0 || path[start - 1] == '/',
    ensures
        name_start(path, end) == start,
    decreases end,
{
    if start < end {
        lemma_name_start_is(path, start, end - 1);
    }
}

/// The last dot of a file name lies in it, after its first character.
proof fn lemma_last_dot(path: Seq<char>, start: int, k: int)
    ensures
        last_dot(path, start, k) matches Some(dot) ==> start < dot <= k && dot < path.len(),
    decreases k - start,
{
    if k > start && k < path.len() && path[k] != '.' {
        lemma_last_dot(path, start, k - 1);
    }
}

/// Giving an extension to a path that was given one already replaces the first.
pub proof fn law_extension_is_replaced(path: Seq<char>, first: Seq<char>, second: Seq<char>)
    requires
        name_span(path) is Some,
        first.len() > 0,
        forall|k: int| 0 <= k < first.len() ==> #[trigger] first[k] != '/' && first[k] != '.',
    ensures
        name_span(with_other_extension(path, first)) is Some,
        extension_of_path(with_other_extension(path, first)) == Some(first),
        with_other_extension(with_other_extension(path, first), second) == with_other_extension(
            path,
            second,
        ),
{
    let (start, end) = name_span(path)->0;
    lemma_settled(path, path.len() as int);
    lemma_name_start(path, end);
    lemma_last_dot(path, start, end - 1);
    reveal_strlit(".");
    assert("."@ =~= seq!['.']);
    let cut = match last_dot(path, start, end - 1) {
        Some(dot) => dot,
        None => end,
    };
    let head = path.subrange(0, cut);
    let out = with_other_extension(path, first);
    let n = out.len() as int;
    assert(out =~= head + seq!['.'] + first);
    assert(out[n - 1] == first[first.len() - 1]);
    assert(settled(out, n) == n);
    assert forall|k: int| start <= k < n implies out[k] != '/' by {
        if k < cut {
            assert(out[k] == path[k]);
        } else if k > cut {
            assert(out[k] == first[k - cut - 1]);
        }
    }
    if start > 0 {
        assert(out[start - 1] == path[start - 1]);
    }
    lemma_name_start_is(out, start, n);
    let name = out.subrange(start, n);
    assert(name.len() >= 3);
    lemma_dot_found(out, start, cut, n - 1);
    assert(out.subrange(cut + 1, n) =~= first);
    assert(out.subrange(0, cut) =~= head);
}

/// The last dot is found from wherever no other lies in between.
proof fn lemma_dot_found(path: Seq<char>, start: int, dot: int, k: int)
    requires
        0 <= start < dot <= k < path.len(),
        path[dot] == '.',
        forall|i: int| dot < i <= k ==> path[i] != '.',
    ensures
        last_dot(path, start, k) == Some(dot),
    decreases k,
{
    if k > dot {
        lemma_dot_found(path, start, dot, k - 1);
    }
}

/// Where the file name of a path begins and ends.
fn find_name(path: &Vec<char>) -> (r: Option<(usize, usize)>)
    ensures
        match r {
            Some((start, end)) => name_span(path@) == Some((start as int, end as int)) && start
                < end <= path@.len(),
            None => name_span(path@) is None,
        },
{
    let mut end: usize = path.len();
    while end > 0 && (path[end - 1] == '/' || (end >= 2 && path[end - 1] == '.' && path[end - 2]
        == '/'))
        invariant
            end <= path@.len(),
            settled(path@, path@.len() as int) == settled(path@, end as int),
        decreases end,
    {
        if path[end - 1] == '/' {
            end = end - 1;
        } else {
            end = end - 2;
        }
    }
    let mut start: usize = end;
    while start > 0 && path[start - 1] != '/'
        invariant
            start <= end <= path@.len(),
            name_start(path@, end as int) == name_start(path@, start as int),
        decreases start,
    {
        start = start - 1;
    }
    if start >= end {
        return None;
    }
    let ghost name = path@.subrange(start as int, end as int);
    if end - start == 1 && path[start] == '.' {
        assert(name =~= seq!['.']);
        return None;
    }
    if end - start == 2 && path[start] == '.' && path[start + 1] == '.' {
        assert(name =~= seq!['.', '.']);
        return None;
    }
    proof {
        if name == seq!['.'] {
            assert(name.len() == 1 && name[0] == '.');
        }
        if name == seq!['.', '.'] {
            assert(name.len() == 2 && name[0] == '.' && name[1] == '.');
        }
    }
    Some((start, end))
}

/// The offset of the last dot of a file name.
fn find_dot(path: &Vec<char>, start: usize, end: usize) -> (r: Option<usize>)
    requires
        start < end <= path@.len(),
    ensures
        match r {
            Some(dot) => last_dot(path@, start as int, end - 1) == Some(dot as int) && start < dot
                < end,
            None => last_dot(path@, start as int, end - 1) is None,
        },
{
    let mut k: usize = end - 1;
    while k > start
        invariant
            start <= k < end <= path@.len(),
            last_dot(path@, start as int, end - 1) == last_dot(path@, start as int, k as int),
        decreases k,
    {
        if path[k] == '.' {
            return Some(k);
        }
        k = k - 1;
    }
    None
}

/// The path with another extension.
pub fn with_extension(path: &str, extension: &str) -> (r: String)
    ensures
        r@ == with_other_extension(path@, extension@),
{
    let chars = chars_of(path);
    match find_name(&chars) {
        Some((start, end)) => {
            let stem = match find_dot(&chars, start, end) {
                Some(dot) => text_of(&chars, 0, dot),
                None => text_of(&chars, 0, end),
            };
            let mut r = stem;
            r.append(".");
            r.append(extension);
            r
        },
        None => path.to_owned(),
    }
}

/// The file name of a path.
pub fn file_name(path: &str) -> (r: Option<String>)
    ensures
        crate::text::opt_text(r) == name_of_path(path@),
{
    let chars = chars_of(path);
    match find_name(&chars) {
        Some((start, end)) => Some(text_of(&chars, start, end)),
        None => None,
    }
}

/// The extension of the file name of a path.
pub fn extension(path: &str) -> (r: Option<String>)
    ensures
        crate::text::opt_text(r) == extension_of_path(path@),
{
    let chars = chars_of(path);
    match find_name(&chars) {
        Some((start, end)) => match find_dot(&chars, start, end) {
            Some(dot) => Some(text_of(&chars, dot + 1, end)),
            None => None,
        },
        None => None,
    }
}

// ---------------------------------------------------------------------------------------
// Components and their order
// ---------------------------------------------------------------------------------------
/// The components between separators, from offset `start` on. Empty ones and `.` are left out,
/// save a `.` at the beginning of the path.
pub open spec fn pieces_from(path: Seq<char>, start: int) -> Seq<Seq<char>>
    decreases path.len() - start,
{
    if start < 0 || start > path.len() {
        seq![]
    } else {
        let end = find_from(path, '/', start);
        let piece = path.subrange(start, end);
        let here = if piece.len() == 0 || (piece == seq!['.'] && start > 0) {
            seq![]
        } else {
            seq![piece]
        };
        if end < start || end >= path.len() {
            here
        } else {
            here + pieces_from(path, end + 1)
        }
    }
}

/// The components of a path; the first one of an absolute path is `/`.
pub open spec fn components(path: Seq<char>) -> Seq<Seq<char>> {
    if path.len() > 0 && path[0] == '/' {
        seq![seq!['/']] + pieces_from(path, 0)
    } else {
        pieces_from(path, 0)
    }
}

/// The root comes before `.`, that before `..`, and that before any name.
pub open spec fn component_rank(component: Seq<char>) -> int {
    if component == seq!['/'] {
        0
    } else if component == seq!['.'] {
        1
    } else if component == seq!['.', '.'] {
        2
    } else {
        3
    }
}

/// Whether one component comes before another.
pub open spec fn component_before(a: Seq<char>, b: Seq<char>) -> bool {
    component_rank(a) < component_rank(b) || (component_rank(a) == component_rank(b) && precedes(
        a,
        b,
    ))
}

/// Whether components come before others, compared one by one.
pub open spec fn components_before(a: Seq<Seq<char>>, b: Seq<Seq<char>>) -> bool
    decreases a.len(),
{
    if b.len() == 0 {
        false
    } else if a.len() == 0 {
        true
    } else if a[0] == b[0] {
        components_before(a.drop_first(), b.drop_first())
    } else {
        component_before(a[0], b[0])
    }
}

/// Whether one path comes before another.
pub open spec fn path_before(a: Seq<char>, b: Seq<char>) -> bool {
    components_before(components(a), components(b))
}

/// The order of components is strict and total.
proof fn lemma_component_before(a: Seq<char>, b: Seq<char>)
    ensures
        component_before(a, b) ==> a != b && !component_before(b, a),
        a != b ==> component_before(a, b) || component_before(b, a),
{
    lemma_precedes(a, b);
}

/// The order of lists of components is strict, and what lies between two lists that are not in
/// order is out of order with one of them.
pub proof fn lemma_components_before(a: Seq<Seq<char>>, b: Seq<Seq<char>>, c: Seq<Seq<char>>)
    ensures
        components_before(a, b) ==> !components_before(b, a),
        components_before(a, c) ==> components_before(a, b) || components_before(b, c),
    decreases a.len(),
{
    if a.len() > 0 && b.len() > 0 {
        lemma_component_before(a[0], b[0]);
        if a[0] == b[0] {
            lemma_components_before(
                a.drop_first(),
                b.drop_first(),
                if c.len() > 0 {
                    c.drop_first()
                } else {
                    c
                },
            );
        } else if c.len() > 0 && component_before(b[0], a[0]) && component_before(a[0], c[0])
            && component_rank(b[0]) == component_rank(c[0]) {
            lemma_precedes_trans(b[0], a[0], c[0]);
        }
    }
}

/// Different lists of components are in order one way or the other.
pub proof fn lemma_components_total(a: Seq<Seq<char>>, b: Seq<Seq<char>>)
    requires
        a != b,
    ensures
        components_before(a, b) || components_before(b, a),
    decreases a.len(),
{
    if a.len() > 0 && b.len() > 0 {
        lemma_component_before(a[0], b[0]);
        if a[0] == b[0] {
            if a.drop_first() == b.drop_first() {
                assert(a =~= seq![a[0]] + a.drop_first());
                assert(b =~= seq![b[0]] + b.drop_first());
            }
            lemma_components_total(a.drop_first(), b.drop_first());
        }
    } else if a.len() == 0 && b.len() == 0 {
        assert(a =~= b);
    }
}

/// The components between separators.
fn read_pieces(path: &Vec<char>, pieces: &mut Vec<String>)
    ensures
        texts(final(pieces)@) == texts(old(pieces)@) + pieces_from(path@, 0),
{
    let ghost before = texts(pieces@);
    let mut start: usize = 0;
    assert(texts(pieces@) =~= before);
    loop
        invariant_except_break
            start <= path@.len(),
            texts(pieces@) + pieces_from(path@, start as int) == before + pieces_from(path@, 0),
        ensures
            texts(pieces@) == before + pieces_from(path@, 0),
        decreases path@.len() - start,
    {
        let end = find_char(path, '/', start);
        let ghost done = texts(pieces@);
        let ghost piece = path@.subrange(start as int, end as int);
        let lone_dot = end - start == 1 && path[start] == '.';
        proof {
            if lone_dot {
                assert(piece =~= seq!['.']);
            }
            if piece == seq!['.'] {
                assert(piece.len() == 1 && piece[0] == '.');
            }
        }
        if end > start && !(lone_dot && start > 0) {
            pieces.push(text_of(path, start, end));
            assert(texts(pieces@) =~= done.push(piece));
        }
        if end >= path.len() {
            assert(texts(pieces@) =~= done + pieces_from(path@, start as int));
            break;
        }
        assert(texts(pieces@) + pieces_from(path@, end + 1) =~= done + pieces_from(
            path@,
            start as int,
        ));
        start = end + 1;
    }
}

/// The components of a path.
fn split(path: &str) -> (r: Vec<String>)
    ensures
        texts(r@) == components(path@),
{
    let chars = chars_of(path);
    let mut r: Vec<String> = Vec::new();
    if chars.len() > 0 && chars[0] == '/' {
        let mut root = String::new();
        root.push('/');
        r.push(root);
        assert(root@ =~= seq!['/']);
        assert(texts(r@) =~= seq![seq!['/']]);
    }
    let ghost head = texts(r@);
    read_pieces(&chars, &mut r);
    assert(head + pieces_from(path@, 0) =~= components(path@));
    r
}

/// The rank of a component.
fn rank(component: &str) -> (r: u8)
    ensures
        r == component_rank(component@),
{
    let chars = chars_of(component);
    if chars.len() == 1 && chars[0] == '/' {
        assert(component@ =~= seq!['/']);
        0
    } else if chars.len() == 1 && chars[0] == '.' {
        assert(component@ =~= seq!['.']);
        assert(component@[0] != seq!['/'][0]);
        1
    } else if chars.len() == 2 && chars[0] == '.' && chars[1] == '.' {
        assert(component@ =~= seq!['.', '.']);
        assert(component@.len() != seq!['/'].len());
        2
    } else {
        proof {
            if component@ == seq!['/'] {
                assert(component@[0] == '/');
            }
            if component@ == seq!['.'] {
                assert(component@[0] == '.');
            }
            if component@ == seq!['.', '.'] {
                assert(component@[0] == '.' && component@[1] == '.');
            }
        }
        3
    }
}

/// Whether one path comes before another, component by component.
pub fn comes_before(a: &str, b: &str) -> (r: bool)
    ensures
        r == path_before(a@, b@),
{
    let x = split(a);
    let y = split(b);
    let ghost p = texts(x@);
    let ghost q = texts(y@);
    let mut i: usize = 0;
    assert(p.skip(0) =~= p);
    assert(q.skip(0) =~= q);
    while i < x.len() && i < y.len()
        invariant
            i <= x@.len(),
            i <= y@.len(),
            p == texts(x@),
            q == texts(y@),
            p == components(a@),
            q == components(b@),
            components_before(p, q) == components_before(p.skip(i as int), q.skip(i as int)),
        ensures
            i <= x@.len(),
            i <= y@.len(),
            i == x@.len() || i == y@.len(),
            components_before(p, q) == components_before(p.skip(i as int), q.skip(i as int)),
        decreases x@.len() - i,
    {
        assert(p.skip(i as int).drop_first() =~= p.skip(i + 1));
        assert(q.skip(i as int).drop_first() =~= q.skip(i + 1));
        if !same(x[i].as_str(), y[i].as_str()) {
            let m = rank(x[i].as_str());
            let n = rank(y[i].as_str());
            return m < n || (m == n && crate::text::before(x[i].as_str(), y[i].as_str()));
        }
        i = i + 1;
    }
    i < y.len()
}

// ---------------------------------------------------------------------------------------
// Laws
// ---------------------------------------------------------------------------------------
/// Whether a text can be the part of a path up to a file name.
pub open spec fn is_directory_part(dir: Seq<char>) -> bool {
    dir.len() == 0 || dir.last() == '/'
}

/// Whether a text holds no separator.
pub open spec fn is_single(name: Seq<char>) -> bool {
    forall|k: int| 0 <= k < name.len() ==> #[trigger] name[k] != '/'
}

/// A file keeps its directory and its name when it is given another extension: only what stands
/// behind the last dot changes.
pub proof fn law_name_and_extension(
    dir: Seq<char>,
    stem: Seq<char>,
    extension: Seq<char>,
    other: Seq<char>,
)
    requires
        is_directory_part(dir),
        stem.len() > 0,
        is_single(stem),
        extension.len() > 0,
        is_single(extension),
        forall|k: int| 0 <= k < extension.len() ==> #[trigger] extension[k] != '.',
    ensures
        ({
            let path = dir + stem + seq!['.'] + extension;
            &&& name_of_path(path) == Some(stem + seq!['.'] + extension)
            &&& extension_of_path(path) == Some(extension)
            &&& with_other_extension(path, other) == dir + stem + seq!['.'] + other
        }),
{
    let path = dir + stem + seq!['.'] + extension;
    let n = path.len() as int;
    let start = dir.len() as int;
    let dot = start + stem.len();
    reveal_strlit(".");
    assert("."@ =~= seq!['.']);
    assert(path[n - 1] == extension[extension.len() - 1]);
    assert(settled(path, n) == n);
    assert forall|k: int| start <= k < n implies path[k] != '/' by {
        if k < dot {
            assert(path[k] == stem[k - start]);
        } else if k > dot {
            assert(path[k] == extension[k - dot - 1]);
        }
    }
    lemma_name_start_is(path, start, n);
    assert(path.subrange(start, n) =~= stem + seq!['.'] + extension);
    assert(path.subrange(start, n).len() >= 3);
    assert forall|i: int| dot < i <= n - 1 implies path[i] != '.' by {
        assert(path[i] == extension[i - dot - 1]);
    }
    lemma_dot_found(path, start, dot, n - 1);
    assert(path.subrange(dot + 1, n) =~= extension);
    assert(path.subrange(0, dot) =~= dir + stem);
}

/// A file without an extension (a dot at the beginning of its name makes none) is given one.
pub proof fn law_name_without_extension(dir: Seq<char>, name: Seq<char>, other: Seq<char>)
    requires
        is_directory_part(dir),
        name.len() > 0,
        is_single(name),
        forall|k: int| 0 < k < name.len() ==> #[trigger] name[k] != '.',
        name != seq!['.'],
    ensures
        name_of_path(dir + name) == Some(name),
        extension_of_path(dir + name) is None,
        with_other_extension(dir + name, other) == dir + name + seq!['.'] + other,
{
    let path = dir + name;
    let n = path.len() as int;
    let start = dir.len() as int;
    reveal_strlit(".");
    assert("."@ =~= seq!['.']);
    if path[n - 1] == '.' {
        assert(path[n - 1] == name[name.len() - 1]);
        assert(name =~= seq!['.']);
    }
    assert(path[n - 1] == name[name.len() - 1]);
    assert(settled(path, n) == n);
    assert forall|k: int| start <= k < n implies path[k] != '/' by {
        assert(path[k] == name[k - start]);
    }
    lemma_name_start_is(path, start, n);
    assert(path.subrange(start, n) =~= name);
    if name == seq!['.', '.'] {
        assert(name[1] == '.');
    }
    assert forall|k: int| start < k < n implies path[k] != '.' by {
        assert(path[k] == name[k - start]);
    }
    lemma_no_dot(path, start, n - 1);
    assert(path.subrange(0, n) =~= path);
}

/// Where there is no dot, none is found.
proof fn lemma_no_dot(path: Seq<char>, start: int, k: int)
    requires
        0 <= start,
        k < path.len(),
        forall|i: int| start < i <= k ==> path[i] != '.',
    ensures
        last_dot(path, start, k) is None,
    decreases k - start,
{
    if k > start {
        lemma_no_dot(path, start, k - 1);
    }
}

/// A name is the only component of itself.
pub proof fn law_name_is_a_component(name: Seq<char>)
    requires
        name.len() > 0,
        is_single(name),
    ensures
        components(name) == seq![name],
{
    law_first_is_found(name, '/', 0);
    assert(find_from(name, '/', 0) == name.len());
    assert(name.subrange(0, name.len() as int) =~= name);
    assert(components(name) =~= seq![name]);
}

/// What lies in a directory has one component more than the directory: its name.
pub proof fn law_name_is_one_more_component(dir: Seq<char>, name: Seq<char>)
    requires
        dir.len() > 0,
        name.len() > 0,
        is_single(name),
        name != seq!['.'],
    ensures
        components(dir + seq!['/'] + name) == components(dir).push(name),
{
    lemma_one_more_piece(dir, name, 0);
    let path = dir + seq!['/'] + name;
    assert(path[0] == dir[0]);
    assert(components(path) =~= components(dir).push(name));
}

proof fn lemma_one_more_piece(dir: Seq<char>, name: Seq<char>, start: int)
    requires
        0 <= start <= dir.len(),
        dir.len() > 0,
        name.len() > 0,
        is_single(name),
        name != seq!['.'],
    ensures
        pieces_from(dir + seq!['/'] + name, start) == pieces_from(dir, start).push(name),
    decreases dir.len() - start,
{
    let path = dir + seq!['/'] + name;
    let end = find_from(dir, '/', start);
    let stop = find_from(path, '/', start);
    law_first_is_found(dir, '/', start);
    law_first_is_found(path, '/', start);
    if end < dir.len() {
        assert(path[end] == '/');
        if stop < end {
            assert(path[stop] == dir[stop]);
        }
        assert(stop == end);
        assert(path.subrange(start, end) =~= dir.subrange(start, end));
        lemma_one_more_piece(dir, name, end + 1);
        assert(pieces_from(path, start) =~= pieces_from(dir, start).push(name));
    } else {
        assert(path[dir.len() as int] == '/');
        if stop < dir.len() {
            assert(path[stop] == dir[stop]);
        }
        assert(stop == dir.len());
        assert(path.subrange(start, stop) =~= dir.subrange(start, end));
        let last = dir.len() as int + 1;
        let close = find_from(path, '/', last);
        law_first_is_found(path, '/', last);
        if close < path.len() {
            assert(path[close] == name[close - last]);
        }
        assert(path.subrange(last, path.len() as int) =~= name);
        assert(pieces_from(path, last) =~= seq![name]);
        assert(pieces_from(path, start) =~= pieces_from(dir, start).push(name));
    }
}

/// Paths are in order by the first component in which they differ; a directory comes before what
/// lies in it. Names are in order as texts; the root comes before `.`, that before `..`, and that
/// before any other name.
pub proof fn law_paths_are_in_order(
    common: Seq<Seq<char>>,
    x: Seq<Seq<char>>,
    y: Seq<Seq<char>>,
)
    requires
        y.len() > 0,
        x.len() > 0 ==> x[0] != y[0],
    ensures
        x.len() == 0 ==> components_before(common + x, common + y),
        x.len() > 0 && is_plain_name(x[0]) && is_plain_name(y[0]) ==> components_before(
            common + x,
            common + y,
        ) == precedes(x[0], y[0]),
        x.len() > 0 && !is_plain_name(x[0]) && is_plain_name(y[0]) ==> components_before(
            common + x,
            common + y,
        ),
        x.len() > 0 && (x[0] == seq!['/'] || (x[0] == seq!['.'] && y[0] == seq!['.', '.']))
            ==> components_before(common + x, common + y),
    decreases common.len(),
{
    let a = common + x;
    let b = common + y;
    if common.len() > 0 {
        assert(a.drop_first() =~= common.drop_first() + x);
        assert(b.drop_first() =~= common.drop_first() + y);
        law_paths_are_in_order(common.drop_first(), x, y);
    } else {
        assert(a =~= x && b =~= y);
        assert(seq!['/'][0] != seq!['.'][0]);
        assert(seq!['/'] != seq!['.', '.']);
        assert(seq!['.'].len() != seq!['.', '.'].len());
        assert(seq!['/'] != seq!['.']);
    }
}

/// Whether a component is a name, and not the root, `.` or `..`.
pub open spec fn is_plain_name(component: Seq<char>) -> bool {
    component != seq!['/'] && component != seq!['.'] && component != seq!['.', '.']
}

} // verus!
