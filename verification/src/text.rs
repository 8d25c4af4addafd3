//! Plain text: what the rest of the library needs from strings, with exact meanings.
//!
//! A string stands for the sequence of its characters. Byte offsets appear only where the
//! syntax tree of a query is read and where a query is rewritten.
use vstd::prelude::*;
use vstd::string::*;

verus! {

/// `String::push` appends the character at the end.
pub assume_specification[ std::string::String::push ](s: &mut std::string::String, c: char)
    ensures
        final(s)@ == old(s)@.push(c),
;

/// A text as a message quotes it: in quotation marks, with special characters escaped.
pub uninterp spec fn debug_text(text: Seq<char>) -> Seq<char>;

/// `<str as Debug>::fmt`.
///
/// Claimed of it: what is written depends on the text alone.
#[verifier::external_body]
pub(crate) fn quoted(text: &str) -> (r: String)
    ensures
        r@ == debug_text(text@),
{
    format!("{:?}", text)
}

/// A text in lower case.
pub uninterp spec fn lower_case(text: Seq<char>) -> Seq<char>;

/// `str::to_lowercase`.
///
/// Claimed of it: the outcome depends on the text alone; in a text of ASCII characters, each
/// letter gives way to its lower case.
#[verifier::external_body]
pub(crate) fn to_lower(text: &str) -> (r: String)
    ensures
        r@ == lower_case(text@),
        (forall|i: int| 0 <= i < text@.len() ==> #[trigger] text@[i] <= '\u{7f}') ==> r@ == lowered(
            text@,
        ),
{
    text.to_lowercase()
}

// ---------------------------------------------------------------------------------------
// Meanings
// ---------------------------------------------------------------------------------------
/// The last decimal digit of `n`.
pub open spec fn digit(n: nat) -> char {
    (48 + n % 10) as u8 as char
}

/// The decimal writing of a number.
pub open spec fn decimal(n: nat) -> Seq<char>
    decreases n,
{
    if n < 10 {
        seq![digit(n)]
    } else {
        decimal(n / 10).push(digit(n))
    }
}

/// The Unicode `White_Space` characters.
pub open spec fn is_white(c: char) -> bool {
    ||| '\u{9}' <= c <= '\u{d}'
    ||| c == '\u{20}'
    ||| c == '\u{85}'
    ||| c == '\u{a0}'
    ||| c == '\u{1680}'
    ||| '\u{2000}' <= c <= '\u{200a}'
    ||| c == '\u{2028}'
    ||| c == '\u{2029}'
    ||| c == '\u{202f}'
    ||| c == '\u{205f}'
    ||| c == '\u{3000}'
}

/// `s` without its leading white space.
pub open spec fn trimmed_start(s: Seq<char>) -> Seq<char>
    decreases s.len(),
{
    if s.len() > 0 && is_white(s[0]) {
        trimmed_start(s.drop_first())
    } else {
        s
    }
}

/// `s` without its trailing white space.
pub open spec fn trimmed_end(s: Seq<char>) -> Seq<char>
    decreases s.len(),
{
    if s.len() > 0 && is_white(s.last()) {
        trimmed_end(s.drop_last())
    } else {
        s
    }
}

/// `s` without white space at either end.
pub open spec fn trimmed(s: Seq<char>) -> Seq<char> {
    trimmed_end(trimmed_start(s))
}

/// Whether `part` occurs in `whole` at offset `at`.
pub open spec fn occurs_at(whole: Seq<char>, part: Seq<char>, at: int) -> bool {
    &&& 0 <= at
    &&& at + part.len() <= whole.len()
    &&& whole.subrange(at, at + part.len()) == part
}

/// Whether `part` occurs anywhere in `whole`.
pub open spec fn occurs(whole: Seq<char>, part: Seq<char>) -> bool {
    exists|at: int| occurs_at(whole, part, at)
}

/// Offset of the first `c` at or after `from`; the length of `s` when there is none.
pub open spec fn find_from(s: Seq<char>, c: char, from: int) -> int
    decreases s.len() - from,
{
    if from < 0 || from >= s.len() {
        s.len() as int
    } else if s[from] == c {
        from
    } else {
        find_from(s, c, from + 1)
    }
}

/// The parts written one after the other, `separator` between two of them.
pub open spec fn joined(parts: Seq<Seq<char>>, separator: Seq<char>) -> Seq<char>
    decreases parts.len(),
{
    if parts.len() == 0 {
        seq![]
    } else if parts.len() == 1 {
        parts[0]
    } else {
        joined(parts.drop_last(), separator) + separator + parts.last()
    }
}

/// The texts of a list of strings.
pub open spec fn texts(strings: Seq<String>) -> Seq<Seq<char>> {
    Seq::new(strings.len(), |i: int| strings[i]@)
}

/// Strict lexicographic order by character, which is also the order of the UTF-8 bytes.
pub open spec fn precedes(a: Seq<char>, b: Seq<char>) -> bool
    decreases a.len(),
{
    if b.len() == 0 {
        false
    } else if a.len() == 0 {
        true
    } else if a[0] == b[0] {
        precedes(a.drop_first(), b.drop_first())
    } else {
        a[0] < b[0]
    }
}

/// An ASCII letter in upper case, any other character as it is.
pub open spec fn upper(c: char) -> char {
    if 'a' <= c <= 'z' {
        (c as u8 - 32) as u8 as char
    } else {
        c
    }
}

/// Every ASCII letter in upper case.
pub open spec fn uppered(s: Seq<char>) -> Seq<char> {
    Seq::new(s.len(), |i: int| upper(s[i]))
}

/// An ASCII letter in lower case, any other character as it is.
pub open spec fn lower(c: char) -> char {
    if 'A' <= c <= 'Z' {
        (c as u8 + 32) as u8 as char
    } else {
        c
    }
}

/// Every ASCII letter in lower case.
pub open spec fn lowered(s: Seq<char>) -> Seq<char> {
    Seq::new(s.len(), |i: int| lower(s[i]))
}

/// The optional text of an optional string.
pub open spec fn opt_text(s: Option<String>) -> Option<Seq<char>> {
    match s {
        Some(t) => Some(t@),
        None => None,
    }
}

/// The order of texts is strict and total.
pub proof fn lemma_precedes(a: Seq<char>, b: Seq<char>)
    ensures
        precedes(a, b) ==> a != b && !precedes(b, a),
        a != b ==> precedes(a, b) || precedes(b, a),
    decreases a.len(),
{
    if a.len() > 0 && b.len() > 0 && a[0] == b[0] {
        lemma_precedes(a.drop_first(), b.drop_first());
        if a.drop_first() == b.drop_first() {
            assert(a =~= seq![a[0]] + a.drop_first());
            assert(b =~= seq![b[0]] + b.drop_first());
        }
    } else if a.len() == 0 && b.len() == 0 {
        assert(a =~= b);
    }
}

/// The order of texts is transitive.
pub proof fn lemma_precedes_trans(a: Seq<char>, b: Seq<char>, c: Seq<char>)
    requires
        precedes(a, b),
        precedes(b, c),
    ensures
        precedes(a, c),
    decreases a.len(),
{
    if a.len() > 0 && a[0] == b[0] && b[0] == c[0] {
        lemma_precedes_trans(a.drop_first(), b.drop_first(), c.drop_first());
    }
}

/// A decimal writing consists of digits.
pub proof fn lemma_decimal_digits(n: nat)
    ensures
        decimal(n).len() > 0,
        forall|i: int| 0 <= i < decimal(n).len() ==> '0' <= #[trigger] decimal(n)[i] <= '9',
    decreases n,
{
    if n >= 10 {
        lemma_decimal_digits(n / 10);
    }
}

/// Different numbers are written differently.
pub proof fn lemma_decimal_injective(a: nat, b: nat)
    requires
        decimal(a) == decimal(b),
    ensures
        a == b,
    decreases a,
{
    lemma_decimal_digits(a / 10);
    lemma_decimal_digits(b / 10);
    assert(decimal(a).last() == digit(a));
    assert(decimal(b).last() == digit(b));
    assert(digit(a) as int == 48 + a % 10);
    assert(digit(b) as int == 48 + b % 10);
    if a >= 10 && b >= 10 {
        assert(decimal(a).drop_last() =~= decimal(a / 10));
        assert(decimal(b).drop_last() =~= decimal(b / 10));
        lemma_decimal_injective(a / 10, b / 10);
    } else if a >= 10 {
        assert(decimal(a).len() > 1);
    } else if b >= 10 {
        assert(decimal(b).len() > 1);
    }
}

// ---------------------------------------------------------------------------------------
// Operations
// ---------------------------------------------------------------------------------------
/// The decimal writing of `n`.
pub fn write_decimal(n: u64) -> (r: String)
    ensures
        r@ == decimal(n as nat),
    decreases n,
{
    let d = (48u8 + (n % 10) as u8) as char;
    if n < 10 {
        let mut r = String::new();
        r.push(d);
        r
    } else {
        let mut r = write_decimal(n / 10);
        r.push(d);
        r
    }
}

/// `head` and `tail`, one after the other.
pub fn two(head: &str, tail: &str) -> (r: String)
    ensures
        r@ == head@ + tail@,
{
    let mut r = head.to_owned();
    r.append(tail);
    r
}

/// `head`, `middle` and `tail`, one after the other.
pub fn three(head: &str, middle: &str, tail: &str) -> (r: String)
    ensures
        r@ == head@ + middle@ + tail@,
{
    let mut r = head.to_owned();
    r.append(middle);
    r.append(tail);
    r
}

/// Whether two texts are the same.
pub fn same(a: &str, b: &str) -> (r: bool)
    ensures
        r == (a@ == b@),
{
    let x: String = a.to_owned();
    let y: String = b.to_owned();
    x == y
}

/// The characters of a text.
pub fn chars_of(s: &str) -> (r: Vec<char>)
    ensures
        r@ == s@,
{
    let mut r: Vec<char> = Vec::new();
    for c in it: s.chars()
        invariant
            r@ == it.seq().take(it.index()),
    {
        r.push(c);
    }
    r
}

/// The text made of the characters from `from` up to `to`.
pub fn text_of(chars: &Vec<char>, from: usize, to: usize) -> (r: String)
    requires
        from <= to <= chars@.len(),
    ensures
        r@ == chars@.subrange(from as int, to as int),
{
    let mut r = String::new();
    for i in from..to
        invariant
            to <= chars@.len(),
            r@ == chars@.subrange(from as int, i as int),
    {
        r.push(chars[i]);
    }
    r
}

/// Whether `c` is white space.
pub fn white(c: char) -> (r: bool)
    ensures
        r == is_white(c),
{
    ('\u{9}' <= c && c <= '\u{d}') || c == '\u{20}' || c == '\u{85}' || c == '\u{a0}' || c
        == '\u{1680}' || ('\u{2000}' <= c && c <= '\u{200a}') || c == '\u{2028}' || c == '\u{2029}'
        || c == '\u{202f}' || c == '\u{205f}' || c == '\u{3000}'
}

/// The text without its leading white space.
pub fn trim_start(s: &str) -> (r: String)
    ensures
        r@ == trimmed_start(s@),
{
    let chars = chars_of(s);
    let mut from: usize = 0;
    assert(chars@.subrange(0, chars@.len() as int) =~= s@);
    while from < chars.len() && white(chars[from])
        invariant
            chars@ == s@,
            from <= chars@.len(),
            trimmed_start(s@) == trimmed_start(chars@.subrange(from as int, chars@.len() as int)),
        decreases chars@.len() - from,
    {
        assert(chars@.subrange(from as int, chars@.len() as int).drop_first() =~= chars@.subrange(
            from + 1,
            chars@.len() as int,
        ));
        from = from + 1;
    }
    text_of(&chars, from, chars.len())
}

/// The text without its trailing white space.
pub fn trim_end(s: &str) -> (r: String)
    ensures
        r@ == trimmed_end(s@),
{
    let chars = chars_of(s);
    let mut to: usize = chars.len();
    assert(chars@.subrange(0, to as int) =~= s@);
    while to > 0 && white(chars[to - 1])
        invariant
            chars@ == s@,
            to <= chars@.len(),
            trimmed_end(s@) == trimmed_end(chars@.subrange(0, to as int)),
        decreases to,
    {
        assert(chars@.subrange(0, to as int).drop_last() =~= chars@.subrange(0, to - 1));
        to = to - 1;
    }
    text_of(&chars, 0, to)
}

/// The text without white space at either end.
pub fn trim(s: &str) -> (r: String)
    ensures
        r@ == trimmed(s@),
{
    let head = trim_start(s);
    trim_end(head.as_str())
}

/// Whether `part` stands in `whole` at offset `at`.
pub fn stands_at(whole: &Vec<char>, part: &Vec<char>, at: usize) -> (r: bool)
    ensures
        r == occurs_at(whole@, part@, at as int),
{
    if at > whole.len() || part.len() > whole.len() - at {
        return false;
    }
    for i in 0..part.len()
        invariant
            at + part@.len() <= whole@.len() <= usize::MAX,
            forall|j: int| 0 <= j < i ==> whole@[at + j] == part@[j],
    {
        if whole[at + i] != part[i] {
            assert(whole@.subrange(at as int, at + part@.len())[i as int] != part@[i as int]);
            return false;
        }
    }
    assert(whole@.subrange(at as int, at + part@.len()) =~= part@);
    true
}

/// Whether `part` occurs anywhere in `whole`.
pub fn contains(whole: &str, part: &str) -> (r: bool)
    ensures
        r == occurs(whole@, part@),
{
    let w = chars_of(whole);
    let p = chars_of(part);
    if p.len() > w.len() {
        return false;
    }
    let last = w.len() - p.len();
    for at in 0..last
        invariant
            w@ == whole@,
            p@ == part@,
            forall|k: int| 0 <= k < at ==> !occurs_at(w@, p@, k),
    {
        if stands_at(&w, &p, at) {
            return true;
        }
    }
    stands_at(&w, &p, last)
}

/// Whether the text begins with `prefix`.
pub fn starts_with(s: &str, prefix: &str) -> (r: bool)
    ensures
        r == prefix@.is_prefix_of(s@),
{
    let w = chars_of(s);
    let p = chars_of(prefix);
    let r = stands_at(&w, &p, 0);
    r
}

/// Offset of the first `c` at or after `from`; the length when there is none.
pub fn find_char(chars: &Vec<char>, c: char, from: usize) -> (r: usize)
    requires
        from <= chars@.len(),
    ensures
        r == find_from(chars@, c, from as int),
        from <= r <= chars@.len(),
        r < chars@.len() ==> chars@[r as int] == c,
{
    let mut i = from;
    while i < chars.len()
        invariant
            from <= i <= chars@.len(),
            find_from(chars@, c, from as int) == find_from(chars@, c, i as int),
        decreases chars@.len() - i,
    {
        if chars[i] == c {
            return i;
        }
        i = i + 1;
    }
    i
}

/// The parts written one after the other, `separator` between two of them.
pub fn join(parts: &Vec<String>, separator: &str) -> (r: String)
    ensures
        r@ == joined(texts(parts@), separator@),
{
    let mut r = String::new();
    for i in 0..parts.len()
        invariant
            r@ == joined(texts(parts@).take(i as int), separator@),
    {
        if i > 0 {
            r.append(separator);
        }
        r.append(parts[i].as_str());
        assert(texts(parts@).take(i + 1).drop_last() =~= texts(parts@).take(i as int));
        assert(i == 0 ==> r@ =~= parts@[0]@);
    }
    assert(texts(parts@).take(parts@.len() as int) =~= texts(parts@));
    r
}

/// Whether `a` comes strictly before `b`.
pub fn before(a: &str, b: &str) -> (r: bool)
    ensures
        r == precedes(a@, b@),
{
    let x = chars_of(a);
    let y = chars_of(b);
    let mut i: usize = 0;
    assert(x@.skip(0) =~= x@);
    assert(y@.skip(0) =~= y@);
    while i < x.len() && i < y.len()
        invariant
            x@ == a@,
            y@ == b@,
            i <= x@.len(),
            i <= y@.len(),
            precedes(x@, y@) == precedes(x@.skip(i as int), y@.skip(i as int)),
        decreases x@.len() - i,
    {
        assert(x@.skip(i as int).drop_first() =~= x@.skip(i + 1));
        assert(y@.skip(i as int).drop_first() =~= y@.skip(i + 1));
        if x[i] != y[i] {
            return x[i] < y[i];
        }
        i = i + 1;
    }
    i < y.len()
}

/// The text with every ASCII letter in upper case.
pub fn to_upper(s: &str) -> (r: String)
    ensures
        r@ == uppered(s@),
{
    let chars = chars_of(s);
    let mut r = String::new();
    for i in 0..chars.len()
        invariant
            chars@ == s@,
            r@ =~= uppered(s@).take(i as int),
    {
        let c = chars[i];
        if 'a' <= c && c <= 'z' {
            r.push((c as u8 - 32) as char);
        } else {
            r.push(c);
        }
    }
    r
}

/// Whether the text is one of the strings.
pub fn listed(s: &str, strings: &Vec<String>) -> (r: bool)
    ensures
        r == texts(strings@).contains(s@),
{
    for i in 0..strings.len()
        invariant
            forall|j: int| 0 <= j < i ==> strings@[j]@ != s@,
    {
        if same(strings[i].as_str(), s) {
            assert(texts(strings@)[i as int] == s@);
            return true;
        }
    }
    false
}

// ---------------------------------------------------------------------------------------
// Laws
// ---------------------------------------------------------------------------------------
/// Trimming takes white space off both ends, all of it, and nothing else.
pub proof fn law_trimming_takes_white_space_only(s: Seq<char>)
    ensures
        exists|from: int, to: int|
            {
                &&& 0 <= from <= to <= s.len()
                &&& trimmed(s) == #[trigger] s.subrange(from, to)
                &&& forall|k: int| 0 <= k < from || to <= k < s.len() ==> is_white(#[trigger] s[k])
                &&& from < to ==> !is_white(s[from]) && !is_white(s[to - 1])
            },
{
    let from = lemma_trimmed_start(s);
    let rest = trimmed_start(s);
    let to = lemma_trimmed_end(rest);
    assert(trimmed(s) =~= s.subrange(from, from + to));
    assert forall|k: int| 0 <= k < from || from + to <= k < s.len() implies is_white(
        #[trigger] s[k],
    ) by {
        if k >= from {
            assert(rest[k - from] == s[k]);
        }
    }
    if to > 0 {
        assert(rest[0] == s[from]);
        assert(rest[to - 1] == s[from + to - 1]);
    }
}

/// Leading white space goes, all of it, and nothing else.
pub proof fn lemma_trimmed_start(s: Seq<char>) -> (from: int)
    ensures
        0 <= from <= s.len(),
        trimmed_start(s) == s.subrange(from, s.len() as int),
        forall|k: int| 0 <= k < from ==> is_white(#[trigger] s[k]),
        from < s.len() ==> !is_white(s[from]),
    decreases s.len(),
{
    if s.len() > 0 && is_white(s[0]) {
        let from = lemma_trimmed_start(s.drop_first());
        assert(s.drop_first().subrange(from, s.len() - 1) =~= s.subrange(
            from + 1,
            s.len() as int,
        ));
        assert forall|k: int| 0 <= k < from + 1 implies is_white(#[trigger] s[k]) by {
            if k > 0 {
                assert(s.drop_first()[k - 1] == s[k]);
            }
        }
        from + 1
    } else {
        assert(s.subrange(0, s.len() as int) =~= s);
        0
    }
}

/// Trailing white space goes, all of it, and nothing else.
pub proof fn lemma_trimmed_end(s: Seq<char>) -> (to: int)
    ensures
        0 <= to <= s.len(),
        trimmed_end(s) == s.subrange(0, to),
        forall|k: int| to <= k < s.len() ==> is_white(#[trigger] s[k]),
        to > 0 ==> !is_white(s[to - 1]),
    decreases s.len(),
{
    if s.len() > 0 && is_white(s.last()) {
        let to = lemma_trimmed_end(s.drop_last());
        assert(s.drop_last().subrange(0, to) =~= s.subrange(0, to));
        assert forall|k: int| to <= k < s.len() implies is_white(#[trigger] s[k]) by {
            if k < s.len() - 1 {
                assert(s.drop_last()[k] == s[k]);
            }
        }
        to
    } else {
        assert(s.subrange(0, s.len() as int) =~= s);
        s.len() as int
    }
}

/// Of the ASCII characters, blanks, tabs and line breaks of all sorts are white space; no other
/// is.
pub proof fn law_ascii_white_space(c: char)
    requires
        (c as int) < 128,
    ensures
        is_white(c) <==> c == ' ' || (9 <= c as int <= 13),
{
}

/// Looking for a character finds the first one there is.
pub proof fn law_first_is_found(s: Seq<char>, c: char, from: int)
    requires
        0 <= from <= s.len(),
    ensures
        from <= find_from(s, c, from) <= s.len(),
        find_from(s, c, from) < s.len() ==> s[find_from(s, c, from)] == c,
        forall|k: int| from <= k < find_from(s, c, from) ==> #[trigger] s[k] != c,
    decreases s.len() - from,
{
    if from < s.len() && s[from] != c {
        law_first_is_found(s, c, from + 1);
    }
}

/// Parts are written one after the other, with the separator between two of them.
pub proof fn law_parts_are_joined(a: Seq<Seq<char>>, b: Seq<Seq<char>>, separator: Seq<char>)
    requires
        a.len() > 0,
        b.len() > 0,
    ensures
        joined(a + b, separator) == joined(a, separator) + separator + joined(b, separator),
        a.len() == 1 ==> joined(a, separator) == a[0],
    decreases b.len(),
{
    let all = a + b;
    assert(all.last() == b.last());
    if b.len() == 1 {
        assert(all.drop_last() =~= a);
    } else {
        law_parts_are_joined(a, b.drop_last(), separator);
        assert(all.drop_last() =~= a + b.drop_last());
        assert(joined(all, separator) =~= joined(a, separator) + separator + joined(b, separator));
    }
}

/// Texts are in order by the first character in which they differ; what a text begins with comes
/// before it.
pub proof fn law_texts_are_in_order(common: Seq<char>, x: Seq<char>, y: Seq<char>)
    requires
        y.len() > 0,
        x.len() > 0 ==> x[0] != y[0],
    ensures
        precedes(common + x, common + y) == (x.len() == 0 || (x[0] as int) < (y[0] as int)),
    decreases common.len(),
{
    let a = common + x;
    let b = common + y;
    if common.len() > 0 {
        assert(a.drop_first() =~= common.drop_first() + x);
        assert(b.drop_first() =~= common.drop_first() + y);
        law_texts_are_in_order(common.drop_first(), x, y);
    } else {
        assert(a =~= x && b =~= y);
    }
}

/// Changing the case touches ASCII letters only, and each of them keeps its place in the
/// alphabet.
pub proof fn law_case_is_of_letters(s: Seq<char>, i: int)
    requires
        0 <= i < s.len(),
    ensures
        lowered(s).len() == s.len(),
        uppered(s).len() == s.len(),
        'A' <= s[i] <= 'Z' ==> lowered(s)[i] as int - 'a' as int == s[i] as int - 'A' as int
            && uppered(s)[i] == s[i],
        'a' <= s[i] <= 'z' ==> uppered(s)[i] as int - 'A' as int == s[i] as int - 'a' as int
            && lowered(s)[i] == s[i],
        !('A' <= s[i] <= 'Z') && !('a' <= s[i] <= 'z') ==> lowered(s)[i] == s[i] && uppered(s)[i]
            == s[i],
{
}

/// The number that decimal digits write.
pub open spec fn value(digits: Seq<char>) -> nat
    decreases digits.len(),
{
    if digits.len() == 0 {
        0
    } else {
        (value(digits.drop_last()) * 10 + (digits.last() as int - 48)) as nat
    }
}

/// A number is written in decimal digits that stand for it, without a zero in front.
pub proof fn law_decimal_writes_the_number(n: nat)
    ensures
        value(decimal(n)) == n,
        decimal(n).len() > 0,
        forall|i: int| 0 <= i < decimal(n).len() ==> '0' <= #[trigger] decimal(n)[i] <= '9',
        n > 0 ==> decimal(n)[0] != '0',
        n == 0 ==> decimal(n) == seq!['0'],
    decreases n,
{
    lemma_decimal_digits(n);
    assert(digit(n) as int == 48 + n % 10);
    if n >= 10 {
        law_decimal_writes_the_number(n / 10);
        assert(decimal(n).drop_last() =~= decimal(n / 10));
        assert(decimal(n)[0] == decimal(n / 10)[0]);
    } else {
        assert(decimal(n).drop_last() =~= seq![]);
        assert(value(decimal(n).drop_last()) == 0);
        assert(decimal(n).last() == digit(n));
    }
}

/// A part occurs in a text wherever it stands in it, and a text in which it occurs is made of
/// something before it, the part, and something after it.
pub proof fn law_part_occurs(before: Seq<char>, part: Seq<char>, after: Seq<char>, whole: Seq<char>)
    ensures
        occurs(before + part + after, part),
        occurs(whole, part) ==> exists|head: Seq<char>, tail: Seq<char>|
            whole == #[trigger] (head + part + tail),
{
    let all = before + part + after;
    assert(all.subrange(before.len() as int, before.len() as int + part.len()) =~= part);
    assert(occurs_at(all, part, before.len() as int));
    if occurs(whole, part) {
        let at = choose|at: int| occurs_at(whole, part, at);
        let head = whole.take(at);
        let tail = whole.skip(at + part.len());
        assert forall|i: int| 0 <= i < whole.len() implies (head + part + tail)[i] == whole[i] by {
            if at <= i < at + part.len() {
                assert(part[i - at] == whole.subrange(at, at + part.len())[i - at]);
            }
        }
        assert(whole =~= head + part + tail);
    }
}

/// Every part occurs in what they are joined to.
pub proof fn law_each_part_occurs(parts: Seq<Seq<char>>, separator: Seq<char>, i: int)
    requires
        0 <= i < parts.len(),
    ensures
        occurs(joined(parts, separator), parts[i]),
{
    let one = seq![parts[i]];
    let before = parts.take(i);
    let after = parts.skip(i + 1);
    law_parts_are_joined(one, one, separator);
    let empty = Seq::<char>::empty();
    let head = if i > 0 {
        law_parts_are_joined(before, one, separator);
        joined(before, separator) + separator
    } else {
        empty
    };
    let begun = before + one;
    assert(joined(begun, separator) == head + parts[i]) by {
        if i == 0 {
            assert(begun =~= one);
            assert(empty + parts[i] =~= parts[i]);
        }
    }
    let tail = if i + 1 < parts.len() {
        law_parts_are_joined(begun, after, separator);
        separator + joined(after, separator)
    } else {
        empty
    };
    let all = head + parts[i] + tail;
    if i + 1 < parts.len() {
        assert(parts =~= begun + after);
        assert(joined(parts, separator) =~= all);
    } else {
        assert(parts =~= begun);
        assert(joined(parts, separator) =~= all);
    }
    law_part_occurs(head, parts[i], tail, all);
}

} // verus!
