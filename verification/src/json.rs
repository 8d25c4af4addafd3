//! JSON values.
//!
//! A value of the library keeps the entries of an object in the order in which they came; where
//! a key stands twice, the first entry counts. Reading and writing text is left to `serde_json`.
use vstd::prelude::*;
use vstd::string::*;

use serde::Serialize;

use crate::text::{before, lemma_precedes, lemma_precedes_trans, precedes, same, texts};

verus! {

// ---------------------------------------------------------------------------------------
// Values
// ---------------------------------------------------------------------------------------
/// `serde_json::Number`, carried through as it is.
#[verifier::external_type_specification]
#[verifier::external_body]
pub struct ExNumber(serde_json::Number);

/// `serde_json::Value`; see [`holds`] for what it holds.
#[verifier::external_type_specification]
#[verifier::external_body]
pub struct ExValue(serde_json::Value);

/// `Number::clone` gives the same number again: it is derived, and copies the one field.
pub assume_specification[ <serde_json::Number as std::clone::Clone>::clone ](
    n: &serde_json::Number,
) -> (r: serde_json::Number)
    ensures
        r == *n,
;

/// A JSON value.
#[derive(Debug)]
pub enum Json {
    Null,
    Bool(bool),
    Number(serde_json::Number),
    Text(String),
    Array(Vec<Json>),
    Object(Vec<(String, Json)>),
}

/// What a [`Json`] stands for.
pub enum JsonModel {
    Null,
    Bool(bool),
    Number(serde_json::Number),
    Text(Seq<char>),
    Array(Seq<JsonModel>),
    Object(Seq<(Seq<char>, JsonModel)>),
}

/// The entries of an object, in their order.
pub type Entries = Seq<(Seq<char>, JsonModel)>;

/// What a value stands for.
pub open spec fn model(v: Json) -> JsonModel
    decreases v,
{
    match v {
        Json::Null => JsonModel::Null,
        Json::Bool(b) => JsonModel::Bool(b),
        Json::Number(n) => JsonModel::Number(n),
        Json::Text(s) => JsonModel::Text(s@),
        Json::Array(items) => JsonModel::Array(items_model(items@)),
        Json::Object(entries) => JsonModel::Object(entries_model(entries@)),
    }
}

/// What the items of an array stand for.
pub open spec fn items_model(items: Seq<Json>) -> Seq<JsonModel>
    decreases items,
{
    Seq::new(
        items.len(),
        |i: int|
            if 0 <= i < items.len() {
                model(items[i])
            } else {
                JsonModel::Null
            },
    )
}

/// What the entries of an object stand for.
pub open spec fn entries_model(entries: Seq<(String, Json)>) -> Entries
    decreases entries,
{
    Seq::new(
        entries.len(),
        |i: int|
            if 0 <= i < entries.len() {
                (entries[i].0@, model(entries[i].1))
            } else {
                (seq![], JsonModel::Null)
            },
    )
}

impl View for Json {
    type V = JsonModel;

    open spec fn view(&self) -> JsonModel {
        model(*self)
    }
}

impl Json {
    /// The same value again.
    pub fn copy(&self) -> (r: Json)
        ensures
            r@ == self@,
        decreases self,
    {
        match self {
            Json::Null => Json::Null,
            Json::Bool(b) => Json::Bool(*b),
            Json::Number(n) => Json::Number(n.clone()),
            Json::Text(s) => Json::Text(s.clone()),
            Json::Array(items) => {
                let mut out: Vec<Json> = Vec::new();
                for i in 0..items.len()
                    invariant
                        out@.len() == i,
                        *self == Json::Array(*items),
                        forall|j: int| 0 <= j < i ==> model(#[trigger] out@[j]) == model(items@[j]),
                {
                    assert(decreases_to!(self => (*self)->Array_0));
                    assert(decreases_to!(items => items@));
                    assert(decreases_to!(items@ => items@[i as int]));
                    assert(decreases_to!(self => items@[i as int]));
                    out.push(items[i].copy());
                }
                assert(items_model(out@) =~= items_model(items@));
                Json::Array(out)
            },
            Json::Object(entries) => {
                let mut out: Vec<(String, Json)> = Vec::new();
                for i in 0..entries.len()
                    invariant
                        out@.len() == i,
                        *self == Json::Object(*entries),
                        forall|j: int|
                            0 <= j < i ==> (#[trigger] out@[j]).0@ == entries@[j].0@ && model(
                                out@[j].1,
                            ) == model(entries@[j].1),
                {
                    assert(decreases_to!(self => (*self)->Object_0));
                    assert(decreases_to!(entries => entries@));
                    assert(decreases_to!(entries@ => entries@[i as int]));
                    assert(decreases_to!(entries@[i as int] => entries@[i as int].1));
                    assert(decreases_to!(self => entries@[i as int].1));
                    out.push((entries[i].0.clone(), entries[i].1.copy()));
                }
                assert(entries_model(out@) =~= entries_model(entries@));
                Json::Object(out)
            },
        }
    }
}

// ---------------------------------------------------------------------------------------
// Fields and paths
// ---------------------------------------------------------------------------------------
/// The position of the first entry for a key, from position `i` on.
pub open spec fn slot_from(entries: Entries, key: Seq<char>, i: int) -> Option<int>
    decreases entries.len() - i,
{
    if i < 0 || i >= entries.len() {
        None
    } else if entries[i].0 == key {
        Some(i)
    } else {
        slot_from(entries, key, i + 1)
    }
}

/// The position of the entry for a key.
pub open spec fn slot(entries: Entries, key: Seq<char>) -> Option<int> {
    slot_from(entries, key, 0)
}

/// The value under a key of an object; nothing where there is no such key, or no object.
pub open spec fn field(v: JsonModel, key: Seq<char>) -> Option<JsonModel> {
    match v {
        JsonModel::Object(entries) => match slot(entries, key) {
            Some(i) => Some(entries[i].1),
            None => None,
        },
        _ => None,
    }
}

/// The entries with another value under a key.
pub open spec fn with_entry(entries: Entries, key: Seq<char>, value: JsonModel) -> Entries {
    match slot(entries, key) {
        Some(i) => entries.update(i, (key, value)),
        None => entries.push((key, value)),
    }
}

/// The value with another value under a key.
pub open spec fn with_field(v: JsonModel, key: Seq<char>, value: JsonModel) -> JsonModel {
    match v {
        JsonModel::Object(entries) => JsonModel::Object(with_entry(entries, key, value)),
        _ => v,
    }
}

/// Whether an entry has another key.
pub open spec fn other_than(key: Seq<char>) -> spec_fn((Seq<char>, JsonModel)) -> bool {
    |e: (Seq<char>, JsonModel)| e.0 != key
}

/// The value without a key.
pub open spec fn without_field(v: JsonModel, key: Seq<char>) -> JsonModel {
    match v {
        JsonModel::Object(entries) => JsonModel::Object(entries.filter(other_than(key))),
        _ => v,
    }
}

/// What following a path leads to.
pub enum Reach {
    Found(JsonModel),
    /// A key on the path is missing.
    Missing,
    /// A list sits on the path, after that many keys.
    Listed(int),
}

/// Where a path leads, from its key number `depth` on.
pub open spec fn follow(v: JsonModel, path: Seq<Seq<char>>, depth: int) -> Reach
    decreases path.len() - depth,
{
    if depth < 0 || depth >= path.len() {
        Reach::Found(v)
    } else if v is Array {
        Reach::Listed(depth)
    } else {
        match field(v, path[depth]) {
            Some(next) => follow(next, path, depth + 1),
            None => Reach::Missing,
        }
    }
}

/// The value with another value where a path leads.
pub open spec fn graft(v: JsonModel, path: Seq<Seq<char>>, depth: int, new: JsonModel) -> JsonModel
    decreases path.len() - depth,
{
    if depth < 0 || depth >= path.len() {
        new
    } else {
        match field(v, path[depth]) {
            Some(next) => with_field(v, path[depth], graft(next, path, depth + 1, new)),
            None => v,
        }
    }
}

/// The slot of a key is the first entry that has it.
pub proof fn lemma_slot(entries: Entries, key: Seq<char>, i: int)
    requires
        0 <= i <= entries.len(),
        forall|j: int| 0 <= j < i ==> (#[trigger] entries[j]).0 != key,
    ensures
        match slot_from(entries, key, i) {
            Some(k) => {
                &&& i <= k < entries.len()
                &&& entries[k].0 == key
                &&& forall|j: int| 0 <= j < k ==> (#[trigger] entries[j]).0 != key
            },
            None => forall|j: int| 0 <= j < entries.len() ==> (#[trigger] entries[j]).0 != key,
        },
    decreases entries.len() - i,
{
    if i < entries.len() && entries[i].0 != key {
        lemma_slot(entries, key, i + 1);
    }
}

/// The first entry that has a key is its slot.
pub proof fn lemma_slot_at(entries: Entries, key: Seq<char>, k: int)
    requires
        0 <= k < entries.len(),
        entries[k].0 == key,
        forall|j: int| 0 <= j < k ==> (#[trigger] entries[j]).0 != key,
    ensures
        slot(entries, key) == Some(k),
{
    lemma_slot(entries, key, 0);
}

/// Writing under a key: reading it back gives what was written, and no other key changes.
pub proof fn lemma_with_entry(entries: Entries, key: Seq<char>, value: JsonModel, other: Seq<char>)
    ensures
        field(JsonModel::Object(with_entry(entries, key, value)), other) == if other == key {
            Some(value)
        } else {
            field(JsonModel::Object(entries), other)
        },
{
    let out = with_entry(entries, key, value);
    lemma_slot(entries, key, 0);
    lemma_slot(entries, other, 0);
    lemma_slot(out, other, 0);
    match slot(entries, key) {
        Some(i) => {
            if other == key {
                lemma_slot_at(out, key, i);
            } else {
                match slot(entries, other) {
                    Some(k) => lemma_slot_at(out, other, k),
                    None => {
                        if let Some(k) = slot(out, other) {
                            assert(out[k].0 == other);
                            assert(entries[k].0 == other);
                        }
                    },
                }
            }
        },
        None => {
            if other == key {
                lemma_slot_at(out, key, entries.len() as int);
            } else {
                match slot(entries, other) {
                    Some(k) => lemma_slot_at(out, other, k),
                    None => {
                        if let Some(k) = slot(out, other) {
                            assert(k < entries.len());
                            assert(entries[k].0 == other);
                        }
                    },
                }
            }
        },
    }
}

/// Writing under a key of a value that has it.
pub proof fn lemma_with_field(v: JsonModel, key: Seq<char>, value: JsonModel, other: Seq<char>)
    requires
        v is Object,
    ensures
        field(with_field(v, key, value), other) == if other == key {
            Some(value)
        } else {
            field(v, other)
        },
{
    lemma_with_entry(v->Object_0, key, value, other);
}

/// What is under a key in entries followed by one more.
proof fn lemma_field_push(entries: Entries, last: (Seq<char>, JsonModel), key: Seq<char>)
    ensures
        field(JsonModel::Object(entries.push(last)), key) == match field(
            JsonModel::Object(entries),
            key,
        ) {
            Some(value) => Some(value),
            None => if key == last.0 {
                Some(last.1)
            } else {
                None
            },
        },
{
    let all = entries.push(last);
    lemma_slot(entries, key, 0);
    lemma_slot(all, key, 0);
    match slot(entries, key) {
        Some(i) => lemma_slot_at(all, key, i),
        None => if key == last.0 {
            lemma_slot_at(all, key, entries.len() as int);
        },
    }
}

/// Taking out a key: it is gone, and no other key changes.
pub proof fn law_removed_field_is_gone(v: JsonModel, key: Seq<char>, other: Seq<char>)
    ensures
        field(without_field(v, key), other) == if other == key {
            None
        } else {
            field(v, other)
        },
{
    if let JsonModel::Object(entries) = v {
        lemma_filtered_field(entries, key, other);
    }
}

proof fn lemma_filtered_field(entries: Entries, key: Seq<char>, other: Seq<char>)
    ensures
        field(JsonModel::Object(entries.filter(other_than(key))), other) == if other == key {
            None
        } else {
            field(JsonModel::Object(entries), other)
        },
    decreases entries.len(),
{
    reveal(Seq::filter);
    if entries.len() > 0 {
        let keep = other_than(key);
        let rest = entries.drop_last();
        lemma_filtered_field(rest, key, other);
        assert(entries =~= rest.push(entries.last()));
        lemma_field_push(rest, entries.last(), other);
        lemma_field_push(rest.filter(keep), entries.last(), other);
    }
}

/// Writing what is there already changes nothing.
pub proof fn lemma_same_field(v: JsonModel, key: Seq<char>)
    ensures
        field(v, key) matches Some(value) ==> with_field(v, key, value) == v,
{
    if let JsonModel::Object(entries) = v {
        lemma_slot(entries, key, 0);
        if let Some(i) = slot(entries, key) {
            assert(entries.update(i, (key, entries[i].1)) =~= entries);
        }
    }
}

/// Putting back what a path leads to changes nothing.
pub proof fn lemma_same_graft(v: JsonModel, path: Seq<Seq<char>>, depth: int)
    ensures
        follow(v, path, depth) matches Reach::Found(node) ==> graft(v, path, depth, node) == v,
    decreases path.len() - depth,
{
    if 0 <= depth < path.len() {
        if let Some(next) = field(v, path[depth]) {
            lemma_same_graft(next, path, depth + 1);
            lemma_same_field(v, path[depth]);
        }
    }
}

/// A path leads to what was put there.
pub proof fn law_graft_is_found(v: JsonModel, path: Seq<Seq<char>>, depth: int, new: JsonModel)
    requires
        follow(v, path, depth) is Found,
    ensures
        follow(graft(v, path, depth, new), path, depth) == Reach::Found(new),
    decreases path.len() - depth,
{
    if 0 <= depth < path.len() {
        if let Some(next) = field(v, path[depth]) {
            law_graft_is_found(next, path, depth + 1, new);
            if let JsonModel::Object(entries) = v {
                lemma_with_entry(
                    entries,
                    path[depth],
                    graft(next, path, depth + 1, new),
                    path[depth],
                );
            }
        }
    }
}

/// Changing the value of one entry.
proof fn lemma_update_model(entries: Seq<(String, Json)>, i: int, value: Json)
    requires
        0 <= i < entries.len(),
    ensures
        entries_model(entries.update(i, (entries[i].0, value))) == entries_model(entries).update(
            i,
            (entries[i].0@, model(value)),
        ),
{
    assert(entries_model(entries.update(i, (entries[i].0, value))) =~= entries_model(
        entries,
    ).update(i, (entries[i].0@, model(value))));
}

/// The position of the first entry for a key.
fn slot_of(entries: &Vec<(String, Json)>, key: &str) -> (r: Option<usize>)
    ensures
        match r {
            Some(i) => slot(entries_model(entries@), key@) == Some(i as int) && i < entries@.len(),
            None => slot(entries_model(entries@), key@) is None,
        },
{
    let ghost es = entries_model(entries@);
    for i in 0..entries.len()
        invariant
            es == entries_model(entries@),
            slot(es, key@) == slot_from(es, key@, i as int),
    {
        assert(es[i as int].0 == entries@[i as int].0@);
        if same(entries[i].0.as_str(), key) {
            return Some(i);
        }
    }
    None
}

impl Json {
    /// The value under a key.
    pub fn field(&self, key: &str) -> (r: Option<&Json>)
        ensures
            match r {
                Some(v) => field(self@, key@) == Some(v@),
                None => field(self@, key@) is None,
            },
    {
        match self {
            Json::Object(entries) => match slot_of(entries, key) {
                Some(i) => Some(&entries[i].1),
                None => None,
            },
            _ => None,
        }
    }

    /// The value under a key, to be changed.
    pub fn field_mut(&mut self, key: &str) -> (r: Option<&mut Json>)
        ensures
            match r {
                Some(v) => {
                    &&& field(old(self)@, key@) == Some((*v)@)
                    &&& final(self)@ == with_field(old(self)@, key@, (*final(v))@)
                },
                None => field(old(self)@, key@) is None && *final(self) == *old(self),
            },
    {
        match self {
            Json::Object(entries) => match slot_of(entries, key) {
                Some(i) => {
                    let ghost before = entries@;
                    let v = &mut entries[i].1;
                    proof {
                        lemma_slot(entries_model(before), key@, 0);
                        lemma_update_model(before, i as int, *final(v));
                    }
                    Some(v)
                },
                None => None,
            },
            _ => None,
        }
    }
}

impl Json {
    /// Puts a value under a key of an object; does nothing to another value.
    pub fn set_field(&mut self, key: &str, value: Json)
        ensures
            final(self)@ == with_field(old(self)@, key@, value@),
    {
        match self {
            Json::Object(entries) => {
                let ghost before = entries@;
                proof {
                    lemma_slot(entries_model(before), key@, 0);
                }
                match slot_of(entries, key) {
                    Some(i) => {
                        entries[i].1 = value;
                        proof {
                            lemma_update_model(before, i as int, value);
                        }
                    },
                    None => {
                        entries.push((key.to_owned(), value));
                        assert(entries_model(entries@) =~= entries_model(before).push(
                            (key@, model(value)),
                        ));
                    },
                }
            },
            _ => {},
        }
    }

    /// Takes a key out of an object; does nothing to another value.
    pub fn remove_field(self, key: &str) -> (r: Json)
        ensures
            r@ == without_field(self@, key@),
    {
        match self {
            Json::Object(entries) => {
                let ghost keep = other_than(key@);
                let ghost all = entries_model(entries@);
                let mut kept: Vec<(String, Json)> = Vec::new();
                proof {
                    reveal(Seq::filter);
                    assert(entries_model(kept@) =~= all.take(0).filter(keep));
                }
                for e in it: entries
                    invariant
                        it.seq() == entries@,
                        all == entries_model(entries@),
                        keep == other_than(key@),
                        entries_model(kept@) == all.take(it.index()).filter(keep),
                {
                    let ghost n = it.index();
                    let ghost done = entries_model(kept@);
                    proof {
                        reveal(Seq::filter);
                        assert(all.take(n + 1).drop_last() =~= all.take(n));
                        assert(all.take(n + 1).last() == all[n]);
                        assert(all[n] == (entries@[n].0@, model(entries@[n].1)));
                    }
                    if !same(e.0.as_str(), key) {
                        kept.push(e);
                        assert(entries_model(kept@) =~= done.push(all[n]));
                    }
                }
                assert(all.take(all.len() as int) =~= all);
                Json::Object(kept)
            },
            other => other,
        }
    }

    /// The value where a path leads, from its key number `depth` on; `Err` with the number of
    /// keys before a list on the path.
    pub fn reach(&self, path: &Vec<String>, depth: usize) -> (r: Result<Option<&Json>, usize>)
        requires
            depth <= path@.len(),
        ensures
            match follow(self@, texts(path@), depth as int) {
                Reach::Found(v) => r matches Ok(Some(m)) && m@ == v,
                Reach::Missing => r matches Ok(None),
                Reach::Listed(d) => r matches Err(n) && n == d && depth <= n < path@.len(),
            },
        decreases path@.len() - depth,
    {
        if depth >= path.len() {
            return Ok(Some(self));
        }
        if let Json::Array(_) = self {
            return Err(depth);
        }
        assert(texts(path@)[depth as int] == path@[depth as int]@);
        match self.field(path[depth].as_str()) {
            Some(next) => next.reach(path, depth + 1),
            None => Ok(None),
        }
    }

    /// The value where a path leads, from its key number `depth` on, to be changed; `Err` with
    /// the number of keys before a list on the path.
    pub fn reach_mut(&mut self, path: &Vec<String>, depth: usize) -> (r: Result<
        Option<&mut Json>,
        usize,
    >)
        requires
            depth <= path@.len(),
        ensures
            match follow(old(self)@, texts(path@), depth as int) {
                Reach::Found(v) => {
                    &&& r matches Ok(Some(m))
                    &&& (*m)@ == v
                    &&& final(self)@ == graft(
                        old(self)@,
                        texts(path@),
                        depth as int,
                        (*final(m))@,
                    )
                },
                Reach::Missing => r matches Ok(None) && final(self)@ == old(self)@,
                Reach::Listed(d) => {
                    &&& r matches Err(n)
                    &&& n == d
                    &&& depth <= n < path@.len()
                    &&& final(self)@ == old(self)@
                },
            },
        decreases path@.len() - depth,
    {
        if depth >= path.len() {
            return Ok(Some(self));
        }
        if let Json::Array(_) = self {
            return Err(depth);
        }
        assert(texts(path@)[depth as int] == path@[depth as int]@);
        proof {
            lemma_same_field(self@, path@[depth as int]@);
        }
        match self.field_mut(path[depth].as_str()) {
            Some(next) => next.reach_mut(path, depth + 1),
            None => Ok(None),
        }
    }
}

// ---------------------------------------------------------------------------------------
// Sorted keys
// ---------------------------------------------------------------------------------------
/// Entries in ascending order, with one more put in its place.
pub open spec fn put(entries: Entries, key: Seq<char>, value: JsonModel) -> Entries
    decreases entries.len(),
{
    if entries.len() == 0 {
        seq![(key, value)]
    } else if key == entries[0].0 {
        seq![(key, value)] + entries.drop_first()
    } else if precedes(key, entries[0].0) {
        seq![(key, value)] + entries
    } else {
        seq![entries[0]] + put(entries.drop_first(), key, value)
    }
}

/// The value with the keys of every object sorted.
pub open spec fn canonical(v: JsonModel) -> JsonModel
    decreases v,
{
    match v {
        JsonModel::Array(items) => JsonModel::Array(canonical_items(items)),
        JsonModel::Object(entries) => JsonModel::Object(canonical_entries(entries)),
        _ => v,
    }
}

/// The items, each with its keys sorted.
pub open spec fn canonical_items(items: Seq<JsonModel>) -> Seq<JsonModel>
    decreases items,
{
    Seq::new(
        items.len(),
        |i: int|
            if 0 <= i < items.len() {
                canonical(items[i])
            } else {
                JsonModel::Null
            },
    )
}

/// The entries sorted by key, each value with its keys sorted.
pub open spec fn canonical_entries(entries: Entries) -> Entries
    decreases entries,
{
    if entries.len() == 0 {
        seq![]
    } else {
        put(canonical_entries(entries.drop_first()), entries[0].0, canonical(entries[0].1))
    }
}

/// Whether keys are in strictly ascending order.
pub open spec fn ascending(entries: Entries) -> bool {
    forall|i: int, j: int|
        0 <= i < j < entries.len() ==> precedes(
            (#[trigger] entries[i]).0,
            (#[trigger] entries[j]).0,
        )
}

/// Whether the keys of every object in a value are in strictly ascending order.
pub open spec fn sorted_through(v: JsonModel) -> bool
    decreases v,
{
    match v {
        JsonModel::Array(items) => forall|i: int|
            0 <= i < items.len() ==> sorted_through(#[trigger] items[i]),
        JsonModel::Object(entries) => {
            &&& ascending(entries)
            &&& forall|i: int| 0 <= i < entries.len() ==> sorted_through((#[trigger] entries[i]).1)
        },
        _ => true,
    }
}

/// Whether two values differ in nothing but the order of keys.
pub open spec fn same_content(a: JsonModel, b: JsonModel) -> bool
    decreases a,
{
    match (a, b) {
        (JsonModel::Array(x), JsonModel::Array(y)) => {
            &&& x.len() == y.len()
            &&& forall|i: int| 0 <= i < x.len() ==> same_content(#[trigger] x[i], y[i])
        },
        (JsonModel::Object(x), JsonModel::Object(y)) => {
            &&& forall|i: int|
                0 <= i < x.len() && slot(x, (#[trigger] x[i]).0) == Some(i) ==> {
                    &&& field(b, x[i].0) is Some
                    &&& same_content(x[i].1, field(b, x[i].0)->0)
                }
            &&& forall|j: int| 0 <= j < y.len() ==> field(a, (#[trigger] y[j]).0) is Some
        },
        (JsonModel::Array(_), _) => false,
        (JsonModel::Object(_), _) => false,
        _ => a == b,
    }
}

/// What is under a key in one entry followed by others.
proof fn lemma_field_cons(first: (Seq<char>, JsonModel), rest: Entries, key: Seq<char>)
    ensures
        field(JsonModel::Object(seq![first] + rest), key) == if key == first.0 {
            Some(first.1)
        } else {
            field(JsonModel::Object(rest), key)
        },
{
    let all = seq![first] + rest;
    assert(forall|j: int| 0 < j < all.len() ==> all[j] == rest[j - 1]);
    lemma_slot(rest, key, 0);
    lemma_slot(all, key, 0);
    if key == first.0 {
        lemma_slot_at(all, key, 0);
    } else {
        match slot(rest, key) {
            Some(k) => lemma_slot_at(all, key, k + 1),
            None => {
                if let Some(k) = slot(all, key) {
                    assert(rest[k - 1].0 == key);
                }
            },
        }
    }
}

/// Reading gives back the entry that was put in its place.
proof fn lemma_put_field(entries: Entries, key: Seq<char>, value: JsonModel, other: Seq<char>)
    ensures
        field(JsonModel::Object(put(entries, key, value)), other) == if other == key {
            Some(value)
        } else {
            field(JsonModel::Object(entries), other)
        },
    decreases entries.len(),
{
    if entries.len() == 0 {
        assert(entries =~= seq![]);
        assert(put(entries, key, value) =~= seq![(key, value)] + entries);
        lemma_field_cons((key, value), entries, other);
    } else {
        let rest = entries.drop_first();
        assert(entries =~= seq![entries[0]] + rest);
        lemma_field_cons(entries[0], rest, other);
        if key == entries[0].0 {
            lemma_field_cons((key, value), rest, other);
        } else if precedes(key, entries[0].0) {
            lemma_field_cons((key, value), entries, other);
        } else {
            lemma_put_field(rest, key, value, other);
            lemma_field_cons(entries[0], put(rest, key, value), other);
        }
    }
}

/// One entry before others that come after it, all in ascending order.
proof fn lemma_ascending_cons(first: (Seq<char>, JsonModel), rest: Entries)
    requires
        ascending(rest),
        rest.len() > 0 ==> precedes(first.0, rest[0].0),
    ensures
        ascending(seq![first] + rest),
{
    let all = seq![first] + rest;
    assert forall|i: int, j: int| 0 <= i < j < all.len() implies precedes(
        (#[trigger] all[i]).0,
        (#[trigger] all[j]).0,
    ) by {
        assert(all[j] == rest[j - 1]);
        if i > 0 {
            assert(all[i] == rest[i - 1]);
        } else if j > 1 {
            assert(precedes(rest[0].0, rest[j - 1].0));
            lemma_precedes_trans(first.0, rest[0].0, rest[j - 1].0);
        }
    }
}

/// Putting an entry in its place keeps the order.
proof fn lemma_put_ascending(entries: Entries, key: Seq<char>, value: JsonModel)
    requires
        ascending(entries),
    ensures
        ascending(put(entries, key, value)),
        put(entries, key, value).len() > 0,
        put(entries, key, value)[0].0 == key || (entries.len() > 0 && put(entries, key, value)[0]
            == entries[0]),
    decreases entries.len(),
{
    if entries.len() > 0 {
        let rest = entries.drop_first();
        lemma_precedes(key, entries[0].0);
        assert(ascending(rest)) by {
            assert forall|i: int, j: int| 0 <= i < j < rest.len() implies precedes(
                (#[trigger] rest[i]).0,
                (#[trigger] rest[j]).0,
            ) by {
                assert(precedes(entries[i + 1].0, entries[j + 1].0));
            }
        }
        if rest.len() > 0 {
            assert(precedes(entries[0].0, entries[1].0));
        }
        if key == entries[0].0 {
            lemma_ascending_cons((key, value), rest);
        } else if precedes(key, entries[0].0) {
            lemma_ascending_cons((key, value), entries);
        } else {
            lemma_put_ascending(rest, key, value);
            lemma_ascending_cons(entries[0], put(rest, key, value));
        }
    }
}

/// Putting an entry in its place adds nothing else.
proof fn lemma_put_members(entries: Entries, key: Seq<char>, value: JsonModel, i: int)
    requires
        0 <= i < put(entries, key, value).len(),
    ensures
        put(entries, key, value)[i] == (key, value) || entries.contains(
            put(entries, key, value)[i],
        ),
    decreases entries.len(),
{
    if entries.len() > 0 {
        let rest = entries.drop_first();
        assert(forall|j: int| 0 < j < entries.len() ==> entries[j] == rest[j - 1]);
        if key == entries[0].0 {
            if i > 0 {
                assert(put(entries, key, value)[i] == entries[i]);
            }
        } else if precedes(key, entries[0].0) {
            if i > 0 {
                assert(put(entries, key, value)[i] == entries[i - 1]);
            }
        } else if i == 0 {
            assert(put(entries, key, value)[0] == entries[0]);
        } else {
            lemma_put_members(rest, key, value, i - 1);
            let e = put(rest, key, value)[i - 1];
            if e != (key, value) {
                let k = choose|k: int| 0 <= k < rest.len() && rest[k] == e;
                assert(entries[k + 1] == e);
            }
        }
    }
}

/// Sorting keys changes no lookup.
pub proof fn law_sorting_keeps_fields(v: JsonModel, key: Seq<char>)
    ensures
        field(canonical(v), key) == match field(v, key) {
            Some(value) => Some(canonical(value)),
            None => None,
        },
{
    if let JsonModel::Object(entries) = v {
        lemma_canonical_entries(entries, key);
    }
}

proof fn lemma_canonical_entries(entries: Entries, key: Seq<char>)
    ensures
        ascending(canonical_entries(entries)),
        field(JsonModel::Object(canonical_entries(entries)), key) == match field(
            JsonModel::Object(entries),
            key,
        ) {
            Some(value) => Some(canonical(value)),
            None => None,
        },
    decreases entries.len(),
{
    if entries.len() > 0 {
        let rest = entries.drop_first();
        lemma_canonical_entries(rest, key);
        lemma_put_ascending(canonical_entries(rest), entries[0].0, canonical(entries[0].1));
        lemma_put_field(canonical_entries(rest), entries[0].0, canonical(entries[0].1), key);
        assert(entries =~= seq![entries[0]] + rest);
        lemma_field_cons(entries[0], rest, key);
    }
}

/// Sorting keys sorts them at every level.
pub proof fn law_sorting_sorts(v: JsonModel)
    ensures
        sorted_through(canonical(v)),
    decreases v,
{
    match v {
        JsonModel::Array(items) => {
            let out = canonical_items(items);
            assert forall|i: int| 0 <= i < out.len() implies sorted_through(#[trigger] out[i]) by {
                law_sorting_sorts(items[i]);
            }
            assert(canonical(v) == JsonModel::Array(out));
        },
        JsonModel::Object(entries) => {
            lemma_canonical_entries(entries, seq![]);
            lemma_canonical_values(entries);
        },
        _ => {},
    }
}

proof fn lemma_canonical_values(entries: Entries)
    ensures
        forall|i: int|
            0 <= i < canonical_entries(entries).len() ==> sorted_through(
                (#[trigger] canonical_entries(entries)[i]).1,
            ),
    decreases entries,
{
    if entries.len() > 0 {
        let rest = entries.drop_first();
        let done = canonical_entries(rest);
        let all = canonical_entries(entries);
        lemma_canonical_values(rest);
        law_sorting_sorts(entries[0].1);
        assert forall|i: int| 0 <= i < all.len() implies sorted_through((#[trigger] all[i]).1) by {
            lemma_put_members(done, entries[0].0, canonical(entries[0].1), i);
            if all[i] != (entries[0].0, canonical(entries[0].1)) {
                assert(done.contains(all[i]));
                let k = choose|k: int| 0 <= k < done.len() && done[k] == all[i];
                assert(sorted_through(done[k].1));
            }
        }
    }
}

/// What is sorted already stays as it is; so sorting twice is sorting once.
pub proof fn law_sorted_stays(v: JsonModel)
    requires
        sorted_through(v),
    ensures
        canonical(v) == v,
    decreases v,
{
    match v {
        JsonModel::Array(items) => {
            assert forall|i: int| 0 <= i < items.len() implies #[trigger] canonical_items(items)[i]
                == items[i] by {
                law_sorted_stays(items[i]);
            }
            assert(canonical_items(items) =~= items);
        },
        JsonModel::Object(entries) => {
            lemma_sorted_entries(entries);
        },
        _ => {},
    }
}

proof fn lemma_sorted_entries(entries: Entries)
    requires
        ascending(entries),
        forall|i: int| 0 <= i < entries.len() ==> sorted_through((#[trigger] entries[i]).1),
    ensures
        canonical_entries(entries) == entries,
    decreases entries,
{
    if entries.len() > 0 {
        let rest = entries.drop_first();
        assert(forall|j: int| 0 < j < entries.len() ==> entries[j] == rest[j - 1]);
        assert forall|i: int| 0 <= i < rest.len() implies sorted_through((#[trigger] rest[i]).1) by {
            assert(sorted_through(entries[i + 1].1));
        }
        lemma_sorted_entries(rest);
        law_sorted_stays(entries[0].1);
        if rest.len() > 0 {
            assert(precedes(entries[0].0, entries[1].0));
            lemma_precedes(entries[0].0, rest[0].0);
        }
        assert(canonical_entries(entries) =~= entries);
    } else {
        assert(entries =~= seq![]);
    }
}

/// In ascending order, entries are determined by what is under each key.
proof fn lemma_ascending_unique(x: Entries, y: Entries)
    requires
        ascending(x),
        ascending(y),
        forall|key: Seq<char>|
            #[trigger] field(JsonModel::Object(x), key) == field(JsonModel::Object(y), key),
    ensures
        x == y,
    decreases x.len(),
{
    if x.len() == 0 {
        if y.len() > 0 {
            lemma_slot_at(y, y[0].0, 0);
            assert(field(JsonModel::Object(x), y[0].0) is None);
        }
        assert(x =~= y);
    } else {
        lemma_slot_at(x, x[0].0, 0);
        assert(field(JsonModel::Object(x), x[0].0) == Some(x[0].1));
        lemma_slot(y, x[0].0, 0);
        assert(y.len() > 0);
        lemma_slot_at(y, y[0].0, 0);
        assert(field(JsonModel::Object(x), y[0].0) == Some(y[0].1));
        lemma_slot(x, y[0].0, 0);
        lemma_precedes(x[0].0, y[0].0);
        if x[0].0 != y[0].0 {
            let j = slot(y, x[0].0)->0;
            assert(precedes(y[0].0, y[j].0));
            let i = slot(x, y[0].0)->0;
            assert(precedes(x[0].0, x[i].0));
            assert(false);
        }
        let p = x.drop_first();
        let q = y.drop_first();
        assert(forall|j: int| 0 < j < x.len() ==> x[j] == p[j - 1]);
        assert(forall|j: int| 0 < j < y.len() ==> y[j] == q[j - 1]);
        assert forall|key: Seq<char>| #[trigger]
            field(JsonModel::Object(p), key) == field(JsonModel::Object(q), key) by {
            lemma_tail_field(x, key);
            lemma_tail_field(y, key);
            assert(field(JsonModel::Object(x), key) == field(JsonModel::Object(y), key));
        }
        lemma_ascending_unique(p, q);
        assert(x =~= seq![x[0]] + p);
        assert(y =~= seq![y[0]] + q);
    }
}

/// What is under a key in all entries but the first.
proof fn lemma_tail_field(x: Entries, key: Seq<char>)
    requires
        ascending(x),
        x.len() > 0,
    ensures
        field(JsonModel::Object(x.drop_first()), key) == if key == x[0].0 {
            None
        } else {
            field(JsonModel::Object(x), key)
        },
{
    let p = x.drop_first();
    assert(x =~= seq![x[0]] + p);
    lemma_field_cons(x[0], p, key);
    lemma_slot(p, key, 0);
    if let Some(k) = slot(p, key) {
        assert(precedes(x[0].0, x[k + 1].0));
        lemma_precedes(x[0].0, x[k + 1].0);
    }
}

/// Values that differ in the order of keys only are the same once sorted: whatever order the
/// server, or something on the way, chose.
pub proof fn law_key_order_is_irrelevant(a: JsonModel, b: JsonModel)
    requires
        same_content(a, b),
    ensures
        canonical(a) == canonical(b),
    decreases a,
{
    match (a, b) {
        (JsonModel::Array(x), JsonModel::Array(y)) => {
            assert forall|i: int| 0 <= i < x.len() implies #[trigger] canonical_items(x)[i]
                == canonical_items(y)[i] by {
                assert(same_content(x[i], y[i]));
                law_key_order_is_irrelevant(x[i], y[i]);
            }
            assert(canonical_items(x) =~= canonical_items(y));
        },
        (JsonModel::Object(x), JsonModel::Object(y)) => {
            let p = canonical_entries(x);
            let q = canonical_entries(y);
            assert forall|key: Seq<char>| #[trigger]
                field(JsonModel::Object(p), key) == field(JsonModel::Object(q), key) by {
                lemma_canonical_entries(x, key);
                lemma_canonical_entries(y, key);
                lemma_slot(x, key, 0);
                lemma_slot(y, key, 0);
                match slot(x, key) {
                    Some(i) => {
                        assert(slot(x, x[i].0) == Some(i));
                        assert(same_content(x[i].1, field(b, x[i].0)->0));
                        law_key_order_is_irrelevant(x[i].1, field(b, x[i].0)->0);
                    },
                    None => {
                        if let Some(j) = slot(y, key) {
                            assert(field(a, y[j].0) is Some);
                        }
                    },
                }
            }
            lemma_canonical_entries(x, seq![]);
            lemma_canonical_entries(y, seq![]);
            lemma_ascending_unique(p, q);
        },
        _ => {},
    }
}

/// Where an entry is put among others in ascending order.
proof fn lemma_put_at(entries: Entries, key: Seq<char>, value: JsonModel, p: int)
    requires
        0 <= p <= entries.len(),
        forall|j: int| 0 <= j < p ==> precedes((#[trigger] entries[j]).0, key),
        p < entries.len() ==> !precedes(entries[p].0, key),
    ensures
        put(entries, key, value) == if p < entries.len() && entries[p].0 == key {
            entries.update(p, (key, value))
        } else {
            entries.insert(p, (key, value))
        },
    decreases p,
{
    if p == 0 {
        if entries.len() > 0 {
            lemma_precedes(entries[0].0, key);
        }
        assert(put(entries, key, value) =~= if p < entries.len() && entries[p].0 == key {
            entries.update(p, (key, value))
        } else {
            entries.insert(p, (key, value))
        });
    } else {
        let rest = entries.drop_first();
        lemma_precedes(entries[0].0, key);
        assert forall|j: int| 0 <= j < p - 1 implies precedes((#[trigger] rest[j]).0, key) by {
            assert(precedes(entries[j + 1].0, key));
        }
        lemma_put_at(rest, key, value, p - 1);
        assert(put(entries, key, value) =~= if p < entries.len() && entries[p].0 == key {
            entries.update(p, (key, value))
        } else {
            entries.insert(p, (key, value))
        });
    }
}

/// Puts an entry in its place.
fn put_in(entries: &mut Vec<(String, Json)>, key: String, value: Json)
    ensures
        entries_model(final(entries)@) == put(entries_model(old(entries)@), key@, value@),
{
    let ghost es = entries_model(entries@);
    let ghost start = entries@;
    let mut p: usize = 0;
    while p < entries.len() && before(entries[p].0.as_str(), key.as_str())
        invariant
            entries@ == start,
            es == entries_model(start),
            p <= entries@.len(),
            forall|j: int| 0 <= j < p ==> precedes((#[trigger] es[j]).0, key@),
        decreases entries@.len() - p,
    {
        assert(es[p as int].0 == entries@[p as int].0@);
        p = p + 1;
    }
    proof {
        if p < entries@.len() {
            assert(es[p as int].0 == entries@[p as int].0@);
        }
        lemma_put_at(es, key@, value@, p as int);
    }
    if p < entries.len() && same(entries[p].0.as_str(), key.as_str()) {
        entries[p].1 = value;
        assert(entries_model(entries@) =~= es.update(p as int, (key@, value@)));
    } else {
        entries.insert(p, (key, value));
        assert(entries_model(entries@) =~= es.insert(p as int, (key@, value@)));
    }
}

impl Json {
    /// The value with the keys of every object sorted.
    pub fn sorted(&self) -> (r: Json)
        ensures
            r@ == canonical(self@),
        decreases self,
    {
        match self {
            Json::Array(items) => {
                let mut out: Vec<Json> = Vec::new();
                for i in 0..items.len()
                    invariant
                        out@.len() == i,
                        *self == Json::Array(*items),
                        forall|j: int|
                            0 <= j < i ==> model(#[trigger] out@[j]) == canonical(model(items@[j])),
                {
                    assert(decreases_to!(self => (*self)->Array_0));
                    assert(decreases_to!(items => items@));
                    assert(decreases_to!(items@ => items@[i as int]));
                    assert(decreases_to!(self => items@[i as int]));
                    out.push(items[i].sorted());
                }
                assert(items_model(out@) =~= canonical_items(items_model(items@)));
                Json::Array(out)
            },
            Json::Object(entries) => {
                let mut out: Vec<(String, Json)> = Vec::new();
                let mut i: usize = entries.len();
                let ghost es = entries_model(entries@);
                assert(es.skip(i as int) =~= seq![]);
                assert(entries_model(out@) =~= seq![]);
                while i > 0
                    invariant
                        i <= entries@.len(),
                        *self == Json::Object(*entries),
                        es == entries_model(entries@),
                        entries_model(out@) == canonical_entries(es.skip(i as int)),
                    decreases i,
                {
                    i = i - 1;
                    assert(decreases_to!(self => (*self)->Object_0));
                    assert(decreases_to!(entries => entries@));
                    assert(decreases_to!(entries@ => entries@[i as int]));
                    assert(decreases_to!(entries@[i as int] => entries@[i as int].1));
                    assert(decreases_to!(self => entries@[i as int].1));
                    assert(es.skip(i as int).drop_first() =~= es.skip(i + 1));
                    assert(es.skip(i as int)[0] == (
                        entries@[i as int].0@,
                        model(entries@[i as int].1),
                    ));
                    put_in(&mut out, entries[i].0.clone(), entries[i].1.sorted());
                }
                assert(es.skip(0) =~= es);
                Json::Object(out)
            },
            other => other.copy(),
        }
    }
}

/// The items of a sorted array are sorted.
proof fn lemma_sorted_items(items: Seq<JsonModel>)
    requires
        sorted_through(JsonModel::Array(items)),
    ensures
        forall|i: int| 0 <= i < items.len() ==> sorted_through(#[trigger] items[i]),
{
    let v = JsonModel::Array(items);
    assert forall|i: int| 0 <= i < items.len() implies sorted_through(#[trigger] items[i]) by {
        assert(sorted_through(v));
        assert(v->Array_0 == items);
        assert(sorted_through(v->Array_0[i]));
    }
}

// ---------------------------------------------------------------------------------------
// `serde_json`
// ---------------------------------------------------------------------------------------
/// What a `serde_json` value holds. The entries of an object come in ascending order of keys.
pub uninterp spec fn holds(value: serde_json::Value) -> JsonModel;

/// One level of a `serde_json` value.
enum Shape {
    Null,
    Bool(bool),
    Number(serde_json::Number),
    Text(String),
    Array(Vec<serde_json::Value>),
    Object(Vec<(String, serde_json::Value)>),
}

/// What the items of an array hold.
spec fn held_items(items: Seq<serde_json::Value>) -> Seq<JsonModel> {
    Seq::new(items.len(), |i: int| holds(items[i]))
}

/// What the entries of an object hold.
spec fn held_entries(entries: Seq<(String, serde_json::Value)>) -> Entries {
    Seq::new(entries.len(), |i: int| (entries[i].0@, holds(entries[i].1)))
}

/// What one level of a value holds.
spec fn held(shape: Shape) -> JsonModel {
    match shape {
        Shape::Null => JsonModel::Null,
        Shape::Bool(b) => JsonModel::Bool(b),
        Shape::Number(n) => JsonModel::Number(n),
        Shape::Text(s) => JsonModel::Text(s@),
        Shape::Array(items) => JsonModel::Array(held_items(items@)),
        Shape::Object(entries) => JsonModel::Object(held_entries(entries@)),
    }
}

/// The variants of `serde_json::Value`, and `Map::into_iter`.
///
/// Claimed of them: the parts are those that the value holds; a `Map` gives its entries out in
/// ascending order of keys, each key once (it is a `BTreeMap`).
#[verifier::external_body]
fn open_value(value: serde_json::Value) -> (r: Shape)
    ensures
        holds(value) == held(r),
        r matches Shape::Object(entries) ==> ascending(held_entries(entries@)),
{
    match value {
        serde_json::Value::Null => Shape::Null,
        serde_json::Value::Bool(b) => Shape::Bool(b),
        serde_json::Value::Number(n) => Shape::Number(n),
        serde_json::Value::String(s) => Shape::Text(s),
        serde_json::Value::Array(items) => Shape::Array(items),
        serde_json::Value::Object(map) => Shape::Object(map.into_iter().collect()),
    }
}

/// The variants of `serde_json::Value`, and `Map::from_iter`.
///
/// Claimed of them: the value holds the parts that it is made of. Entries are handed over in
/// ascending order of keys, which is the order in which a `Map` keeps them.
#[verifier::external_body]
fn close_value(shape: Shape) -> (r: serde_json::Value)
    requires
        shape matches Shape::Object(entries) ==> ascending(held_entries(entries@)),
    ensures
        holds(r) == held(shape),
{
    match shape {
        Shape::Null => serde_json::Value::Null,
        Shape::Bool(b) => serde_json::Value::Bool(b),
        Shape::Number(n) => serde_json::Value::Number(n),
        Shape::Text(s) => serde_json::Value::String(s),
        Shape::Array(items) => serde_json::Value::Array(items),
        Shape::Object(entries) => serde_json::Value::Object(entries.into_iter().collect()),
    }
}

impl Json {
    /// The value that a `serde_json` value holds.
    pub fn from_value(value: serde_json::Value) -> (r: Json)
        ensures
            r@ == holds(value),
            sorted_through(r@),
        decreases holds(value),
    {
        match open_value(value) {
            Shape::Null => Json::Null,
            Shape::Bool(b) => Json::Bool(b),
            Shape::Number(n) => Json::Number(n),
            Shape::Text(s) => Json::Text(s),
            Shape::Array(items) => {
                let ghost hs = held_items(items@);
                let mut out: Vec<Json> = Vec::new();
                for item in it: items
                    invariant
                        it.seq() == items@,
                        hs == held_items(items@),
                        holds(value) == JsonModel::Array(hs),
                        out@.len() == it.index(),
                        forall|j: int|
                            0 <= j < out@.len() ==> model(#[trigger] out@[j]) == hs[j]
                                && sorted_through(hs[j]),
                {
                    assert(item == items@[it.index()]);
                    assert(hs[it.index()] == holds(item));
                    assert(decreases_to!(holds(value) => holds(value)->Array_0));
                    assert(decreases_to!(hs => hs[it.index()]));
                    out.push(Json::from_value(item));
                }
                assert(items_model(out@) =~= hs);
                Json::Array(out)
            },
            Shape::Object(entries) => {
                let ghost hs = held_entries(entries@);
                let mut out: Vec<(String, Json)> = Vec::new();
                for entry in it: entries
                    invariant
                        it.seq() == entries@,
                        hs == held_entries(entries@),
                        holds(value) == JsonModel::Object(hs),
                        out@.len() == it.index(),
                        forall|j: int|
                            0 <= j < out@.len() ==> (#[trigger] out@[j]).0@ == hs[j].0 && model(
                                out@[j].1,
                            ) == hs[j].1 && sorted_through(hs[j].1),
                {
                    assert(entry == entries@[it.index()]);
                    assert(hs[it.index()] == (entry.0@, holds(entry.1)));
                    assert(decreases_to!(holds(value) => holds(value)->Object_0));
                    assert(decreases_to!(hs => hs[it.index()]));
                    assert(decreases_to!(hs[it.index()] => hs[it.index()].1));
                    let inner = Json::from_value(entry.1);
                    out.push((entry.0, inner));
                }
                assert(entries_model(out@) =~= hs);
                Json::Object(out)
            },
        }
    }

    /// A `serde_json` value that holds this value, with its keys sorted.
    pub fn to_value(&self) -> (r: serde_json::Value)
        ensures
            holds(r) == canonical(self@),
    {
        proof {
            law_sorting_sorts(self@);
        }
        self.sorted().into_value()
    }

    /// A `serde_json` value that holds this value, whose keys are sorted.
    fn into_value(self) -> (r: serde_json::Value)
        requires
            sorted_through(self@),
        ensures
            holds(r) == self@,
        decreases self@,
    {
        match self {
            Json::Null => close_value(Shape::Null),
            Json::Bool(b) => close_value(Shape::Bool(b)),
            Json::Number(n) => close_value(Shape::Number(n)),
            Json::Text(s) => close_value(Shape::Text(s)),
            Json::Array(items) => {
                let ghost ms = items_model(items@);
                let mut out: Vec<serde_json::Value> = Vec::new();
                proof {
                    lemma_sorted_items(ms);
                }
                for item in it: items
                    invariant
                        it.seq() == items@,
                        ms == items_model(items@),
                        self@ == JsonModel::Array(ms),
                        forall|j: int| 0 <= j < ms.len() ==> sorted_through(#[trigger] ms[j]),
                        out@.len() == it.index(),
                        forall|j: int| 0 <= j < out@.len() ==> holds(#[trigger] out@[j]) == ms[j],
                {
                    assert(item == items@[it.index()]);
                    assert(ms[it.index()] == model(item));
                    assert(decreases_to!(self@ => self@->Array_0));
                    assert(decreases_to!(ms => ms[it.index()]));
                    assert(sorted_through(ms[it.index()]));
                    out.push(item.into_value());
                }
                assert(held_items(out@) =~= ms);
                close_value(Shape::Array(out))
            },
            Json::Object(entries) => {
                let ghost ms = entries_model(entries@);
                let mut out: Vec<(String, serde_json::Value)> = Vec::new();
                for entry in it: entries
                    invariant
                        it.seq() == entries@,
                        ms == entries_model(entries@),
                        self@ == JsonModel::Object(ms),
                        forall|j: int| 0 <= j < ms.len() ==> sorted_through((#[trigger] ms[j]).1),
                        out@.len() == it.index(),
                        forall|j: int|
                            0 <= j < out@.len() ==> (#[trigger] out@[j]).0@ == ms[j].0 && holds(
                                out@[j].1,
                            ) == ms[j].1,
                {
                    assert(entry == entries@[it.index()]);
                    assert(ms[it.index()] == (entry.0@, model(entry.1)));
                    assert(decreases_to!(self@ => self@->Object_0));
                    assert(decreases_to!(ms => ms[it.index()]));
                    assert(decreases_to!(ms[it.index()] => ms[it.index()].1));
                    assert(sorted_through(ms[it.index()].1));
                    let inner = entry.1.into_value();
                    out.push((entry.0, inner));
                }
                assert(held_entries(out@) =~= ms);
                close_value(Shape::Object(out))
            },
        }
    }
}

/// The value that a text is read as; nothing where it is not JSON.
pub uninterp spec fn read_as(text: Seq<char>) -> Option<JsonModel>;

/// A value in writing, one entry to a line, each level indented by `indent`.
pub uninterp spec fn pretty(value: JsonModel, indent: Seq<char>) -> Seq<char>;

/// A value in writing, on one line.
pub uninterp spec fn compact(value: JsonModel) -> Seq<char>;

/// Whether two numbers that differ in what they hold are equal all the same (as `0.0` and
/// `-0.0` are).
pub uninterp spec fn equal_numbers(a: serde_json::Number, b: serde_json::Number) -> bool;

/// Whether a number is kept as a floating-point number, and not as an integer.
pub uninterp spec fn is_float(n: serde_json::Number) -> bool;

/// How many arrays and objects inside one another a text is read back with.
pub const DEPTH: u8 = 127;

/// Whether a number on its own, in writing, is read back as that number.
pub open spec fn comes_back(n: serde_json::Number) -> bool {
    read_as(compact(JsonModel::Number(n))) == Some(JsonModel::Number(n))
}

/// Whether a value is read back as it was written: each of its numbers is an integer, or comes
/// back when it is written on its own, and at most `depth` arrays and objects lie inside one
/// another.
pub open spec fn is_exact(v: JsonModel, depth: int) -> bool
    decreases v,
{
    match v {
        JsonModel::Number(n) => !is_float(n) || comes_back(n),
        JsonModel::Array(items) => {
            &&& depth > 0
            &&& forall|i: int| 0 <= i < items.len() ==> is_exact(#[trigger] items[i], depth - 1)
        },
        JsonModel::Object(entries) => {
            &&& depth > 0
            &&& forall|i: int|
                0 <= i < entries.len() ==> is_exact((#[trigger] entries[i]).1, depth - 1)
        },
        _ => true,
    }
}

/// Whether a value is read back as it was written whatever its numbers are: they are integers,
/// and at most `depth` arrays and objects lie inside one another.
pub open spec fn is_whole(v: JsonModel, depth: int) -> bool
    decreases v,
{
    match v {
        JsonModel::Number(n) => !is_float(n),
        JsonModel::Array(items) => {
            &&& depth > 0
            &&& forall|i: int| 0 <= i < items.len() ==> is_whole(#[trigger] items[i], depth - 1)
        },
        JsonModel::Object(entries) => {
            &&& depth > 0
            &&& forall|i: int|
                0 <= i < entries.len() ==> is_whole((#[trigger] entries[i]).1, depth - 1)
        },
        _ => true,
    }
}

/// The text with every line break turned into a carriage return and a line break.
pub open spec fn crlf(text: Seq<char>) -> Seq<char>
    decreases text.len(),
{
    if text.len() == 0 {
        seq![]
    } else if text.last() == '\n' {
        crlf(text.drop_last()) + seq!['\r', '\n']
    } else {
        crlf(text.drop_last()).push(text.last())
    }
}

/// Whether a text consists of blanks.
pub open spec fn blank(text: Seq<char>) -> bool {
    forall|i: int| 0 <= i < text.len() ==> #[trigger] text[i] == ' '
}

/// `serde_json::from_str`, with a `Value` as its target.
///
/// Claimed of it: the outcome depends on the text alone.
#[verifier::external_body]
fn parse_value(text: &str) -> (r: Option<serde_json::Value>)
    ensures
        match r {
            Some(value) => read_as(text@) == Some(holds(value)),
            None => read_as(text@) is None,
        },
{
    serde_json::from_str::<serde_json::Value>(text).ok()
}

/// `serde_json::Serializer` with a `PrettyFormatter`.
///
/// Claimed of it: the text depends on what the value holds and on the indentation alone. A line
/// break stands between two tokens only (inside strings it is escaped), so that, the
/// indentation being blank, a carriage return before each one makes no difference to what the
/// text, followed by one more line break, is read as. A number is written as `Display` writes it
/// and read without regard to what stands around it; integers come back as they are. So that text
/// is read back as the value, where each floating-point number in it comes back when it is written
/// on its own, and the nesting stays below the limit of 128 levels at which `from_str` gives up.
/// Nothing is said of the others, which may come back rounded or not at all.
#[verifier::external_body]
fn write_pretty(value: &serde_json::Value, indent: &str) -> (r: String)
    ensures
        r@ == pretty(holds(*value), indent@),
        blank(indent@) ==> read_as(crlf(r@.push('\n'))) == read_as(r@.push('\n')),
        blank(indent@) && is_exact(holds(*value), DEPTH as int) ==> read_as(r@.push('\n')) == Some(
            holds(*value),
        ),
{
    let mut buf = Vec::new();
    let mut ser = serde_json::Serializer::with_formatter(
        &mut buf,
        serde_json::ser::PrettyFormatter::with_indent(indent.as_bytes()),
    );
    value.serialize(&mut ser).expect("in-memory serialization");
    String::from_utf8(buf).expect("serde_json emits utf-8")
}

/// `<serde_json::Value as Display>::fmt`, through `to_string`.
///
/// Claimed of it: the text depends on what the value holds alone.
#[verifier::external_body]
fn write_compact(value: &serde_json::Value) -> (r: String)
    ensures
        r@ == compact(holds(*value)),
{
    value.to_string()
}

/// `<serde_json::Number as PartialEq>::eq`.
///
/// Claimed of it: the outcome depends on the two numbers alone, and a number equals itself (a
/// `Number` is never NaN).
#[verifier::external_body]
fn same_number(a: &serde_json::Number, b: &serde_json::Number) -> (r: bool)
    ensures
        r == (*a == *b || equal_numbers(*a, *b)),
{
    a == b
}

/// `serde_json::Number::is_f64`.
///
/// Claimed of it: the outcome depends on the number alone.
#[verifier::external_body]
fn has_float(n: &serde_json::Number) -> (r: bool)
    ensures
        r == is_float(*n),
{
    n.is_f64()
}

/// Whether two values whose keys are sorted are equal.
pub open spec fn agree(a: JsonModel, b: JsonModel) -> bool
    decreases a,
{
    match (a, b) {
        (JsonModel::Number(m), JsonModel::Number(n)) => m == n || equal_numbers(m, n),
        (JsonModel::Array(x), JsonModel::Array(y)) => {
            &&& x.len() == y.len()
            &&& forall|i: int| 0 <= i < x.len() ==> agree(#[trigger] x[i], y[i])
        },
        (JsonModel::Object(x), JsonModel::Object(y)) => {
            &&& x.len() == y.len()
            &&& forall|i: int|
                0 <= i < x.len() ==> (#[trigger] x[i]).0 == y[i].0 && agree(x[i].1, y[i].1)
        },
        (JsonModel::Array(_), _) => false,
        (JsonModel::Object(_), _) => false,
        _ => a == b,
    }
}

/// A value equals itself.
pub proof fn law_value_agrees_with_itself(v: JsonModel)
    ensures
        agree(v, v),
    decreases v,
{
    match v {
        JsonModel::Array(items) => {
            assert forall|i: int| 0 <= i < items.len() implies agree(#[trigger] items[i], items[i])
                by {
                law_value_agrees_with_itself(items[i]);
            }
        },
        JsonModel::Object(entries) => {
            assert forall|i: int| 0 <= i < entries.len() implies agree(
                (#[trigger] entries[i]).1,
                entries[i].1,
            ) by {
                law_value_agrees_with_itself(entries[i].1);
            }
        },
        _ => {},
    }
}

/// A value without floating-point numbers needs no number to be tried on its own.
pub proof fn law_integers_come_back(v: JsonModel, depth: int)
    requires
        is_whole(v, depth),
    ensures
        is_exact(v, depth),
    decreases v,
{
    match v {
        JsonModel::Array(items) => {
            assert forall|i: int| 0 <= i < items.len() implies is_exact(
                #[trigger] items[i],
                depth - 1,
            ) by {
                assert(v->Array_0 == items);
                assert(is_whole(items[i], depth - 1));
                law_integers_come_back(items[i], depth - 1);
            }
        },
        JsonModel::Object(entries) => {
            assert forall|i: int| 0 <= i < entries.len() implies is_exact(
                (#[trigger] entries[i]).1,
                depth - 1,
            ) by {
                assert(v->Object_0 == entries);
                assert(is_whole(entries[i].1, depth - 1));
                law_integers_come_back(entries[i].1, depth - 1);
            }
        },
        _ => {},
    }
}

/// Sorting keys does not keep a value from being read back.
pub proof fn law_sorting_stays_exact(v: JsonModel, depth: int)
    requires
        is_exact(v, depth),
    ensures
        is_exact(canonical(v), depth),
    decreases v,
{
    match v {
        JsonModel::Array(items) => {
            let out = canonical_items(items);
            assert forall|i: int| 0 <= i < out.len() implies is_exact(
                #[trigger] out[i],
                depth - 1,
            ) by {
                assert(v->Array_0 == items);
                assert(is_exact(items[i], depth - 1));
                law_sorting_stays_exact(items[i], depth - 1);
            }
            assert(canonical(v) == JsonModel::Array(out));
        },
        JsonModel::Object(entries) => {
            assert forall|i: int| 0 <= i < entries.len() implies is_exact(
                (#[trigger] entries[i]).1,
                depth - 1,
            ) by {
                assert(v->Object_0 == entries);
            }
            lemma_canonical_exact(entries, depth - 1);
            assert(canonical(v) == JsonModel::Object(canonical_entries(entries)));
        },
        _ => {},
    }
}

proof fn lemma_canonical_exact(entries: Entries, depth: int)
    requires
        forall|i: int| 0 <= i < entries.len() ==> is_exact((#[trigger] entries[i]).1, depth),
    ensures
        forall|i: int|
            0 <= i < canonical_entries(entries).len() ==> is_exact(
                (#[trigger] canonical_entries(entries)[i]).1,
                depth,
            ),
    decreases entries,
{
    if entries.len() > 0 {
        let rest = entries.drop_first();
        let done = canonical_entries(rest);
        let all = canonical_entries(entries);
        assert forall|i: int| 0 <= i < rest.len() implies is_exact(
            (#[trigger] rest[i]).1,
            depth,
        ) by {
            assert(rest[i] == entries[i + 1]);
        }
        lemma_canonical_exact(rest, depth);
        assert(is_exact(entries[0].1, depth));
        law_sorting_stays_exact(entries[0].1, depth);
        assert forall|i: int| 0 <= i < all.len() implies is_exact((#[trigger] all[i]).1, depth) by {
            lemma_put_members(done, entries[0].0, canonical(entries[0].1), i);
            if all[i] != (entries[0].0, canonical(entries[0].1)) {
                assert(done.contains(all[i]));
                let k = choose|k: int| 0 <= k < done.len() && done[k] == all[i];
                assert(is_exact(done[k].1, depth));
            }
        }
    }
}

impl Json {
    /// Whether the value, in writing, is read back as it was written whatever its numbers are.
    pub fn reads_back(&self) -> (r: bool)
        ensures
            r == is_whole(self@, DEPTH as int),
            r ==> is_exact(self@, DEPTH as int),
    {
        proof {
            if is_whole(self@, DEPTH as int) {
                law_integers_come_back(self@, DEPTH as int);
            }
        }
        self.whole_within(DEPTH)
    }

    /// The same, with that many levels left.
    fn whole_within(&self, depth: u8) -> (r: bool)
        ensures
            r == is_whole(self@, depth as int),
        decreases self,
    {
        match self {
            Json::Number(n) => !has_float(n),
            Json::Array(items) => {
                let ghost ms = items_model(items@);
                if depth == 0 {
                    return false;
                }
                for i in 0..items.len()
                    invariant
                        depth > 0,
                        *self == Json::Array(*items),
                        ms == items_model(items@),
                        forall|j: int| 0 <= j < i ==> is_whole(#[trigger] ms[j], depth - 1),
                {
                    assert(decreases_to!(self => (*self)->Array_0));
                    assert(decreases_to!(items => items@));
                    assert(decreases_to!(items@ => items@[i as int]));
                    assert(decreases_to!(self => items@[i as int]));
                    assert(ms[i as int] == model(items@[i as int]));
                    if !items[i].whole_within(depth - 1) {
                        assert(self@ == JsonModel::Array(ms));
                        assert(self@->Array_0 == ms);
                        assert(!is_whole(self@->Array_0[i as int], depth - 1));
                        return false;
                    }
                }
                true
            },
            Json::Object(entries) => {
                let ghost ms = entries_model(entries@);
                if depth == 0 {
                    return false;
                }
                for i in 0..entries.len()
                    invariant
                        depth > 0,
                        *self == Json::Object(*entries),
                        ms == entries_model(entries@),
                        forall|j: int| 0 <= j < i ==> is_whole((#[trigger] ms[j]).1, depth - 1),
                {
                    assert(decreases_to!(self => (*self)->Object_0));
                    assert(decreases_to!(entries => entries@));
                    assert(decreases_to!(entries@ => entries@[i as int]));
                    assert(decreases_to!(entries@[i as int] => entries@[i as int].1));
                    assert(decreases_to!(self => entries@[i as int].1));
                    assert(ms[i as int] == (entries@[i as int].0@, model(entries@[i as int].1)));
                    if !entries[i].1.whole_within(depth - 1) {
                        assert(self@ == JsonModel::Object(ms));
                        assert(self@->Object_0 == ms);
                        assert(!is_whole(self@->Object_0[i as int].1, depth - 1));
                        return false;
                    }
                }
                true
            },
            _ => true,
        }
    }

    /// The value that a text is read as.
    pub fn read(text: &str) -> (r: Option<Json>)
        ensures
            match r {
                Some(value) => read_as(text@) == Some(value@) && sorted_through(value@),
                None => read_as(text@) is None,
            },
    {
        match parse_value(text) {
            Some(value) => Some(Json::from_value(value)),
            None => None,
        }
    }

    /// The value in writing, keys sorted, one entry to a line.
    pub fn write_lines(&self, indent: &str) -> (r: String)
        ensures
            r@ == pretty(canonical(self@), indent@),
            blank(indent@) ==> read_as(crlf(r@.push('\n'))) == read_as(r@.push('\n')),
            blank(indent@) && is_exact(self@, DEPTH as int) ==> read_as(r@.push('\n')) == Some(
                canonical(self@),
            ),
    {
        proof {
            if is_exact(self@, DEPTH as int) {
                law_sorting_stays_exact(self@, DEPTH as int);
            }
        }
        write_pretty(&self.to_value(), indent)
    }

    /// The value in writing, keys sorted, on one line.
    pub fn write(&self) -> (r: String)
        ensures
            r@ == compact(canonical(self@)),
    {
        write_compact(&self.to_value())
    }

    /// Whether two values whose keys are sorted are equal.
    pub fn agrees(&self, other: &Json) -> (r: bool)
        ensures
            r == agree(self@, other@),
        decreases self,
    {
        match (self, other) {
            (Json::Null, Json::Null) => true,
            (Json::Bool(a), Json::Bool(b)) => *a == *b,
            (Json::Number(a), Json::Number(b)) => same_number(a, b),
            (Json::Text(a), Json::Text(b)) => same(a.as_str(), b.as_str()),
            (Json::Array(a), Json::Array(b)) => {
                let ghost x = items_model(a@);
                let ghost y = items_model(b@);
                if a.len() != b.len() {
                    return false;
                }
                for i in 0..a.len()
                    invariant
                        *self == Json::Array(*a),
                        *other == Json::Array(*b),
                        a@.len() == b@.len(),
                        x == items_model(a@),
                        y == items_model(b@),
                        forall|j: int| 0 <= j < i ==> agree(#[trigger] x[j], y[j]),
                {
                    assert(decreases_to!(self => (*self)->Array_0));
                    assert(decreases_to!(a => a@));
                    assert(decreases_to!(a@ => a@[i as int]));
                    assert(decreases_to!(self => a@[i as int]));
                    assert(x[i as int] == model(a@[i as int]) && y[i as int] == model(b@[i as int]));
                    if !a[i].agrees(&b[i]) {
                        assert(self@ == JsonModel::Array(x) && other@ == JsonModel::Array(y));
                        return false;
                    }
                }
                true
            },
            (Json::Object(a), Json::Object(b)) => {
                let ghost x = entries_model(a@);
                let ghost y = entries_model(b@);
                if a.len() != b.len() {
                    return false;
                }
                for i in 0..a.len()
                    invariant
                        *self == Json::Object(*a),
                        *other == Json::Object(*b),
                        a@.len() == b@.len(),
                        x == entries_model(a@),
                        y == entries_model(b@),
                        forall|j: int|
                            0 <= j < i ==> (#[trigger] x[j]).0 == y[j].0 && agree(x[j].1, y[j].1),
                {
                    assert(decreases_to!(self => (*self)->Object_0));
                    assert(decreases_to!(a => a@));
                    assert(decreases_to!(a@ => a@[i as int]));
                    assert(decreases_to!(a@[i as int] => a@[i as int].1));
                    assert(decreases_to!(self => a@[i as int].1));
                    assert(x[i as int] == (a@[i as int].0@, model(a@[i as int].1)));
                    assert(y[i as int] == (b@[i as int].0@, model(b@[i as int].1)));
                    if !same(a[i].0.as_str(), b[i].0.as_str()) || !a[i].1.agrees(&b[i].1) {
                        assert(self@ == JsonModel::Object(x) && other@ == JsonModel::Object(y));
                        return false;
                    }
                }
                true
            },
            _ => false,
        }
    }
}

// ---------------------------------------------------------------------------------------
// Laws on equal values and on paths
// ---------------------------------------------------------------------------------------
/// When two values are equal: nothing, truth values and texts when they are the same; numbers
/// when they are the same or count as equal; lists when they are as long and equal item by item;
/// objects when they have the same keys in the same order, with equal values. Values of different
/// sorts never are.
pub proof fn law_equal_values(a: JsonModel, b: JsonModel)
    ensures
        a is Null ==> (agree(a, b) <==> b is Null),
        a matches JsonModel::Bool(x) ==> (agree(a, b) <==> b == JsonModel::Bool(a->Bool_0)),
        a matches JsonModel::Text(x) ==> (agree(a, b) <==> b == JsonModel::Text(a->Text_0)),
        a is Number ==> (agree(a, b) <==> b is Number && (a->Number_0 == b->Number_0
            || equal_numbers(a->Number_0, b->Number_0))),
        a is Array ==> (agree(a, b) <==> {
            &&& b is Array
            &&& a->Array_0.len() == b->Array_0.len()
            &&& forall|i: int|
                0 <= i < a->Array_0.len() ==> agree(#[trigger] a->Array_0[i], b->Array_0[i])
        }),
        a is Object ==> (agree(a, b) <==> {
            &&& b is Object
            &&& a->Object_0.len() == b->Object_0.len()
            &&& forall|i: int|
                0 <= i < a->Object_0.len() ==> (#[trigger] a->Object_0[i]).0 == b->Object_0[i].0
                    && agree(a->Object_0[i].1, b->Object_0[i].1)
        }),
{
}

/// Whether there is no number in a value.
pub open spec fn is_numberless(v: JsonModel) -> bool
    decreases v,
{
    match v {
        JsonModel::Number(_) => false,
        JsonModel::Array(items) => forall|i: int|
            0 <= i < items.len() ==> is_numberless(#[trigger] items[i]),
        JsonModel::Object(entries) => forall|i: int|
            0 <= i < entries.len() ==> is_numberless((#[trigger] entries[i]).1),
        _ => true,
    }
}

/// Without numbers in them, values are equal if and only if they are the same.
pub proof fn law_equal_values_are_the_same(a: JsonModel, b: JsonModel)
    requires
        is_numberless(a),
    ensures
        agree(a, b) <==> a == b,
    decreases a,
{
    if a == b {
        law_value_agrees_with_itself(a);
    }
    if agree(a, b) {
        match (a, b) {
            (JsonModel::Array(x), JsonModel::Array(y)) => {
                assert forall|i: int| 0 <= i < x.len() implies x[i] == y[i] by {
                    assert(a->Array_0 == x && b->Array_0 == y);
                    assert(is_numberless(x[i]));
                    assert(agree(x[i], y[i]));
                    law_equal_values_are_the_same(x[i], y[i]);
                }
                assert(x =~= y);
            },
            (JsonModel::Object(x), JsonModel::Object(y)) => {
                assert forall|i: int| 0 <= i < x.len() implies x[i] == y[i] by {
                    assert(a->Object_0 == x && b->Object_0 == y);
                    assert(is_numberless(x[i].1));
                    assert(x[i].0 == y[i].0 && agree(x[i].1, y[i].1));
                    law_equal_values_are_the_same(x[i].1, y[i].1);
                }
                assert(x =~= y);
            },
            _ => {},
        }
    }
}

/// Equal values hold the same wherever a path leads: what is found in one is found in the other,
/// and is equal to it; a text, a truth value or nothing is the same.
pub proof fn law_equal_values_hold_the_same(
    a: JsonModel,
    b: JsonModel,
    path: Seq<Seq<char>>,
    depth: int,
)
    requires
        agree(a, b),
        0 <= depth <= path.len(),
    ensures
        match follow(a, path, depth) {
            Reach::Found(x) => {
                &&& follow(b, path, depth) matches Reach::Found(y)
                &&& agree(x, y)
                &&& x is Text || x is Bool || x is Null ==> x == y
            },
            Reach::Missing => follow(b, path, depth) is Missing,
            Reach::Listed(at) => follow(b, path, depth) == Reach::Listed(at),
        },
    decreases path.len() - depth,
{
    if depth < path.len() && a is Object {
        let x = a->Object_0;
        let y = b->Object_0;
        let key = path[depth];
        lemma_slot(x, key, 0);
        lemma_slot(y, key, 0);
        if let Some(i) = slot(x, key) {
            assert(x[i].0 == y[i].0);
            if let Some(j) = slot(y, key) {
                if j < i {
                    assert(x[j].0 == y[j].0);
                }
            }
            assert(slot(y, key) == Some(i));
            assert(agree(x[i].1, y[i].1));
            law_equal_values_hold_the_same(x[i].1, y[i].1, path, depth + 1);
        } else if let Some(j) = slot(y, key) {
            assert(x[j].0 == y[j].0);
        }
    }
}

/// What is under a key of an object is the value of the first entry that has the key.
pub proof fn law_first_entry_counts(entries: Entries, key: Seq<char>, i: int)
    requires
        0 <= i < entries.len(),
        entries[i].0 == key,
        forall|j: int| 0 <= j < i ==> (#[trigger] entries[j]).0 != key,
    ensures
        field(JsonModel::Object(entries), key) == Some(entries[i].1),
{
    lemma_slot_at(entries, key, i);
}

/// A key that no entry has leads nowhere, and neither does any key of what is no object.
pub proof fn law_absent_key(v: JsonModel, key: Seq<char>)
    requires
        v matches JsonModel::Object(entries) ==> forall|j: int|
            0 <= j < entries.len() ==> (#[trigger] entries[j]).0 != key,
    ensures
        field(v, key) is None,
{
    if let JsonModel::Object(entries) = v {
        lemma_slot(entries, key, 0);
    }
}

/// A path leads from value to value, each one under the next key of the one before.
pub proof fn law_path_leads_on(values: Seq<JsonModel>, path: Seq<Seq<char>>, depth: int)
    requires
        values.len() == path.len() + 1,
        0 <= depth <= path.len(),
        forall|i: int|
            0 <= i < path.len() ==> field(#[trigger] values[i], path[i]) == Some(values[i + 1]),
    ensures
        follow(values[depth], path, depth) == Reach::Found(values.last()),
    decreases path.len() - depth,
{
    if depth < path.len() {
        law_path_leads_on(values, path, depth + 1);
        assert(field(values[depth], path[depth]) == Some(values[depth + 1]));
    }
}

/// A path breaks off at the first key that is not there, and stops at the first list.
pub proof fn law_path_breaks_off(values: Seq<JsonModel>, path: Seq<Seq<char>>, depth: int, at: int)
    requires
        0 <= depth <= at < path.len(),
        values.len() > at,
        forall|i: int|
            0 <= i < at ==> field(#[trigger] values[i], path[i]) == Some(values[i + 1]),
        field(values[at], path[at]) is None,
    ensures
        follow(values[depth], path, depth) == if values[at] is Array {
            Reach::Listed(at)
        } else {
            Reach::Missing
        },
    decreases at - depth,
{
    if depth < at {
        law_path_breaks_off(values, path, depth + 1, at);
        assert(field(values[depth], path[depth]) == Some(values[depth + 1]));
    }
}

/// Putting a value where a path leads leaves alone whatever another path leads to, once the two
/// have parted.
pub proof fn law_graft_leaves_the_rest(
    v: JsonModel,
    path: Seq<Seq<char>>,
    other: Seq<Seq<char>>,
    depth: int,
    at: int,
    new: JsonModel,
)
    requires
        0 <= depth <= at < path.len(),
        at < other.len(),
        path[at] != other[at],
        forall|i: int| 0 <= i < at ==> #[trigger] path[i] == other[i],
    ensures
        follow(graft(v, path, depth, new), other, depth) == follow(v, other, depth),
    decreases at - depth,
{
    if let Some(next) = field(v, path[depth]) {
        let inner = graft(next, path, depth + 1, new);
        lemma_with_field(v, path[depth], inner, other[depth]);
        if depth < at {
            law_graft_leaves_the_rest(next, path, other, depth + 1, at, new);
        }
    }
}

/// Sorting keys keeps the items of a list in their order, and leaves everything that is neither a
/// list nor an object as it is.
pub proof fn law_sorting_keeps_items(v: JsonModel, i: int)
    ensures
        v matches JsonModel::Array(items) ==> {
            &&& canonical(v) is Array
            &&& (canonical(v)->Array_0).len() == (v->Array_0).len()
            &&& 0 <= i < (v->Array_0).len() ==> (canonical(v)->Array_0)[i] == canonical(
                (v->Array_0)[i],
            )
        },
        v is Object ==> canonical(v) is Object,
        !(v is Array) && !(v is Object) ==> canonical(v) == v,
{
}

} // verus!
