//! JSON documents as values the library holds: what the DTCG interchange is read from
//! and written to.

use vstd::prelude::*;

use crate::entries::{insert_sorted, lemma_insert_sorted_at, lemma_position_at, lookup};
use crate::number::{binary64_from_i64, binary64_from_u64, i64_as_binary64, u64_as_binary64, Binary64};
use crate::text::{chars_lt, chars_of, name_lt};
use serde_json::Error as JsonError;
use serde_json::Value as SerdeValue;

verus! {

broadcast use vstd::std_specs::vec::group_vec_axioms;

/// The JSON error type of serde_json, carried as it is.
#[verifier::external_type_specification]
#[verifier::external_body]
pub struct ExJsonError(JsonError);

/// A JSON value as serde_json parses it.
#[verifier::external_type_specification]
#[verifier::external_body]
pub struct ExJsonValue(SerdeValue);

/// A JSON number as serde_json holds it: a non-negative integer, a negative integer, or
/// any other number as a binary64.
#[derive(Debug, Clone, Copy, PartialEq)]
pub enum JsonNumber {
    /// An integer in `0..=u64::MAX`.
    PosInt(u64),
    /// A negative integer in `i64::MIN..0`.
    NegInt(i64),
    /// Any other number.
    Float(Binary64),
}

impl JsonNumber {
    /// The number as a binary64, as serde_json's `as_f64` reads it.
    pub open spec fn spec_as_binary64(self) -> Binary64 {
        match self {
            JsonNumber::PosInt(u) => Binary64(u64_as_binary64(u)),
            JsonNumber::NegInt(i) => Binary64(i64_as_binary64(i)),
            JsonNumber::Float(b) => b,
        }
    }

    /// The number as a binary64 (see [`JsonNumber::spec_as_binary64`]).
    pub fn as_binary64(self) -> (r: Binary64)
        ensures
            r == self.spec_as_binary64(),
    {
        match self {
            JsonNumber::PosInt(u) => binary64_from_u64(u),
            JsonNumber::NegInt(i) => binary64_from_i64(i),
            JsonNumber::Float(b) => b,
        }
    }
}

/// A JSON object: its members in order. Objects read from text have their names in
/// [`name_lt`] order, once each; [`Object::insert`] keeps that order.
#[derive(Debug, PartialEq)]
pub struct Object {
    /// The members, name and value.
    pub entries: Vec<(String, Json)>,
}

/// A JSON value.
#[derive(Debug, PartialEq)]
pub enum Json {
    /// `null`.
    Null,
    /// `true` or `false`.
    Bool(bool),
    /// A number.
    Number(JsonNumber),
    /// A string.
    String(String),
    /// An array.
    Array(Vec<Json>),
    /// An object.
    Object(Object),
}

/// A JSON value in specifications: text as characters, arrays and objects as sequences.
pub enum JsonV {
    Null,
    Bool(bool),
    Number(JsonNumber),
    Str(Seq<char>),
    Array(Seq<JsonV>),
    Object(Seq<(Seq<char>, JsonV)>),
}

/// The value a [`Json`] stands for.
pub open spec fn json_view(j: Json) -> JsonV
    decreases j,
{
    match j {
        Json::Null => JsonV::Null,
        Json::Bool(b) => JsonV::Bool(b),
        Json::Number(n) => JsonV::Number(n),
        Json::String(s) => JsonV::Str(s@),
        Json::Array(a) => JsonV::Array(json_seq_view(a@)),
        Json::Object(o) => JsonV::Object(json_entries_view(o.entries@)),
    }
}

/// The values a sequence of [`Json`] stands for.
pub open spec fn json_seq_view(s: Seq<Json>) -> Seq<JsonV>
    decreases s,
{
    if s.len() == 0 {
        Seq::empty()
    } else {
        seq![json_view(s[0])] + json_seq_view(s.drop_first())
    }
}

/// The members a sequence of named [`Json`] stands for.
pub open spec fn json_entries_view(s: Seq<(String, Json)>) -> Seq<(Seq<char>, JsonV)>
    decreases s,
{
    if s.len() == 0 {
        Seq::empty()
    } else {
        seq![(s[0].0@, json_view(s[0].1))] + json_entries_view(s.drop_first())
    }
}

impl View for Json {
    type V = JsonV;

    open spec fn view(&self) -> JsonV {
        json_view(*self)
    }
}

impl View for Object {
    type V = Seq<(Seq<char>, JsonV)>;

    open spec fn view(&self) -> Seq<(Seq<char>, JsonV)> {
        json_entries_view(self.entries@)
    }
}

/// [`json_seq_view`] element by element.
pub proof fn lemma_json_seq_view(s: Seq<Json>)
    ensures
        json_seq_view(s).len() == s.len(),
        forall|i: int| 0 <= i < s.len() ==> #[trigger] json_seq_view(s)[i] == json_view(s[i]),
    decreases s.len(),
{
    if s.len() > 0 {
        lemma_json_seq_view(s.drop_first());
        assert forall|i: int| 0 <= i < s.len() implies #[trigger] json_seq_view(s)[i] == json_view(s[i]) by {
            if i > 0 {
                assert(s.drop_first()[i - 1] == s[i]);
            }
        }
    }
}

/// [`json_entries_view`] entry by entry.
pub proof fn lemma_json_entries_view(s: Seq<(String, Json)>)
    ensures
        json_entries_view(s).len() == s.len(),
        forall|i: int| 0 <= i < s.len() ==> #[trigger] json_entries_view(s)[i] == (s[i].0@, json_view(s[i].1)),
    decreases s.len(),
{
    if s.len() > 0 {
        lemma_json_entries_view(s.drop_first());
        assert forall|i: int| 0 <= i < s.len() implies #[trigger] json_entries_view(s)[i] == (s[i].0@, json_view(s[i].1)) by {
            if i > 0 {
                assert(s.drop_first()[i - 1] == s[i]);
            }
        }
    }
}

/// Two sequences whose values stand for the same, element by element, stand for the same.
pub proof fn lemma_json_seq_view_ext(a: Seq<Json>, b: Seq<Json>)
    requires
        a.len() == b.len(),
        forall|i: int| 0 <= i < a.len() ==> json_view(#[trigger] a[i]) == json_view(b[i]),
    ensures
        json_seq_view(a) == json_seq_view(b),
{
    lemma_json_seq_view(a);
    lemma_json_seq_view(b);
    assert(json_seq_view(a) =~= json_seq_view(b));
}

/// Two member lists that stand for the same, entry by entry, stand for the same.
pub proof fn lemma_json_entries_view_ext(a: Seq<(String, Json)>, b: Seq<(String, Json)>)
    requires
        a.len() == b.len(),
        forall|i: int| 0 <= i < a.len() ==> (#[trigger] a[i]).0@ == b[i].0@ && json_view(a[i].1) == json_view(b[i].1),
    ensures
        json_entries_view(a) == json_entries_view(b),
{
    lemma_json_entries_view(a);
    lemma_json_entries_view(b);
    assert(json_entries_view(a) =~= json_entries_view(b));
}

/// A copy of `j`, all the way down.
pub fn clone_json(j: &Json) -> (r: Json)
    ensures
        r@ == j@,
    decreases j,
{
    match j {
        Json::Null => Json::Null,
        Json::Bool(b) => Json::Bool(*b),
        Json::Number(n) => Json::Number(*n),
        Json::String(s) => Json::String(s.clone()),
        Json::Array(a) => {
            let mut out: Vec<Json> = Vec::new();
            let mut i: usize = 0;
            while i < a.len()
                invariant
                    *j == Json::Array(*a),
                    i <= a.len(),
                    out.len() == i,
                    forall|k: int| 0 <= k < i ==> json_view(#[trigger] out@[k]) == json_view(a@[k]),
                decreases a.len() - i,
            {
                proof {
                    assert(decreases_to!(*j => (*j)->Array_0));
                    assert((*j)->Array_0 == *a);
                    assert(decreases_to!(*a => a[i as int]));
                }
                let c = clone_json(&a[i]);
                out.push(c);
                i = i + 1;
            }
            proof {
                lemma_json_seq_view_ext(out@, a@);
            }
            Json::Array(out)
        },
        Json::Object(o) => {
            let mut out: Vec<(String, Json)> = Vec::new();
            let mut i: usize = 0;
            while i < o.entries.len()
                invariant
                    *j == Json::Object(*o),
                    i <= o.entries.len(),
                    out.len() == i,
                    forall|k: int| 0 <= k < i ==> (#[trigger] out@[k]).0@ == o.entries@[k].0@
                        && json_view(out@[k].1) == json_view(o.entries@[k].1),
                decreases o.entries.len() - i,
            {
                proof {
                    assert(decreases_to!(*j => (*j)->Object_0));
                    assert((*j)->Object_0 == *o);
                    assert(decreases_to!(*o => o.entries));
                    assert(decreases_to!(o.entries => o.entries[i as int]));
                    assert(decreases_to!(o.entries[i as int] => o.entries[i as int].1));
                }
                let c = clone_json(&o.entries[i].1);
                out.push((o.entries[i].0.clone(), c));
                i = i + 1;
            }
            proof {
                lemma_json_entries_view_ext(out@, o.entries@);
            }
            Json::Object(Object { entries: out })
        },
    }
}

/// A copy of the members of `o`, all the way down.
pub fn clone_object(o: &Object) -> (r: Object)
    ensures
        r@ == o@,
{
    let mut out: Vec<(String, Json)> = Vec::new();
    let mut i: usize = 0;
    while i < o.entries.len()
        invariant
            i <= o.entries.len(),
            out.len() == i,
            forall|k: int| 0 <= k < i ==> (#[trigger] out@[k]).0@ == o.entries@[k].0@
                && json_view(out@[k].1) == json_view(o.entries@[k].1),
        decreases o.entries.len() - i,
    {
        let c = clone_json(&o.entries[i].1);
        out.push((o.entries[i].0.clone(), c));
        i = i + 1;
    }
    proof {
        lemma_json_entries_view_ext(out@, o.entries@);
    }
    Object { entries: out }
}

impl Clone for Json {
    fn clone(&self) -> (r: Self)
        ensures
            r@ == self@,
    {
        clone_json(self)
    }
}

impl Clone for Object {
    fn clone(&self) -> (r: Self)
        ensures
            r@ == self@,
    {
        clone_object(self)
    }
}

impl Object {
    /// An object with no members.
    pub fn new() -> (r: Self)
        ensures
            r@ == Seq::<(Seq<char>, JsonV)>::empty(),
    {
        Object { entries: Vec::new() }
    }

    /// How many members the object has.
    pub fn len(&self) -> (r: usize)
        ensures
            r == self@.len(),
    {
        proof {
            lemma_json_entries_view(self.entries@);
        }
        self.entries.len()
    }

    /// Whether the object has no members.
    pub fn is_empty(&self) -> (r: bool)
        ensures
            r == (self@.len() == 0),
    {
        proof {
            lemma_json_entries_view(self.entries@);
        }
        self.entries.len() == 0
    }

    /// The value of the first member called `key`.
    pub fn get(&self, key: &str) -> (r: Option<&Json>)
        ensures
            match r {
                Some(v) => lookup(self@, key@) == Some(v@),
                None => lookup(self@, key@) is None,
            },
    {
        proof {
            lemma_json_entries_view(self.entries@);
        }
        let k = chars_of(key);
        let mut i: usize = 0;
        while i < self.entries.len()
            invariant
                k@ == key@,
                i <= self.entries.len(),
                json_entries_view(self.entries@).len() == self.entries.len(),
                forall|j: int| 0 <= j < i ==> (#[trigger] self.entries@[j]).0@ != key@,
            decreases self.entries.len() - i,
        {
            let name = chars_of(self.entries[i].0.as_str());
            if crate::text::chars_eq(name.as_slice(), k.as_slice()) {
                proof {
                    lemma_json_entries_view(self.entries@);
                    lemma_position_at(self@, key@, i as int);
                    crate::entries::lemma_position(self@, key@);
                }
                return Some(&self.entries[i].1);
            }
            i = i + 1;
        }
        proof {
            lemma_json_entries_view(self.entries@);
            lemma_position_at(self@, key@, i as int);
            crate::entries::lemma_position(self@, key@);
        }
        None
    }

    /// Puts `value` under `key`: it replaces a member of that name, or goes in name order
    /// (as a sorted map would keep it).
    pub fn insert(&mut self, key: &str, value: Json)
        ensures
            final(self)@ == insert_sorted(old(self)@, key@, value@),
    {
        proof {
            lemma_json_entries_view(self.entries@);
        }
        let k = chars_of(key);
        let mut i: usize = 0;
        let mut done = false;
        while !done && i < self.entries.len()
            invariant
                k@ == key@,
                i <= self.entries.len(),
                forall|j: int| 0 <= j < i ==> name_lt(#[trigger] self.entries@[j].0@, key@),
                done ==> i < self.entries.len() && !name_lt(self.entries@[i as int].0@, key@),
            decreases self.entries.len() - i + (if done { 0int } else { 1int }),
        {
            let name = chars_of(self.entries[i].0.as_str());
            if !chars_lt(name.as_slice(), k.as_slice()) {
                done = true;
            } else {
                i = i + 1;
            }
        }
        let ghost old_entries = self.entries@;
        let ghost oldv = self@;
        let ghost vv = value@;
        proof {
            lemma_json_entries_view(old_entries);
            assert forall|j: int| 0 <= j < i implies name_lt(#[trigger] oldv[j].0, key@) by {
                assert(oldv[j].0 == old_entries[j].0@);
            }
            lemma_insert_sorted_at(oldv, key@, vv, i as int);
        }
        let owned_key = crate::text::string_of(k.as_slice());
        if i < self.entries.len() && crate::text::str_eq(self.entries[i].0.as_str(), key) {
            self.entries.set(i, (owned_key, value));
            proof {
                lemma_json_entries_view(self.entries@);
                assert(self@ =~= oldv.take(i as int) + seq![(key@, vv)] + oldv.skip(i + 1));
            }
        } else {
            self.entries.insert(i, (owned_key, value));
            proof {
                lemma_json_entries_view(self.entries@);
                assert(self@ =~= oldv.take(i as int) + seq![(key@, vv)] + oldv.skip(i as int));
            }
        }
    }
}

impl Json {
    /// The value of the member called `key`, when this is an object that has one.
    pub fn get(&self, key: &str) -> (r: Option<&Json>)
        ensures
            match self@ {
                JsonV::Object(m) => match r {
                    Some(v) => lookup(m, key@) == Some(v@),
                    None => lookup(m, key@) is None,
                },
                _ => r is None,
            },
    {
        match self {
            Json::Object(o) => o.get(key),
            _ => None,
        }
    }
}

/// What serde_json reads the text `text` as: the JSON value, or nothing when the text
/// is not JSON.
pub uninterp spec fn json_parse(text: Seq<char>) -> Option<JsonV>;

/// `serde_json::from_str::<serde_json::Value>`, with the value converted member by member
/// into a [`Json`] (the conversion is [`json_from_serde`]). The result is named
/// [`json_parse`]; what it is for given text, serde_json's parser decides, and nothing
/// more of it is stated here.
#[verifier::external_body]
pub(crate) fn parse_json(text: &str) -> (r: Result<Json, JsonError>)
    ensures
        match r {
            Ok(j) => json_parse(text@) == Some(j@),
            Err(_) => json_parse(text@) is None,
        },
{
    serde_json::from_str::<SerdeValue>(text).map(json_from_serde)
}

/// Converts serde_json's value into a [`Json`], one variant for another: an integer that
/// fits `u64` or `i64` stays an integer, any other number is held as its binary64 bits.
#[verifier::external_body]
fn json_from_serde(v: SerdeValue) -> Json {
    match v {
        SerdeValue::Null => Json::Null,
        SerdeValue::Bool(b) => Json::Bool(b),
        SerdeValue::Number(n) => Json::Number(match (n.as_u64(), n.as_i64()) {
            (Some(u), _) => JsonNumber::PosInt(u),
            (None, Some(i)) => JsonNumber::NegInt(i),
            _ => JsonNumber::Float(Binary64(n.as_f64().unwrap_or_default().to_bits())),
        }),
        SerdeValue::String(s) => Json::String(s),
        SerdeValue::Array(a) => Json::Array(a.into_iter().map(json_from_serde).collect()),
        SerdeValue::Object(o) => Json::Object(Object { entries: o.into_iter().map(|(k, v)| (k, json_from_serde(v))).collect() }),
    }
}

} // verus!

