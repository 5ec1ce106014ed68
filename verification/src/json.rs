//! JSON documents as plain values, read and written by `serde_json`.

use serde_json::{Number, Value};
use vstd::prelude::*;
use vstd::string::*;

use crate::text::same_text;

verus! {

/// `serde_json::Value`, one parsed document. What it holds is named by [`contents`].
#[verifier::external_type_specification]
#[verifier::external_body]
pub struct ExValue(serde_json::Value);

/// `serde_json::Number`, carried through untouched.
#[verifier::external_type_specification]
#[verifier::external_body]
pub struct ExNumber(serde_json::Number);

/// A JSON document.
pub enum Json {
    Null,
    Bool(bool),
    Number(Number),
    Text(String),
    List(Vec<Json>),
    Object(Vec<Member>),
}

/// One member of an object. Of two members with one name, the later one counts.
pub struct Member {
    pub name: String,
    pub value: Json,
}

/// What a JSON document says: the members of an object have no order.
pub enum JsonValue {
    Null,
    Bool(bool),
    Number(Number),
    Text(Seq<char>),
    List(Seq<JsonValue>),
    Object(Map<Seq<char>, JsonValue>),
}

impl Json {
    /// What this document says.
    pub open spec fn value(self) -> JsonValue
        decreases self,
    {
        match self {
            Json::Null => JsonValue::Null,
            Json::Bool(b) => JsonValue::Bool(b),
            Json::Number(n) => JsonValue::Number(n),
            Json::Text(s) => JsonValue::Text(s@),
            Json::List(v) => JsonValue::List(list_value(v@)),
            Json::Object(v) => JsonValue::Object(members_value(v@)),
        }
    }
}

impl View for Json {
    type V = JsonValue;

    open spec fn view(&self) -> JsonValue {
        self.value()
    }
}

impl Json {
    /// The member of that name, where this is an object that has one.
    pub fn get(&self, name: &str) -> (r: Option<&Json>)
        ensures
            match r {
                Some(j) => self@.get(name@) == Some(j@),
                None => self@.get(name@) is None,
            },
    {
        match self {
            Json::Object(members) => {
                let mut i: usize = members.len();
                assert(members@.take(i as int) =~= members@);
                while i > 0
                    invariant
                        i <= members@.len(),
                        *self == Json::Object(*members),
                        JsonValue::Object(members_value(members@)).get(name@) == JsonValue::Object(
                            members_value(members@.take(i as int)),
                        ).get(name@),
                    decreases i,
                {
                    i -= 1;
                    assert(members@.take(i + 1).drop_last() =~= members@.take(i as int));
                    if same_text(members[i].name.as_str(), name) {
                        return Some(&members[i].value);
                    }
                }
                assert(members@.take(0) =~= Seq::empty());
                None
            },
            _ => None,
        }
    }

    /// The string that this document is, where it is one.
    pub fn as_text(&self) -> (r: Option<&str>)
        ensures
            match r {
                Some(s) => self@ == JsonValue::Text(s@),
                None => !(self@ is Text),
            },
    {
        match self {
            Json::Text(s) => Some(s.as_str()),
            _ => None,
        }
    }

    /// A copy of this document without any member called `name`, at any depth.
    pub fn without(&self, name: &str) -> (r: Json)
        ensures
            r@ == self@.without(name@),
        decreases self,
    {
        match self {
            Json::Null => Json::Null,
            Json::Bool(b) => Json::Bool(*b),
            Json::Number(n) => Json::Number(copy_number(n)),
            Json::Text(s) => Json::Text(s.clone()),
            Json::List(items) => {
                let mut out: Vec<Json> = Vec::new();
                let mut i: usize = 0;
                assert(items@.take(0) =~= Seq::empty());
                assert(JsonValue::List(Seq::empty()).without(name@)->List_0 =~= Seq::empty());
                while i < items.len()
                    invariant
                        i <= items@.len(),
                        *self == Json::List(*items),
                        JsonValue::List(list_value(out@)) == JsonValue::List(
                            list_value(items@.take(i as int)),
                        ).without(name@),
                    decreases items.len() - i,
                {
                    assert(decreases_to!(*self => self->List_0));
                    assert(decreases_to!(*items => items[i as int]));
                    let item = items[i].without(name);
                    let ghost before = out@;
                    out.push(item);
                    proof {
                        assert(out@.drop_last() =~= before);
                        assert(items@.take(i + 1).drop_last() =~= items@.take(i as int));
                        lemma_list_without(items@.take(i + 1), name@);
                    }
                    i += 1;
                }
                assert(items@.take(i as int) =~= items@);
                Json::List(out)
            },
            Json::Object(members) => {
                let mut out: Vec<Member> = Vec::new();
                let mut i: usize = 0;
                assert(members@.take(0) =~= Seq::empty());
                assert(JsonValue::Object(Map::empty()).without(name@)->Object_0 =~= Map::empty());
                while i < members.len()
                    invariant
                        i <= members@.len(),
                        *self == Json::Object(*members),
                        JsonValue::Object(members_value(out@)) == JsonValue::Object(
                            members_value(members@.take(i as int)),
                        ).without(name@),
                    decreases members.len() - i,
                {
                    let ghost before = out@;
                    proof {
                        assert(members@.take(i + 1).drop_last() =~= members@.take(i as int));
                        lemma_members_without(members@.take(i + 1), name@);
                    }
                    if !same_text(members[i].name.as_str(), name) {
                        assert(decreases_to!(*self => self->Object_0));
                        assert(decreases_to!(*members => members[i as int]));
                        assert(decreases_to!(members[i as int] => members[i as int].value));
                        let value = members[i].value.without(name);
                        out.push(Member { name: members[i].name.clone(), value });
                        assert(out@.drop_last() =~= before);
                    }
                    i += 1;
                }
                assert(members@.take(i as int) =~= members@);
                Json::Object(out)
            },
        }
    }
}

/// Dropping members from a list is dropping them from each item.
proof fn lemma_list_without(items: Seq<Json>, name: Seq<char>)
    requires
        items.len() > 0,
    ensures
        JsonValue::List(list_value(items)).without(name) == JsonValue::List(
            (JsonValue::List(list_value(items.drop_last())).without(name)->List_0).push(
                items.last()@.without(name),
            ),
        ),
{
    let all = list_value(items);
    assert(JsonValue::List(all).without(name)->List_0
        =~= (JsonValue::List(list_value(items.drop_last())).without(name)->List_0).push(
        items.last()@.without(name),
    ));
}

/// Dropping a name from an object with one more member.
proof fn lemma_members_without(members: Seq<Member>, name: Seq<char>)
    requires
        members.len() > 0,
    ensures
        ({
            let rest = JsonValue::Object(members_value(members.drop_last())).without(name);
            JsonValue::Object(members_value(members)).without(name) == if members.last().name@
                == name {
                rest
            } else {
                JsonValue::Object(
                    (rest->Object_0).insert(
                        members.last().name@,
                        members.last().value@.without(name),
                    ),
                )
            }
        }),
{
    let rest = JsonValue::Object(members_value(members.drop_last())).without(name);
    let all = JsonValue::Object(members_value(members)).without(name);
    if members.last().name@ == name {
        assert(all->Object_0 =~= rest->Object_0);
    } else {
        assert(all->Object_0 =~= (rest->Object_0).insert(
            members.last().name@,
            members.last().value@.without(name),
        ));
    }
}

/// Copies a number: `serde_json::Number::clone` gives an equal number.
#[verifier::external_body]
fn copy_number(n: &Number) -> (r: Number)
    ensures
        r == *n,
{
    n.clone()
}

/// What the items say, in order.
pub open spec fn list_value(items: Seq<Json>) -> Seq<JsonValue>
    decreases items,
{
    if items.len() == 0 {
        Seq::empty()
    } else {
        list_value(items.drop_last()).push(items.last().value())
    }
}

/// A list says what its items say.
pub(crate) proof fn lemma_list_value(items: Seq<Json>)
    ensures
        list_value(items).len() == items.len(),
        forall|i: int| 0 <= i < items.len() ==> #[trigger] list_value(items)[i] == items[i]@,
    decreases items.len(),
{
    if items.len() > 0 {
        lemma_list_value(items.drop_last());
    }
}

/// The members by name.
pub open spec fn members_value(members: Seq<Member>) -> Map<Seq<char>, JsonValue>
    decreases members,
{
    if members.len() == 0 {
        Map::empty()
    } else {
        members_value(members.drop_last()).insert(
            members.last().name@,
            members.last().value.value(),
        )
    }
}

/// What a `serde_json::Value` holds.
pub uninterp spec fn contents(v: Value) -> JsonValue;

/// The document that `serde_json::from_slice` reads from these bytes, or `None` where it reports
/// an error.
pub uninterp spec fn parsed(bytes: Seq<u8>) -> Option<JsonValue>;

/// The bytes that `serde_json::to_vec` writes for this document.
pub uninterp spec fn compact_bytes(v: JsonValue) -> Seq<u8>;

/// The text that a `serde_json::Value` displays for this document.
pub uninterp spec fn compact_text(v: JsonValue) -> Seq<char>;

/// The outermost layer of a `serde_json::Value`.
enum Layer {
    Null,
    Bool(bool),
    Number(Number),
    Text(String),
    List(Vec<Value>),
    Object(Vec<(String, Value)>),
}

/// What a layer says, by what its parts hold.
spec fn layer_value(layer: Layer) -> JsonValue {
    match layer {
        Layer::Null => JsonValue::Null,
        Layer::Bool(b) => JsonValue::Bool(b),
        Layer::Number(n) => JsonValue::Number(n),
        Layer::Text(s) => JsonValue::Text(s@),
        Layer::List(v) => JsonValue::List(Seq::new(v@.len(), |i: int| contents(v@[i]))),
        Layer::Object(v) => JsonValue::Object(pairs_value(v@)),
    }
}

/// The pairs by name; of two pairs with one name, the later one counts.
spec fn pairs_value(pairs: Seq<(String, Value)>) -> Map<Seq<char>, JsonValue>
    decreases pairs.len(),
{
    if pairs.len() == 0 {
        Map::empty()
    } else {
        pairs_value(pairs.drop_last()).insert(pairs.last().0@, contents(pairs.last().1))
    }
}

/// No two pairs have one name.
spec fn distinct_names(pairs: Seq<(String, Value)>) -> bool {
    forall|i: int, j: int| 0 <= i < j < pairs.len() ==> pairs[i].0@ != pairs[j].0@
}

/// Where names are distinct, each pair is found under its name.
proof fn lemma_pair_by_name(pairs: Seq<(String, Value)>, i: int)
    requires
        distinct_names(pairs),
        0 <= i < pairs.len(),
    ensures
        pairs_value(pairs).contains_key(pairs[i].0@),
        pairs_value(pairs)[pairs[i].0@] == contents(pairs[i].1),
    decreases pairs.len(),
{
    if i < pairs.len() - 1 {
        assert(distinct_names(pairs.drop_last()));
        lemma_pair_by_name(pairs.drop_last(), i);
    }
}

/// An object has finitely many members.
proof fn lemma_pairs_finite(pairs: Seq<(String, Value)>)
    ensures
        pairs_value(pairs).dom().finite(),
    decreases pairs.len(),
{
    if pairs.len() > 0 {
        lemma_pairs_finite(pairs.drop_last());
    }
}

/// Tells the variants of `serde_json::Value` apart and moves their fields out: the layer says what
/// the value holds. An object's entries come out of `serde_json::Map::into_iter`, each name once.
#[verifier::external_body]
fn open_value(v: Value) -> (r: Layer)
    ensures
        layer_value(r) == contents(v),
        r is Object ==> distinct_names(r->Object_0@),
{
    match v {
        Value::Null => Layer::Null,
        Value::Bool(b) => Layer::Bool(b),
        Value::Number(n) => Layer::Number(n),
        Value::String(s) => Layer::Text(s),
        Value::Array(a) => Layer::List(a),
        Value::Object(m) => Layer::Object(m.into_iter().collect()),
    }
}

/// Builds a `serde_json::Value` from a layer: the value holds what the layer says. An object's
/// pairs, each name once, are collected into a `serde_json::Map`, which holds each under its name.
#[verifier::external_body]
fn close_value(layer: Layer) -> (r: Value)
    requires
        layer is Object ==> distinct_names(layer->Object_0@),
    ensures
        contents(r) == layer_value(layer),
{
    match layer {
        Layer::Null => Value::Null,
        Layer::Bool(b) => Value::Bool(b),
        Layer::Number(n) => Value::Number(n),
        Layer::Text(s) => Value::String(s),
        Layer::List(a) => Value::Array(a),
        Layer::Object(m) => Value::Object(m.into_iter().collect()),
    }
}

/// Calls `serde_json::from_slice`: the result holds what [`parsed`] names, and an error becomes
/// `None`.
#[verifier::external_body]
fn value_from_slice(bytes: &[u8]) -> (r: Option<Value>)
    ensures
        match r {
            Some(v) => parsed(bytes@) == Some(contents(v)),
            None => parsed(bytes@) is None,
        },
{
    serde_json::from_slice(bytes).ok()
}

/// Calls `serde_json::to_vec`, which cannot fail on a `Value`: every key of its objects is a
/// string. The bytes are what [`compact_bytes`] names; they depend only on what the value holds,
/// since `serde_json::Map` keeps its keys sorted.
#[verifier::external_body]
fn value_to_vec(v: &Value) -> (r: Option<Vec<u8>>)
    ensures
        r is Some,
        r->Some_0@ == compact_bytes(contents(*v)),
{
    serde_json::to_vec(v).ok()
}

/// Calls `Value::to_string`. The text is what [`compact_text`] names; it depends only on what the
/// value holds, since `serde_json::Map` keeps its keys sorted.
#[verifier::external_body]
fn value_to_string(v: &Value) -> (r: String)
    ensures
        r@ == compact_text(contents(*v)),
{
    v.to_string()
}

/// The document that a parsed value holds.
fn json_of(v: Value) -> (r: Json)
    ensures
        r@ == contents(v),
    decreases contents(v),
{
    let ghost whole = contents(v);
    match open_value(v) {
        Layer::Null => Json::Null,
        Layer::Bool(b) => Json::Bool(b),
        Layer::Number(n) => Json::Number(n),
        Layer::Text(s) => Json::Text(s),
        Layer::List(items) => {
            let ghost all = items@;
            let mut out: Vec<Json> = Vec::new();
            for item in it: items
                invariant
                    whole == contents(v),
                    whole == JsonValue::List(Seq::new(all.len(), |i: int| contents(all[i]))),
                    it.seq() == all,
                    out@.len() == it.index(),
                    list_value(out@) == Seq::new(out@.len(), |i: int| contents(all[i])),
            {
                let ghost before = out@;
                proof {
                    assert(item == all[before.len() as int]);
                    assert(decreases_to!(whole => whole->List_0));
                    assert(decreases_to!(whole->List_0 => (whole->List_0)[before.len() as int]));
                }
                out.push(json_of(item));
                proof {
                    assert(out@.drop_last() =~= before);
                    assert(list_value(out@) =~= Seq::new(out@.len(), |i: int| contents(all[i])));
                }
            }
            assert(list_value(out@) =~= whole->List_0);
            Json::List(out)
        },
        Layer::Object(pairs) => {
            let ghost all = pairs@;
            let mut out: Vec<Member> = Vec::new();
            assert(all.take(0) =~= Seq::empty());
            for pair in it: pairs
                invariant
                    whole == contents(v),
                    whole == JsonValue::Object(pairs_value(all)),
                    distinct_names(all),
                    it.seq() == all,
                    members_value(out@) == pairs_value(all.take(it.index() as int)),
            {
                let ghost before = out@;
                let ghost i = it.index() as int;
                let (name, value) = pair;
                proof {
                    lemma_pair_by_name(all, i);
                    lemma_pairs_finite(all);
                    assert(decreases_to!(whole => whole->Object_0));
                    assert(decreases_to!(whole->Object_0 => (whole->Object_0)[name@]));
                }
                out.push(Member { name, value: json_of(value) });
                proof {
                    assert(out@.drop_last() =~= before);
                    assert(all.take(i + 1).drop_last() =~= all.take(i));
                }
            }
            assert(all.take(all.len() as int) =~= all);
            Json::Object(out)
        },
    }
}

/// A name is known exactly where a pair has it.
proof fn lemma_pair_names(pairs: Seq<(String, Value)>, name: Seq<char>)
    ensures
        pairs_value(pairs).contains_key(name) <==> exists|i: int|
            0 <= i < pairs.len() && (#[trigger] pairs[i]).0@ == name,
    decreases pairs.len(),
{
    if pairs.len() > 0 {
        let rest = pairs.drop_last();
        lemma_pair_names(rest, name);
        if pairs_value(rest).contains_key(name) {
            let i = choose|i: int| 0 <= i < rest.len() && (#[trigger] rest[i]).0@ == name;
            assert(pairs[i].0@ == name);
        }
        if exists|i: int| 0 <= i < pairs.len() && (#[trigger] pairs[i]).0@ == name {
            let i = choose|i: int| 0 <= i < pairs.len() && (#[trigger] pairs[i]).0@ == name;
            assert(i < rest.len() ==> rest[i].0@ == name);
        }
        assert(pairs[pairs.len() - 1] == pairs.last());
    }
}

/// Whether a pair has that name.
fn has_pair(pairs: &Vec<(String, Value)>, name: &str) -> (r: bool)
    ensures
        r <==> exists|i: int| 0 <= i < pairs@.len() && (#[trigger] pairs@[i]).0@ == name@,
{
    let mut i: usize = 0;
    while i < pairs.len()
        invariant
            i <= pairs@.len(),
            forall|k: int| 0 <= k < i ==> (#[trigger] pairs@[k]).0@ != name@,
        decreases pairs.len() - i,
    {
        if same_text(pairs[i].0.as_str(), name) {
            return true;
        }
        i += 1;
    }
    false
}

/// A value that holds the document; of members with one name, the last.
fn value_of(j: &Json) -> (r: Value)
    ensures
        contents(r) == j@,
    decreases j,
{
    match j {
        Json::Null => close_value(Layer::Null),
        Json::Bool(b) => close_value(Layer::Bool(*b)),
        Json::Number(n) => close_value(Layer::Number(copy_number(n))),
        Json::Text(s) => close_value(Layer::Text(s.clone())),
        Json::List(items) => {
            let mut out: Vec<Value> = Vec::new();
            let mut i: usize = 0;
            assert(items@.take(0) =~= Seq::empty());
            while i < items.len()
                invariant
                    i <= items@.len(),
                    *j == Json::List(*items),
                    out@.len() == i,
                    Seq::new(out@.len(), |k: int| contents(out@[k])) == list_value(
                        items@.take(i as int),
                    ),
                decreases items.len() - i,
            {
                assert(decreases_to!(*j => j->List_0));
                assert(decreases_to!(*items => items[i as int]));
                out.push(value_of(&items[i]));
                assert(items@.take(i + 1).drop_last() =~= items@.take(i as int));
                i += 1;
                assert(Seq::new(out@.len(), |k: int| contents(out@[k])) =~= list_value(
                    items@.take(i as int),
                ));
            }
            assert(items@.take(i as int) =~= items@);
            close_value(Layer::List(out))
        },
        Json::Object(members) => {
            let mut out: Vec<(String, Value)> = Vec::new();
            let mut i: usize = members.len();
            assert(members@.take(i as int) =~= members@);
            assert(members_value(members@).union_prefer_right(pairs_value(out@)) =~= members_value(
                members@,
            ));
            while i > 0
                invariant
                    i <= members@.len(),
                    *j == Json::Object(*members),
                    distinct_names(out@),
                    members_value(members@.take(i as int)).union_prefer_right(pairs_value(out@))
                        == members_value(members@),
                decreases i,
            {
                i -= 1;
                let ghost before = out@;
                let ghost rest = members@.take(i as int);
                assert(members@.take(i + 1).drop_last() =~= rest);
                proof {
                    lemma_pair_names(before, members@[i as int].name@);
                }
                if !has_pair(&out, members[i].name.as_str()) {
                    assert(decreases_to!(*j => j->Object_0));
                    assert(decreases_to!(*members => members[i as int]));
                    assert(decreases_to!(members[i as int] => members[i as int].value));
                    out.push((members[i].name.clone(), value_of(&members[i].value)));
                    assert(out@.drop_last() =~= before);
                }
                assert(members_value(rest).union_prefer_right(pairs_value(out@))
                    =~= members_value(members@.take(i + 1)).union_prefer_right(
                    pairs_value(before),
                ));
            }
            assert(members@.take(0) =~= Seq::empty());
            assert(members_value(members@.take(0)).union_prefer_right(pairs_value(out@))
                =~= pairs_value(out@));
            close_value(Layer::Object(out))
        },
    }
}

impl Json {
    /// Reads a document, or `None` where the bytes are not JSON.
    pub fn parse(bytes: &[u8]) -> (r: Option<Json>)
        ensures
            match r {
                Some(j) => parsed(bytes@) == Some(j@),
                None => parsed(bytes@) is None,
            },
    {
        match value_from_slice(bytes) {
            Some(v) => Some(json_of(v)),
            None => None,
        }
    }

    /// Writes this document as compact bytes, the members of each object sorted by name.
    pub fn to_bytes(&self) -> (r: Vec<u8>)
        ensures
            r@ == compact_bytes(self@),
    {
        let v = value_of(self);
        value_to_vec(&v).unwrap()
    }

    /// Writes this document as compact text, the members of each object sorted by name.
    pub fn to_text(&self) -> (r: String)
        ensures
            r@ == compact_text(self@),
    {
        let v = value_of(self);
        value_to_string(&v)
    }
}

impl JsonValue {
    /// The member of that name, where this is an object that has one.
    pub open spec fn get(self, name: Seq<char>) -> Option<JsonValue> {
        match self {
            JsonValue::Object(m) => if m.contains_key(name) {
                Some(m[name])
            } else {
                None
            },
            _ => None,
        }
    }

    /// This document without any member called `name`, at any depth.
    pub open spec fn without(self, name: Seq<char>) -> JsonValue
        decreases self,
    {
        match self {
            JsonValue::List(items) => JsonValue::List(
                Seq::new(
                    items.len(),
                    |i: int|
                        if 0 <= i < items.len() {
                            items[i].without(name)
                        } else {
                            JsonValue::Null
                        },
                ),
            ),
            JsonValue::Object(m) => JsonValue::Object(
                Map::new(
                    |k: Seq<char>| m.contains_key(k) && k != name,
                    |k: Seq<char>|
                        if m.contains_key(k) {
                            m[k].without(name)
                        } else {
                            JsonValue::Null
                        },
                ),
            ),
            other => other,
        }
    }
}

impl JsonValue {
    /// Members that are gone cannot be dropped again.
    pub(crate) proof fn lemma_without_twice(self, name: Seq<char>)
        ensures
            self.without(name).without(name) == self.without(name),
        decreases self,
    {
        match self {
            JsonValue::List(items) => {
                let once = self.without(name)->List_0;
                assert forall|i: int| 0 <= i < items.len() implies once[i].without(name)
                    == #[trigger] once[i] by {
                    items[i].lemma_without_twice(name);
                }
                assert(self.without(name).without(name)->List_0 =~= once);
            },
            JsonValue::Object(m) => {
                let once = self.without(name)->Object_0;
                assert forall|k: Seq<char>| #[trigger] once.contains_key(k) implies once[k].without(
                    name,
                ) == once[k] by {
                    m[k].lemma_without_twice(name);
                }
                assert(self.without(name).without(name)->Object_0 =~= once);
            },
            _ => {},
        }
    }

    /// A member of another name stays, itself without the dropped members.
    pub(crate) proof fn lemma_get_without(self, name: Seq<char>, other: Seq<char>)
        requires
            name != other,
        ensures
            self.without(name).get(other) == match self.get(other) {
                Some(v) => Some(v.without(name)),
                None => None,
            },
    {
    }
}

/// No two members have one name.
pub open spec fn distinct_member_names(members: Seq<Member>) -> bool {
    forall|i: int, j: int|
        0 <= i < j < members.len() ==> (#[trigger] members[i]).name@ != (
        #[trigger] members[j]).name@
}

/// Which names an object has, and what stands under them, where no name occurs twice.
proof fn lemma_members_by_name(members: Seq<Member>)
    requires
        distinct_member_names(members),
    ensures
        forall|k: Seq<char>| #[trigger]
            members_value(members).contains_key(k) <==> exists|i: int|
                0 <= i < members.len() && (#[trigger] members[i]).name@ == k,
        forall|i: int|
            0 <= i < members.len() ==> members_value(members)[(#[trigger] members[i]).name@]
                == members[i].value@,
    decreases members.len(),
{
    if members.len() > 0 {
        let rest = members.drop_last();
        assert(distinct_member_names(rest));
        lemma_members_by_name(rest);
        assert forall|k: Seq<char>| #[trigger]
            members_value(members).contains_key(k) implies exists|i: int|
            0 <= i < members.len() && (#[trigger] members[i]).name@ == k by {
            if k == members.last().name@ {
                assert(members[members.len() - 1].name@ == k);
            } else {
                assert(members_value(rest).contains_key(k));
                let i = choose|i: int| 0 <= i < rest.len() && (#[trigger] rest[i]).name@ == k;
                assert(members[i].name@ == k);
            }
        }
        assert forall|i: int| 0 <= i < members.len() implies members_value(members).contains_key(
            (#[trigger] members[i]).name@,
        ) && members_value(members)[members[i].name@] == members[i].value@ by {
            if i < members.len() - 1 {
                assert(rest[i] == members[i]);
                assert(members[i].name@ != members[members.len() - 1].name@);
            }
        }
    }
}

/// The order in which an object lists its members does not matter: two objects with the same
/// members, no name twice, say the same.
pub proof fn law_member_order_does_not_count(a: Vec<Member>, b: Vec<Member>)
    requires
        distinct_member_names(a@),
        distinct_member_names(b@),
        forall|m: Member| #[trigger] a@.contains(m) <==> b@.contains(m),
    ensures
        Json::Object(a)@ == Json::Object(b)@,
{
    lemma_members_by_name(a@);
    lemma_members_by_name(b@);
    lemma_same_members(a@, b@);
    lemma_same_members(b@, a@);
    assert(members_value(a@) =~= members_value(b@));
}

/// What one list of members has, the other has too.
proof fn lemma_same_members(a: Seq<Member>, b: Seq<Member>)
    requires
        distinct_member_names(a),
        distinct_member_names(b),
        forall|m: Member| #[trigger] a.contains(m) ==> b.contains(m),
    ensures
        forall|k: Seq<char>| #[trigger]
            members_value(a).contains_key(k) ==> members_value(b).contains_key(k)
                && members_value(a)[k] == members_value(b)[k],
{
    lemma_members_by_name(a);
    lemma_members_by_name(b);
    assert forall|k: Seq<char>| #[trigger] members_value(a).contains_key(k) implies members_value(
        b,
    ).contains_key(k) && members_value(a)[k] == members_value(b)[k] by {
        let i = choose|i: int| 0 <= i < a.len() && (#[trigger] a[i]).name@ == k;
        assert(a.contains(a[i]));
        let j = choose|j: int| 0 <= j < b.len() && b[j] == a[i];
        assert(b[j].name@ == k);
    }
}

/// A document says what it is made of: a scalar itself, a list what its items say, in order, and an
/// object under each name what the last member of that name says, and nothing under other names.
pub proof fn law_document_says_what_it_holds(
    b: bool,
    n: Number,
    text: String,
    items: Vec<Json>,
    members: Vec<Member>,
    name: Seq<char>,
    i: int,
)
    ensures
        Json::Null@ == JsonValue::Null,
        Json::Bool(b)@ == JsonValue::Bool(b),
        Json::Number(n)@ == JsonValue::Number(n),
        Json::Text(text)@ == JsonValue::Text(text@),
        Json::List(items)@ is List,
        (Json::List(items)@->List_0).len() == items@.len(),
        forall|k: int|
            0 <= k < items@.len() ==> #[trigger] (Json::List(items)@->List_0)[k] == items@[k]@,
        Json::Object(members)@ is Object,
        0 <= i < members@.len() && members@[i].name@ == name && (forall|k: int|
            i < k < members@.len() ==> (#[trigger] members@[k]).name@ != name)
            ==> Json::Object(members)@.get(name) == Some(members@[i].value@),
        (forall|k: int| 0 <= k < members@.len() ==> (#[trigger] members@[k]).name@ != name)
            ==> Json::Object(members)@.get(name) is None,
{
    lemma_list_value(items@);
    lemma_last_member(members@, name, i);
}

proof fn lemma_last_member(members: Seq<Member>, name: Seq<char>, i: int)
    ensures
        0 <= i < members.len() && members[i].name@ == name && (forall|k: int|
            i < k < members.len() ==> (#[trigger] members[k]).name@ != name) ==> members_value(
            members,
        ).contains_key(name) && members_value(members)[name] == members[i].value@,
        (forall|k: int| 0 <= k < members.len() ==> (#[trigger] members[k]).name@ != name)
            ==> !members_value(members).contains_key(name),
    decreases members.len(),
{
    if members.len() > 0 {
        let rest = members.drop_last();
        let last = members.len() - 1;
        lemma_last_member(rest, name, i);
        if 0 <= i < members.len() && members[i].name@ == name && (forall|k: int|
            i < k < members.len() ==> (#[trigger] members[k]).name@ != name) && i < last {
            assert(members[last].name@ != name);
            assert forall|k: int| i < k < rest.len() implies (#[trigger] rest[k]).name@
                != name by {
                assert(rest[k] == members[k]);
            }
            assert(rest[i] == members[i]);
        }
        if forall|k: int| 0 <= k < members.len() ==> (#[trigger] members[k]).name@ != name {
            assert(members[last].name@ != name);
            assert forall|k: int| 0 <= k < rest.len() implies (#[trigger] rest[k]).name@
                != name by {
                assert(rest[k] == members[k]);
            }
        }
    }
}

/// A member is had from an object under its name, and from nothing else.
pub proof fn law_members_are_had_by_name(
    m: Map<Seq<char>, JsonValue>,
    v: JsonValue,
    name: Seq<char>,
)
    ensures
        m.contains_key(name) ==> JsonValue::Object(m).get(name) == Some(m[name]),
        !m.contains_key(name) ==> JsonValue::Object(m).get(name) is None,
        !(v is Object) ==> v.get(name) is None,
{
}

/// Dropping a name drops the members of that name, at every depth, and nothing else: scalars stay,
/// a list keeps its items in order, and an object its other members, each without the name.
pub proof fn law_dropping_drops_only_that_name(
    v: JsonValue,
    name: Seq<char>,
    other: Seq<char>,
    i: int,
)
    ensures
        v.without(name).get(name) is None,
        v is Object <==> v.without(name) is Object,
        other != name ==> (v.get(other) is Some <==> v.without(name).get(other) is Some),
        other != name && v.get(other) is Some ==> v.without(name).get(other) == Some(
            (v.get(other)->0).without(name),
        ),
        v is List <==> v.without(name) is List,
        v is List ==> (v.without(name)->List_0).len() == (v->List_0).len(),
        v is List && 0 <= i < (v->List_0).len() ==> (v.without(name)->List_0)[i] == (
        v->List_0)[i].without(name),
        !(v is List) && !(v is Object) ==> v.without(name) == v,
{
}

} // verus!
