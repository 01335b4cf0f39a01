//! JSON values as the library reads and builds them.
use vstd::prelude::*;
use vstd::string::*;

use crate::digest::hex_char;
use crate::text::{same, signed_decimal, text_le};

verus! {

/// The mathematical value of a JSON document. An object is the sequence of its members.
pub enum JsonValue {
    Null,
    Bool(bool),
    Number(Seq<char>, Option<i64>),
    Text(Seq<char>),
    Array(Seq<JsonValue>),
    Object(Seq<(Seq<char>, JsonValue)>),
}

/// A number as it is written, and its value where that fits in `i64`.
pub struct JsonNumber {
    pub text: String,
    pub int: Option<i64>,
}

/// A JSON document.
pub enum Json {
    Null,
    Bool(bool),
    Number(JsonNumber),
    Text(String),
    Array(Vec<Json>),
    Object(Vec<(String, Json)>),
}

impl Json {
    /// The value that this document stands for.
    pub open spec fn model(self) -> JsonValue
        decreases self,
    {
        match self {
            Json::Null => JsonValue::Null,
            Json::Bool(b) => JsonValue::Bool(b),
            Json::Number(n) => JsonValue::Number(n.text@, n.int),
            Json::Text(s) => JsonValue::Text(s@),
            Json::Array(items) => JsonValue::Array(
                Seq::new(
                    items@.len(),
                    |i: int|
                        if 0 <= i < items@.len() {
                            items@[i].model()
                        } else {
                            JsonValue::Null
                        },
                ),
            ),
            Json::Object(members) => JsonValue::Object(
                Seq::new(
                    members@.len(),
                    |i: int|
                        if 0 <= i < members@.len() {
                            (members@[i].0@, members@[i].1.model())
                        } else {
                            (Seq::empty(), JsonValue::Null)
                        },
                ),
            ),
        }
    }
}

impl View for Json {
    type V = JsonValue;

    open spec fn view(&self) -> JsonValue {
        self.model()
    }
}

/// Whether a number is written as zero with a fraction, of either sign.
pub open spec fn is_zero(text: Seq<char>) -> bool {
    text == "0.0"@ || text == "-0.0"@
}

/// Whether two values are equal. The two zeros that have a fraction are.
pub open spec fn alike(a: JsonValue, b: JsonValue) -> bool
    decreases a,
{
    match (a, b) {
        (JsonValue::Number(s, m), JsonValue::Number(t, n)) => s == t && m == n || is_zero(s)
            && is_zero(t),
        (JsonValue::Array(s), JsonValue::Array(t)) => s.len() == t.len() && forall|i: int|
            0 <= i < s.len() ==> alike(#[trigger] s[i], t[i]),
        (JsonValue::Object(s), JsonValue::Object(t)) => s.len() == t.len() && forall|i: int|
            0 <= i < s.len() ==> (#[trigger] s[i]).0 == t[i].0 && alike(s[i].1, t[i].1),
        _ => a == b,
    }
}

/// Whether two objects have the same keys, with equal values.
pub open spec fn alike_maps(
    a: Map<Seq<char>, JsonValue>,
    b: Map<Seq<char>, JsonValue>,
) -> bool {
    &&& forall|k: Seq<char>| #[trigger] a.contains_key(k) ==> b.contains_key(k) && alike(a[k], b[k])
    &&& forall|k: Seq<char>| #[trigger] b.contains_key(k) ==> a.contains_key(k)
}

/// Every value equals itself, and being equal goes both ways.
pub proof fn law_equality_is_mutual(a: JsonValue, b: JsonValue)
    ensures
        alike(a, a),
        alike(a, b) ==> alike(b, a),
    decreases a,
{
    match a {
        JsonValue::Array(s) => {
            assert forall|i: int| 0 <= i < s.len() implies alike(#[trigger] s[i], s[i]) by {
                law_equality_is_mutual(s[i], s[i]);
            }
            if let JsonValue::Array(t) = b {
                if alike(a, b) {
                    assert forall|i: int| 0 <= i < t.len() implies alike(#[trigger] t[i], s[i]) by {
                        assert(alike(s[i], t[i]));
                        law_equality_is_mutual(s[i], t[i]);
                    }
                }
            }
        },
        JsonValue::Object(s) => {
            assert forall|i: int| 0 <= i < s.len() implies (#[trigger] s[i]).0 == s[i].0 && alike(
                s[i].1,
                s[i].1,
            ) by {
                law_equality_is_mutual(s[i].1, s[i].1);
            }
            if let JsonValue::Object(t) = b {
                if alike(a, b) {
                    assert forall|i: int| 0 <= i < t.len() implies (#[trigger] t[i]).0 == s[i].0
                        && alike(t[i].1, s[i].1) by {
                        assert(s[i].0 == t[i].0);
                        law_equality_is_mutual(s[i].1, t[i].1);
                    }
                }
            }
        },
        _ => {},
    }
}

fn is_fraction_zero(text: &str) -> (r: bool)
    ensures
        r == is_zero(text@),
{
    same(text, "0.0") || same(text, "-0.0")
}

impl Json {
    /// Whether another document has an equal value.
    pub fn same(&self, other: &Json) -> (r: bool)
        ensures
            r == alike(self@, other@),
        decreases *self,
    {
        match (self, other) {
            (Json::Null, Json::Null) => true,
            (Json::Bool(a), Json::Bool(b)) => *a == *b,
            (Json::Number(a), Json::Number(b)) => {
                let whole = match (a.int, b.int) {
                    (Some(x), Some(y)) => x == y,
                    (None, None) => true,
                    _ => false,
                };
                same(a.text.as_str(), b.text.as_str()) && whole || is_fraction_zero(
                    a.text.as_str(),
                ) && is_fraction_zero(b.text.as_str())
            },
            (Json::Text(a), Json::Text(b)) => same(a.as_str(), b.as_str()),
            (Json::Array(a), Json::Array(b)) => {
                if a.len() != b.len() {
                    assert(self@->Array_0.len() != other@->Array_0.len());
                    return false;
                }
                let mut i: usize = 0;
                while i < a.len()
                    invariant
                        i <= a.len(),
                        a.len() == b.len(),
                        *self == Json::Array(*a),
                        *other == Json::Array(*b),
                        forall|j: int| 0 <= j < i ==> alike((#[trigger] a@[j])@, b@[j]@),
                    decreases a.len() - i,
                {
                    assert(decreases_to!(*self => self->Array_0));
                    assert(decreases_to!(self->Array_0 => self->Array_0@));
                    assert(decreases_to!(self->Array_0@ => self->Array_0@[i as int]));
                    if !a[i].same(&b[i]) {
                        assert(!alike(self@->Array_0[i as int], other@->Array_0[i as int]));
                        return false;
                    }
                    i += 1;
                }
                assert forall|j: int| 0 <= j < self@->Array_0.len() implies alike(
                    #[trigger] self@->Array_0[j],
                    other@->Array_0[j],
                ) by {
                    assert(self@->Array_0[j] == a@[j]@);
                }
                true
            },
            (Json::Object(a), Json::Object(b)) => {
                if a.len() != b.len() {
                    assert(self@->Object_0.len() != other@->Object_0.len());
                    return false;
                }
                let mut i: usize = 0;
                while i < a.len()
                    invariant
                        i <= a.len(),
                        a.len() == b.len(),
                        *self == Json::Object(*a),
                        *other == Json::Object(*b),
                        forall|j: int|
                            0 <= j < i ==> (#[trigger] a@[j]).0@ == b@[j].0@ && alike(
                                a@[j].1@,
                                b@[j].1@,
                            ),
                    decreases a.len() - i,
                {
                    assert(decreases_to!(*self => self->Object_0));
                    assert(decreases_to!(self->Object_0 => self->Object_0@));
                    assert(decreases_to!(self->Object_0@ => self->Object_0@[i as int]));
                    assert(decreases_to!(self->Object_0@[i as int] => self->Object_0@[i as int].1));
                    if !same(a[i].0.as_str(), b[i].0.as_str()) || !a[i].1.same(&b[i].1) {
                        assert(self@->Object_0[i as int].0 != other@->Object_0[i as int].0
                            || !alike(
                            self@->Object_0[i as int].1,
                            other@->Object_0[i as int].1,
                        ));
                        return false;
                    }
                    i += 1;
                }
                assert forall|j: int| 0 <= j < self@->Object_0.len() implies (
                #[trigger] self@->Object_0[j]).0 == other@->Object_0[j].0 && alike(
                    self@->Object_0[j].1,
                    other@->Object_0[j].1,
                ) by {
                    assert(self@->Object_0[j].1 == a@[j].1@);
                }
                true
            },
            _ => false,
        }
    }

    /// A document with the same value.
    pub fn copy(&self) -> (r: Json)
        ensures
            r@ == self@,
        decreases *self,
    {
        match self {
            Json::Null => Json::Null,
            Json::Bool(b) => Json::Bool(*b),
            Json::Number(n) => Json::Number(JsonNumber { text: n.text.clone(), int: n.int }),
            Json::Text(s) => Json::Text(s.clone()),
            Json::Array(items) => {
                let mut out: Vec<Json> = Vec::new();
                let mut i: usize = 0;
                while i < items.len()
                    invariant
                        i <= items.len(),
                        *self == Json::Array(*items),
                        out.len() == i,
                        forall|j: int| 0 <= j < i ==> (#[trigger] out@[j])@ == items@[j]@,
                    decreases items.len() - i,
                {
                    assert(decreases_to!(*self => self->Array_0));
                    assert(decreases_to!(self->Array_0 => self->Array_0@));
                    assert(decreases_to!(self->Array_0@ => self->Array_0@[i as int]));
                    let item = items[i].copy();
                    out.push(item);
                    i += 1;
                }
                let r = Json::Array(out);
                assert(r@->Array_0 =~= self@->Array_0);
                r
            },
            Json::Object(members) => {
                let mut out: Vec<(String, Json)> = Vec::new();
                let mut i: usize = 0;
                while i < members.len()
                    invariant
                        i <= members.len(),
                        *self == Json::Object(*members),
                        out.len() == i,
                        forall|j: int|
                            0 <= j < i ==> (#[trigger] out@[j]).0@ == members@[j].0@ && out@[j].1@
                                == members@[j].1@,
                    decreases members.len() - i,
                {
                    assert(decreases_to!(*self => self->Object_0));
                    assert(decreases_to!(self->Object_0 => self->Object_0@));
                    assert(decreases_to!(self->Object_0@ => self->Object_0@[i as int]));
                    assert(decreases_to!(self->Object_0@[i as int] => self->Object_0@[i as int].1));
                    let member = (members[i].0.clone(), members[i].1.copy());
                    out.push(member);
                    i += 1;
                }
                let r = Json::Object(out);
                assert(r@->Object_0 =~= self@->Object_0);
                r
            },
        }
    }
}

/// The members of an object as a map: of two members with one key the later one counts.
pub open spec fn members_map(members: Seq<(Seq<char>, JsonValue)>) -> Map<Seq<char>, JsonValue>
    decreases members.len(),
{
    if members.len() == 0 {
        Map::empty()
    } else {
        members_map(members.drop_last()).insert(members.last().0, members.last().1)
    }
}

/// The values of a list of members.
pub open spec fn members_model(members: Seq<(String, Json)>) -> Seq<(Seq<char>, JsonValue)> {
    members.map_values(|m: (String, Json)| (m.0@, m.1@))
}

/// What an object holds under a key; nothing for any other value.
pub open spec fn member(value: JsonValue, key: Seq<char>) -> Option<JsonValue> {
    match value {
        JsonValue::Object(members) => if members_map(members).contains_key(key) {
            Some(members_map(members)[key])
        } else {
            None
        },
        _ => None,
    }
}

/// No key occurs twice.
pub open spec fn distinct_keys(members: Seq<(Seq<char>, JsonValue)>) -> bool {
    forall|i: int, j: int|
        0 <= i < j < members.len() ==> (#[trigger] members[i]).0 != (#[trigger] members[j]).0
}

/// The last member with a key gives its value.
pub proof fn lemma_member_at(members: Seq<(Seq<char>, JsonValue)>, i: int)
    requires
        0 <= i < members.len(),
        forall|j: int| i < j < members.len() ==> (#[trigger] members[j]).0 != members[i].0,
    ensures
        members_map(members).contains_key(members[i].0),
        members_map(members)[members[i].0] == members[i].1,
    decreases members.len(),
{
    if i < members.len() - 1 {
        let rest = members.drop_last();
        assert forall|j: int| i < j < rest.len() implies (#[trigger] rest[j]).0 != rest[i].0 by {
            assert(members[j].0 != members[i].0);
        }
        lemma_member_at(rest, i);
        assert(members[members.len() - 1].0 != members[i].0);
    }
}

/// A key that no member has is not in the map.
pub proof fn lemma_member_absent(members: Seq<(Seq<char>, JsonValue)>, key: Seq<char>)
    requires
        forall|j: int| 0 <= j < members.len() ==> (#[trigger] members[j]).0 != key,
    ensures
        !members_map(members).contains_key(key),
    decreases members.len(),
{
    if members.len() > 0 {
        let rest = members.drop_last();
        assert forall|j: int| 0 <= j < rest.len() implies (#[trigger] rest[j]).0 != key by {
            assert(members[j].0 != key);
        }
        lemma_member_absent(rest, key);
        assert(members[members.len() - 1].0 != key);
    }
}

/// Replacing the value of the last member with a key inserts it into the map.
proof fn lemma_member_listed(members: Seq<(Seq<char>, JsonValue)>, i: int)
    requires
        0 <= i < members.len(),
    ensures
        members_map(members).contains_key(members[i].0),
    decreases members.len(),
{
    if i < members.len() - 1 {
        lemma_member_listed(members.drop_last(), i);
        assert(members.drop_last()[i] == members[i]);
    }
}

proof fn lemma_member_found(members: Seq<(Seq<char>, JsonValue)>, key: Seq<char>)
    requires
        members_map(members).contains_key(key),
    ensures
        exists|j: int| 0 <= j < members.len() && (#[trigger] members[j]).0 == key,
{
    if forall|j: int| 0 <= j < members.len() ==> (#[trigger] members[j]).0 != key {
        lemma_member_absent(members, key);
    }
}

proof fn lemma_members_update(members: Seq<(Seq<char>, JsonValue)>, i: int, value: JsonValue)
    requires
        0 <= i < members.len(),
        forall|j: int| i < j < members.len() ==> (#[trigger] members[j]).0 != members[i].0,
    ensures
        members_map(members.update(i, (members[i].0, value))) == members_map(members).insert(
            members[i].0,
            value,
        ),
    decreases members.len(),
{
    let key = members[i].0;
    let updated = members.update(i, (key, value));
    if i == members.len() - 1 {
        assert(updated.drop_last() =~= members.drop_last());
        assert(members_map(updated) =~= members_map(members).insert(key, value));
    } else {
        let rest = members.drop_last();
        assert(rest[i] == members[i]);
        assert forall|j: int| i < j < rest.len() implies (#[trigger] rest[j]).0 != key by {
            assert(members[j].0 != key);
        }
        lemma_members_update(rest, i, value);
        assert(updated.drop_last() =~= rest.update(i, (key, value)));
        assert(members[members.len() - 1].0 != key);
        assert(members_map(updated) =~= members_map(members).insert(key, value));
    }
}

/// The position of the last member with a key.
fn find_member(members: &Vec<(String, Json)>, key: &str) -> (r: Option<usize>)
    ensures
        match r {
            Some(i) => {
                &&& i < members.len()
                &&& members@[i as int].0@ == key@
                &&& forall|j: int|
                    i < j < members.len() ==> (#[trigger] members_model(members@)[j]).0 != key@
                &&& members_map(members_model(members@)).contains_key(key@)
                &&& members_map(members_model(members@))[key@] == members@[i as int].1@
            },
            None => {
                &&& !members_map(members_model(members@)).contains_key(key@)
                &&& forall|j: int|
                    0 <= j < members.len() ==> (#[trigger] members_model(members@)[j]).0 != key@
            },
        },
{
    let ghost model = members_model(members@);
    let mut i: usize = members.len();
    while i > 0
        invariant
            i <= members.len(),
            model == members_model(members@),
            forall|j: int| i <= j < members.len() ==> (#[trigger] model[j]).0 != key@,
        decreases i,
    {
        i -= 1;
        if same(members[i].0.as_str(), key) {
            assert(model[i as int].0 == key@);
            proof {
                lemma_member_at(model, i as int);
            }
            return Some(i);
        }
        assert(model[i as int].0 != key@);
    }
    proof {
        lemma_member_absent(model, key@);
    }
    None
}

impl Json {
    /// The member of an object under a key.
    pub fn get(&self, key: &str) -> (r: Option<&Json>)
        ensures
            match r {
                Some(value) => member(self@, key@) == Some(value@),
                None => member(self@, key@) is None,
            },
    {
        match self {
            Json::Object(members) => {
                assert(self@->Object_0 =~= members_model(members@));
                match find_member(members, key) {
                    Some(i) => Some(&members[i].1),
                    None => None,
                }
            },
            _ => None,
        }
    }

    /// The text of a JSON string.
    pub fn as_str(&self) -> (r: Option<&String>)
        ensures
            match r {
                Some(s) => self@ == JsonValue::Text(s@),
                None => !(self@ is Text),
            },
    {
        match self {
            Json::Text(s) => Some(s),
            _ => None,
        }
    }

    /// The members of a JSON object.
    pub fn as_object(&self) -> (r: Option<&Vec<(String, Json)>>)
        ensures
            match r {
                Some(members) => self@ == JsonValue::Object(members_model(members@)),
                None => !(self@ is Object),
            },
    {
        match self {
            Json::Object(members) => {
                assert(self@->Object_0 =~= members_model(members@));
                Some(members)
            },
            _ => None,
        }
    }

    /// Whether this is the JSON null.
    pub fn is_null(&self) -> (r: bool)
        ensures
            r == (self@ == JsonValue::Null),
    {
        match self {
            Json::Null => true,
            _ => false,
        }
    }

    /// The value of a JSON number that fits in `i64`.
    pub fn as_i64(&self) -> (r: Option<i64>)
        ensures
            r == (match self@ {
                JsonValue::Number(_, value) => value,
                _ => None,
            }),
    {
        match self {
            Json::Number(n) => n.int,
            _ => None,
        }
    }

    /// The JSON string of a text.
    pub fn text(s: &str) -> (r: Json)
        ensures
            r@ == JsonValue::Text(s@),
    {
        Json::Text(s.to_owned())
    }
}

/// Whether a map holds every entry of another.
pub open spec fn covered(
    map: Map<Seq<char>, JsonValue>,
    other: Map<Seq<char>, JsonValue>,
) -> bool {
    forall|k: Seq<char>|
        #[trigger] other.contains_key(k) ==> map.contains_key(k) && alike(map[k], other[k])
}

/// A JSON object under construction: a map from keys to values.
pub struct JsonMap {
    pub members: Vec<(String, Json)>,
}

impl View for JsonMap {
    type V = Map<Seq<char>, JsonValue>;

    open spec fn view(&self) -> Map<Seq<char>, JsonValue> {
        members_map(members_model(self.members@))
    }
}

impl JsonMap {
    /// No key occurs twice among the members.
    pub open spec fn well_formed(&self) -> bool {
        distinct_keys(members_model(self.members@))
    }

    /// The empty object.
    pub fn new() -> (r: JsonMap)
        ensures
            r@ == Map::<Seq<char>, JsonValue>::empty(),
            r.well_formed(),
            r.members.len() == 0,
    {
        JsonMap { members: Vec::new() }
    }

    /// The value under a key.
    pub fn get(&self, key: &str) -> (r: Option<&Json>)
        ensures
            match r {
                Some(value) => self@.contains_key(key@) && self@[key@] == value@,
                None => !self@.contains_key(key@),
            },
    {
        match find_member(&self.members, key) {
            Some(i) => Some(&self.members[i].1),
            None => None,
        }
    }

    fn covers(&self, other: &JsonMap) -> (r: bool)
        ensures
            r == covered(self@, other@),
    {
        let mut i: usize = 0;
        while i < other.members.len()
            invariant
                i <= other.members.len(),
                forall|j: int|
                    0 <= j < i ==> self@.contains_key((#[trigger] other.members@[j]).0@)
                        && alike(self@[other.members@[j].0@], other@[other.members@[j].0@]),
            decreases other.members.len() - i,
        {
            let ghost key = other.members@[i as int].0@;
            let there = match other.get(other.members[i].0.as_str()) {
                Some(value) => match self.get(other.members[i].0.as_str()) {
                    Some(mine) => mine.same(value),
                    None => false,
                },
                None => true,
            };
            proof {
                lemma_member_listed(members_model(other.members@), i as int);
            }
            if !there {
                assert(other@.contains_key(key));
                return false;
            }
            i += 1;
        }
        proof {
            assert forall|k: Seq<char>| #[trigger] other@.contains_key(k) implies self@.contains_key(k)
                && alike(self@[k], other@[k]) by {
                lemma_member_found(members_model(other.members@), k);
                let j = choose|j: int|
                    0 <= j < members_model(other.members@).len() && (
                    #[trigger] members_model(other.members@)[j]).0 == k;
                assert(other.members@[j].0@ == k);
            }
        }
        true
    }

    /// Whether another object has equal members, in whatever order.
    pub fn same(&self, other: &JsonMap) -> (r: bool)
        ensures
            r == alike_maps(self@, other@),
    {
        let r = self.covers(other) && other.covers(self);
        proof {
            assert forall|k: Seq<char>|
                #![trigger self@.contains_key(k)]
                #![trigger other@.contains_key(k)]
                alike(self@[k], other@[k]) <==> alike(other@[k], self@[k]) by {
                law_equality_is_mutual(self@[k], other@[k]);
                law_equality_is_mutual(other@[k], self@[k]);
            }
        }
        r
    }

    /// Whether there is a value under a key.
    pub fn contains_key(&self, key: &str) -> (r: bool)
        ensures
            r == self@.contains_key(key@),
    {
        find_member(&self.members, key).is_some()
    }

    /// Sets the value under a key.
    pub fn insert(&mut self, key: &str, value: Json)
        ensures
            final(self)@ == old(self)@.insert(key@, value@),
            old(self).well_formed() ==> final(self).well_formed(),
    {
        let ghost before = members_model(self.members@);
        match find_member(&self.members, key) {
            Some(i) => {
                let name = key.to_owned();
                proof {
                    lemma_members_update(before, i as int, value@);
                }
                self.members.set(i, (name, value));
                proof {
                    let after = members_model(self.members@);
                    assert(after =~= before.update(i as int, (before[i as int].0, value@)));
                    if distinct_keys(before) {
                        assert forall|a: int, b: int| 0 <= a < b < after.len() implies (
                        #[trigger] after[a]).0 != (#[trigger] after[b]).0 by {
                            assert(before[a].0 != before[b].0);
                        }
                    }
                }
            },
            None => {
                self.members.push((key.to_owned(), value));
                proof {
                    let after = members_model(self.members@);
                    assert(after =~= before.push((key@, value@)));
                    assert(after.drop_last() =~= before);
                    if distinct_keys(before) {
                        assert forall|a: int, b: int| 0 <= a < b < after.len() implies (
                        #[trigger] after[a]).0 != (#[trigger] after[b]).0 by {
                            assert(before[a].0 != key@);
                            if b < before.len() {
                                assert(before[a].0 != before[b].0);
                            }
                        }
                    }
                }
            },
        }
    }

    /// The same object with every key once.
    pub fn compact(&self) -> (r: JsonMap)
        ensures
            r@ == self@,
            r.well_formed(),
    {
        let ghost all = members_model(self.members@);
        let mut out = JsonMap::new();
        let mut i: usize = 0;
        assert(all.take(0) =~= Seq::<(Seq<char>, JsonValue)>::empty());
        while i < self.members.len()
            invariant
                i <= self.members.len(),
                all == members_model(self.members@),
                out.well_formed(),
                out@ == members_map(all.take(i as int)),
            decreases self.members.len() - i,
        {
            assert(all.take(i + 1).drop_last() =~= all.take(i as int));
            out.insert(self.members[i].0.as_str(), self.members[i].1.copy());
            i += 1;
        }
        assert(all.take(all.len() as int) =~= all);
        out
    }

    /// An object with the same members.
    pub fn copy(&self) -> (r: JsonMap)
        ensures
            r@ == self@,
            members_model(r.members@) == members_model(self.members@),
            self.well_formed() ==> r.well_formed(),
    {
        let members = copy_members(&self.members);
        JsonMap { members }
    }
}

/// The same members in the same order.
pub fn copy_members(members: &Vec<(String, Json)>) -> (r: Vec<(String, Json)>)
    ensures
        members_model(r@) == members_model(members@),
{
    let mut out: Vec<(String, Json)> = Vec::new();
    let mut i: usize = 0;
    while i < members.len()
        invariant
            i <= members.len(),
            out.len() == i,
            forall|j: int|
                0 <= j < i ==> (#[trigger] out@[j]).0@ == members@[j].0@ && out@[j].1@
                    == members@[j].1@,
        decreases members.len() - i,
    {
        let pair = (members[i].0.clone(), members[i].1.copy());
        out.push(pair);
        i += 1;
    }
    assert(members_model(out@) =~= members_model(members@));
    out
}

/// A JSON document of `serde_json`.
#[verifier::external_type_specification]
#[verifier::external_body]
pub struct ExValue(serde_json::Value);

/// The value that a `serde_json` document holds.
pub uninterp spec fn value_model(value: serde_json::Value) -> JsonValue;

/// How deeply the arrays and objects of a document may be nested.
pub const MAX_DEPTH: usize = 127;

/// The value of a text, if `serde_json` accepts the text as a JSON document.
pub uninterp spec fn parsed_json(text: Seq<char>) -> Option<JsonValue>;

/// Whether a key is one that `serde_json` keeps for itself.
pub open spec fn reserved(key: Seq<char>) -> bool {
    key == "$serde_json::private::RawValue"@ || key == "$serde_json::private::Number"@
}

/// Whether a value is one that `serde_json` writes and reads again without a change: its numbers are whole and
/// written in decimal digits, the members of its objects come in the order of their distinct keys, none of
/// which is reserved, and it is not nested too deeply.
pub open spec fn canonical(value: JsonValue, depth: nat) -> bool
    decreases value,
{
    match value {
        JsonValue::Number(text, whole) => whole matches Some(n) && text == signed_decimal(n as int),
        JsonValue::Array(items) => depth > 0 && forall|i: int|
            0 <= i < items.len() ==> canonical(#[trigger] items[i], (depth - 1) as nat),
        JsonValue::Object(members) => depth > 0 && (forall|i: int|
            0 <= i < members.len() ==> !reserved((#[trigger] members[i]).0) && canonical(
                members[i].1,
                (depth - 1) as nat,
            ))
            && forall|i: int, j: int|
            0 <= i < j < members.len() ==> (#[trigger] members[i]).0 != (#[trigger] members[j]).0
                && text_le(members[i].0, members[j].0),
        _ => true,
    }
}

/// Whether a document is what its text was written from, where that can be read back.
spec fn read_again(text: Seq<char>, document: Option<serde_json::Value>) -> bool {
    forall|v: JsonValue|
        canonical(v, MAX_DEPTH as nat) && text == #[trigger] rendered(v) ==> (
        document matches Some(value) && value_model(value) == v)
}

/// `serde_json::from_str`: what it makes of a text is a function of the text. It reads back what is written in
/// the compact form of a value, up to its limit on nesting.
#[verifier::external_body]
fn read_value(text: &str) -> (r: Option<serde_json::Value>)
    ensures
        match r {
            Some(value) => parsed_json(text@) == Some(value_model(value)),
            None => parsed_json(text@) is None,
        },
        read_again(text@, r),
{
    serde_json::from_str(text).ok()
}

/// One level of a `serde_json` document.
enum Shape {
    Null,
    Bool(bool),
    Number(JsonNumber),
    Text(String),
    Array(Vec<serde_json::Value>),
    Object(Vec<(String, serde_json::Value)>),
}

/// The value of a document whose first level is open.
spec fn shape_model(shape: Shape) -> JsonValue {
    match shape {
        Shape::Null => JsonValue::Null,
        Shape::Bool(b) => JsonValue::Bool(b),
        Shape::Number(n) => JsonValue::Number(n.text@, n.int),
        Shape::Text(s) => JsonValue::Text(s@),
        Shape::Array(items) => JsonValue::Array(
            items@.map_values(|v: serde_json::Value| value_model(v)),
        ),
        Shape::Object(members) => JsonValue::Object(
            members@.map_values(|m: (String, serde_json::Value)| (m.0@, value_model(m.1))),
        ),
    }
}

/// The variants of `serde_json::Value`, told apart: the parts make up the same value. A number is its
/// `Display` text with its `as_i64`, an object the sequence of its members.
#[verifier::external_body]
fn open_value(value: serde_json::Value) -> (r: Shape)
    ensures
        shape_model(r) == value_model(value),
{
    match value {
        serde_json::Value::Null => Shape::Null,
        serde_json::Value::Bool(b) => Shape::Bool(b),
        serde_json::Value::Number(n) => Shape::Number(
            JsonNumber { text: n.to_string(), int: n.as_i64() },
        ),
        serde_json::Value::String(s) => Shape::Text(s),
        serde_json::Value::Array(items) => Shape::Array(items),
        serde_json::Value::Object(members) => Shape::Object(members.into_iter().collect()),
    }
}

fn from_value(value: serde_json::Value) -> (r: Json)
    ensures
        r@ == value_model(value),
    decreases value_model(value),
{
    let ghost whole = value_model(value);
    match open_value(value) {
        Shape::Null => Json::Null,
        Shape::Bool(b) => Json::Bool(b),
        Shape::Number(n) => Json::Number(n),
        Shape::Text(s) => Json::Text(s),
        Shape::Array(items) => {
            let ghost models = whole->Array_0;
            let ghost total = items@.len();
            let mut rest = items;
            let mut reversed: Vec<Json> = Vec::new();
            while rest.len() > 0
                invariant
                    whole == JsonValue::Array(models),
                    whole == value_model(value),
                    models.len() == total,
                    rest@.len() + reversed@.len() == total,
                    forall|j: int|
                        0 <= j < rest@.len() ==> value_model(#[trigger] rest@[j]) == models[j],
                    forall|j: int|
                        0 <= j < reversed@.len() ==> (#[trigger] reversed@[j])@ == models[total - 1
                            - j],
                decreases rest.len(),
            {
                let ghost last = rest@.len() - 1;
                assert(value_model(rest@[last]) == models[last]);
                let item = rest.pop().unwrap();
                assert(decreases_to!(whole => whole->Array_0));
                assert(decreases_to!(models => models[last]));
                reversed.push(from_value(item));
            }
            let mut out: Vec<Json> = Vec::new();
            while reversed.len() > 0
                invariant
                    models.len() == total,
                    out@.len() + reversed@.len() == total,
                    forall|j: int|
                        0 <= j < reversed@.len() ==> (#[trigger] reversed@[j])@ == models[total - 1
                            - j],
                    forall|j: int| 0 <= j < out@.len() ==> (#[trigger] out@[j])@ == models[j],
                decreases reversed.len(),
            {
                let ghost last = reversed@.len() - 1;
                assert(reversed@[last]@ == models[total - 1 - last]);
                out.push(reversed.pop().unwrap());
            }
            let r = Json::Array(out);
            assert(r@->Array_0 =~= models);
            r
        },
        Shape::Object(members) => {
            let ghost models = whole->Object_0;
            let ghost total = members@.len();
            let mut rest = members;
            let mut reversed: Vec<(String, Json)> = Vec::new();
            while rest.len() > 0
                invariant
                    whole == JsonValue::Object(models),
                    whole == value_model(value),
                    models.len() == total,
                    rest@.len() + reversed@.len() == total,
                    forall|j: int|
                        0 <= j < rest@.len() ==> (#[trigger] rest@[j]).0@ == models[j].0
                            && value_model(rest@[j].1) == models[j].1,
                    forall|j: int|
                        0 <= j < reversed@.len() ==> (#[trigger] reversed@[j]).0@ == models[total
                            - 1 - j].0 && reversed@[j].1@ == models[total - 1 - j].1,
                decreases rest.len(),
            {
                let ghost last = rest@.len() - 1;
                assert(value_model(rest@[last].1) == models[last].1);
                let (name, item) = rest.pop().unwrap();
                assert(decreases_to!(whole => whole->Object_0));
                assert(decreases_to!(models => models[last]));
                assert(decreases_to!(models[last] => models[last].1));
                reversed.push((name, from_value(item)));
            }
            let mut out: Vec<(String, Json)> = Vec::new();
            while reversed.len() > 0
                invariant
                    models.len() == total,
                    out@.len() + reversed@.len() == total,
                    forall|j: int|
                        0 <= j < reversed@.len() ==> (#[trigger] reversed@[j]).0@ == models[total
                            - 1 - j].0 && reversed@[j].1@ == models[total - 1 - j].1,
                    forall|j: int|
                        0 <= j < out@.len() ==> (#[trigger] out@[j]).0@ == models[j].0
                            && out@[j].1@ == models[j].1,
                decreases reversed.len(),
            {
                let ghost last = reversed@.len() - 1;
                assert(reversed@[last].0@ == models[total - 1 - last].0);
                out.push(reversed.pop().unwrap());
            }
            let r = Json::Object(out);
            assert(r@->Object_0 =~= models);
            r
        },
    }
}

impl Json {
    /// The document of a text, if the text is one. What [`Json::render`] wrote is read back.
    pub fn parse(text: &str) -> (r: Option<Json>)
        ensures
            match r {
                Some(json) => parsed_json(text@) == Some(json@),
                None => parsed_json(text@) is None,
            },
            forall|v: JsonValue|
                canonical(v, MAX_DEPTH as nat) && text@ == #[trigger] rendered(v) ==> (
                r matches Some(json) && json@ == v),
    {
        match read_value(text) {
            Some(value) => Some(from_value(value)),
            None => None,
        }
    }
}

/// A character inside the quotation marks of a JSON text. Quotation marks, backslashes and control characters
/// are escaped.
pub open spec fn escaped_char(c: char) -> Seq<char> {
    if c == '"' || c == '\\' {
        seq!['\\', c]
    } else if c == '\u{8}' {
        seq!['\\', 'b']
    } else if c == '\t' {
        seq!['\\', 't']
    } else if c == '\n' {
        seq!['\\', 'n']
    } else if c == '\u{c}' {
        seq!['\\', 'f']
    } else if c == '\r' {
        seq!['\\', 'r']
    } else if (c as int) < 32 {
        seq!['\\', 'u', '0', '0', hex_char(c as int / 16), hex_char(c as int % 16)]
    } else {
        seq![c]
    }
}

/// A text inside the quotation marks of a JSON text.
pub open spec fn escaped(text: Seq<char>) -> Seq<char>
    decreases text.len(),
{
    if text.len() == 0 {
        Seq::empty()
    } else {
        escaped(text.drop_last()) + escaped_char(text.last())
    }
}

/// A text as a JSON text.
pub open spec fn json_quoted(text: Seq<char>) -> Seq<char> {
    seq!['"'] + escaped(text) + seq!['"']
}

/// `serde_json::to_string` of a string: the string in quotation marks, with what has to be escaped escaped.
#[verifier::external_body]
fn quoted(text: &str) -> (r: String)
    ensures
        r@ == json_quoted(text@),
{
    serde_json::to_string(text).unwrap_or_default()
}

/// The first `n` items, separated by commas.
pub open spec fn rendered_items(items: Seq<JsonValue>, n: nat) -> Seq<char>
    decreases items, n,
{
    if n == 0 || n > items.len() {
        Seq::empty()
    } else if n == 1 {
        rendered(items[0])
    } else {
        rendered_items(items, (n - 1) as nat) + ","@ + rendered(items[n - 1])
    }
}

/// The first `n` members, separated by commas.
pub open spec fn rendered_members(members: Seq<(Seq<char>, JsonValue)>, n: nat) -> Seq<char>
    decreases members, n,
{
    if n == 0 || n > members.len() {
        Seq::empty()
    } else {
        let m = members[n - 1];
        let text = json_quoted(m.0) + ":"@ + rendered(m.1);
        if n == 1 {
            text
        } else {
            rendered_members(members, (n - 1) as nat) + ","@ + text
        }
    }
}

/// The compact text of a value.
pub open spec fn rendered(value: JsonValue) -> Seq<char>
    decreases value, 0nat,
{
    match value {
        JsonValue::Null => "null"@,
        JsonValue::Bool(b) => if b {
            "true"@
        } else {
            "false"@
        },
        JsonValue::Number(text, _) => text,
        JsonValue::Text(s) => json_quoted(s),
        JsonValue::Array(items) => "["@ + rendered_items(items, items.len()) + "]"@,
        JsonValue::Object(members) => "{"@ + rendered_members(members, members.len()) + "}"@,
    }
}

impl Json {
    /// The compact text of this document.
    pub fn render(&self) -> (r: String)
        ensures
            r@ == rendered(self@),
        decreases *self,
    {
        match self {
            Json::Null => "null".to_owned(),
            Json::Bool(b) => if *b {
                "true".to_owned()
            } else {
                "false".to_owned()
            },
            Json::Number(n) => n.text.clone(),
            Json::Text(s) => quoted(s.as_str()),
            Json::Array(items) => {
                let ghost models = self@->Array_0;
                let mut out = "[".to_owned();
                let mut i: usize = 0;
                assert(out@ =~= "["@ + rendered_items(models, 0));
                while i < items.len()
                    invariant
                        i <= items.len(),
                        *self == Json::Array(*items),
                        self@ == JsonValue::Array(models),
                        models.len() == items.len(),
                        out@ == "["@ + rendered_items(models, i as nat),
                    decreases items.len() - i,
                {
                    assert(decreases_to!(*self => self->Array_0));
                    assert(decreases_to!(self->Array_0 => self->Array_0@));
                    assert(decreases_to!(self->Array_0@ => self->Array_0@[i as int]));
                    let ghost before = out@;
                    if i > 0 {
                        out.append(",");
                    }
                    let item = items[i].render();
                    out.append(item.as_str());
                    i += 1;
                    assert(models[i - 1] == items@[i - 1]@);
                    assert(out@ =~= "["@ + rendered_items(models, i as nat));
                }
                out.append("]");
                out
            },
            Json::Object(members) => {
                let ghost models = self@->Object_0;
                let mut out = "{".to_owned();
                let mut i: usize = 0;
                assert(out@ =~= "{"@ + rendered_members(models, 0));
                while i < members.len()
                    invariant
                        i <= members.len(),
                        *self == Json::Object(*members),
                        self@ == JsonValue::Object(models),
                        models.len() == members.len(),
                        out@ == "{"@ + rendered_members(models, i as nat),
                    decreases members.len() - i,
                {
                    assert(decreases_to!(*self => self->Object_0));
                    assert(decreases_to!(self->Object_0 => self->Object_0@));
                    assert(decreases_to!(self->Object_0@ => self->Object_0@[i as int]));
                    assert(decreases_to!(self->Object_0@[i as int] => self->Object_0@[i as int].1));
                    if i > 0 {
                        out.append(",");
                    }
                    out.append(quoted(members[i].0.as_str()).as_str());
                    out.append(":");
                    let item = members[i].1.render();
                    out.append(item.as_str());
                    i += 1;
                    assert(models[i - 1] == (members@[i - 1].0@, members@[i - 1].1@));
                    assert(out@ =~= "{"@ + rendered_members(models, i as nat));
                }
                out.append("}");
                out
            },
        }
    }
}


/// The name of a value's type.
pub open spec fn kind_name(value: JsonValue) -> Seq<char> {
    match value {
        JsonValue::Null => "null"@,
        JsonValue::Bool(_) => "boolean"@,
        JsonValue::Number(_, _) => "number"@,
        JsonValue::Text(_) => "string"@,
        JsonValue::Array(_) => "array"@,
        JsonValue::Object(_) => "object"@,
    }
}

/// A value as a catalog shows it: a string without its quotation marks, null as nothing, anything else
/// as its compact text.
pub open spec fn shown(value: JsonValue) -> Seq<char> {
    match value {
        JsonValue::Text(s) => s,
        JsonValue::Null => Seq::empty(),
        other => rendered(other),
    }
}

impl Json {
    /// The name of this value's type.
    pub fn value_type(&self) -> (r: &'static str)
        ensures
            r@ == kind_name(self@),
    {
        match self {
            Json::Null => "null",
            Json::Bool(_) => "boolean",
            Json::Number(_) => "number",
            Json::Text(_) => "string",
            Json::Array(_) => "array",
            Json::Object(_) => "object",
        }
    }

    /// This value as a catalog shows it.
    pub fn value_text(&self) -> (r: String)
        ensures
            r@ == shown(self@),
    {
        match self {
            Json::Text(s) => s.clone(),
            Json::Null => String::new(),
            _ => self.render(),
        }
    }
}

} // verus!
