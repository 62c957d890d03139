//! A JSON value as the templates hold it, and its mathematical model.
use vstd::prelude::*;
use crate::text::{chars_of, same_text, string_of};

verus! {

/// The model of a JSON value. An object is an ordered list of entries; a key
/// names the first entry that carries it.
pub ghost enum Json {
    Null,
    Bool(bool),
    UInt(nat),
    NegInt(int),
    Decimal(Seq<char>),
    Str(Seq<char>),
    Array(Seq<Json>),
    Object(Seq<(Seq<char>, Json)>),
}

/// A JSON value. Non-negative integers are `UInt`, negative ones `NegInt`; any
/// other number is kept as its decimal text in `Decimal`.
#[derive(Debug, PartialEq)]
pub enum JsonValue {
    Null,
    Bool(bool),
    UInt(u64),
    NegInt(i64),
    Decimal(String),
    Str(String),
    Array(Vec<JsonValue>),
    Object(Vec<(String, JsonValue)>),
}

pub open spec fn items_view(items: Seq<JsonValue>) -> Seq<Json>
    decreases items,
{
    Seq::new(items.len(), |i: int| if 0 <= i < items.len() { items[i].view() } else { Json::Null })
}

pub open spec fn entries_view(entries: Seq<(String, JsonValue)>) -> Seq<(Seq<char>, Json)>
    decreases entries,
{
    Seq::new(
        entries.len(),
        |i: int|
            if 0 <= i < entries.len() {
                (entries[i].0@, entries[i].1.view())
            } else {
                (Seq::empty(), Json::Null)
            },
    )
}

impl View for JsonValue {
    type V = Json;

    open spec fn view(&self) -> Json
        decreases self,
    {
        match self {
            JsonValue::Null => Json::Null,
            JsonValue::Bool(b) => Json::Bool(*b),
            JsonValue::UInt(n) => Json::UInt(*n as nat),
            JsonValue::NegInt(n) => Json::NegInt(*n as int),
            JsonValue::Decimal(s) => Json::Decimal(s@),
            JsonValue::Str(s) => Json::Str(s@),
            JsonValue::Array(items) => Json::Array(items_view(items@)),
            JsonValue::Object(entries) => Json::Object(entries_view(entries@)),
        }
    }
}

/// The value of the first entry named `key`.
pub open spec fn lookup(entries: Seq<(Seq<char>, Json)>, key: Seq<char>) -> Option<Json>
    decreases entries.len(),
{
    if entries.len() == 0 {
        None
    } else if entries[0].0 == key {
        Some(entries[0].1)
    } else {
        lookup(entries.drop_first(), key)
    }
}

/// The field `key` of an object; `None` for anything else.
pub open spec fn field(v: Json, key: Seq<char>) -> Option<Json> {
    match v {
        Json::Object(entries) => lookup(entries, key),
        _ => None,
    }
}

/// The text of a field that holds a string.
pub open spec fn str_field(v: Json, key: Seq<char>) -> Option<Seq<char>> {
    match field(v, key) {
        Some(Json::Str(s)) => Some(s),
        _ => None,
    }
}

/// The number in a field that holds a non-negative integer.
pub open spec fn uint_field(v: Json, key: Seq<char>) -> Option<nat> {
    match field(v, key) {
        Some(Json::UInt(n)) => Some(n),
        _ => None,
    }
}

/// The entries with the first one named `key` given `value`, or with a new entry
/// at the end where none is named `key`.
pub open spec fn set_entry(entries: Seq<(Seq<char>, Json)>, key: Seq<char>, value: Json) -> Seq<
    (Seq<char>, Json),
>
    decreases entries.len(),
{
    if entries.len() == 0 {
        seq![(key, value)]
    } else if entries[0].0 == key {
        entries.update(0, (key, value))
    } else {
        seq![entries[0]] + set_entry(entries.drop_first(), key, value)
    }
}

pub proof fn lemma_lookup_set_entry(
    entries: Seq<(Seq<char>, Json)>,
    key: Seq<char>,
    value: Json,
    other: Seq<char>,
)
    ensures
        lookup(set_entry(entries, key, value), key) == Some(value),
        other != key ==> lookup(set_entry(entries, key, value), other) == lookup(entries, other),
    decreases entries.len(),
{
    let r = set_entry(entries, key, value);
    if entries.len() == 0 {
        assert(r[0] == (key, value));
        assert(r.drop_first() =~= Seq::<(Seq<char>, Json)>::empty());
        assert(lookup(r.drop_first(), other) == None::<Json>);
    } else if entries[0].0 == key {
        assert(r.drop_first() =~= entries.drop_first());
        assert(r[0] == (key, value));
    } else {
        lemma_lookup_set_entry(entries.drop_first(), key, value, other);
        assert(r.drop_first() =~= set_entry(entries.drop_first(), key, value));
        assert(r[0] == entries[0]);
    }
}

/// Setting a key to the value it already has changes nothing.
pub proof fn lemma_set_entry_same(entries: Seq<(Seq<char>, Json)>, key: Seq<char>, value: Json)
    requires
        lookup(entries, key) == Some(value),
    ensures
        set_entry(entries, key, value) == entries,
    decreases entries.len(),
{
    if entries.len() > 0 {
        if entries[0].0 == key {
            assert(entries.update(0, (key, value)) =~= entries);
        } else {
            lemma_set_entry_same(entries.drop_first(), key, value);
            assert(seq![entries[0]] + entries.drop_first() =~= entries);
        }
    }
}

/// A key and its value, as an object entry.
pub fn entry(key: &str, value: JsonValue) -> (r: (String, JsonValue))
    ensures
        r.0@ == key@,
        r.1@ == value@,
{
    (string_of(&chars_of(key)), value)
}

/// A string value.
pub fn json_str(s: &str) -> (r: JsonValue)
    ensures
        r@ == Json::Str(s@),
{
    let cs = crate::text::chars_of(s);
    JsonValue::Str(string_of(&cs))
}

impl JsonValue {
    /// A copy of this value.
    pub fn duplicate(&self) -> (r: JsonValue)
        ensures
            r@ == self@,
        decreases self@,
    {
        match self {
            JsonValue::Null => JsonValue::Null,
            JsonValue::Bool(b) => JsonValue::Bool(*b),
            JsonValue::UInt(n) => JsonValue::UInt(*n),
            JsonValue::NegInt(n) => JsonValue::NegInt(*n),
            JsonValue::Decimal(s) => JsonValue::Decimal(s.clone()),
            JsonValue::Str(s) => JsonValue::Str(s.clone()),
            JsonValue::Array(items) => {
                let mut out: Vec<JsonValue> = Vec::new();
                let mut i: usize = 0;
                while i < items.len()
                    invariant
                        self@ == Json::Array(items_view(items@)),
                        i <= items@.len(),
                        out@.len() == i,
                        forall|j: int| 0 <= j < i ==> #[trigger] out@[j]@ == items@[j]@,
                    decreases items@.len() - i,
                {
                    proof {
                        let s = items_view(items@);
                        assert(s[i as int] == items@[i as int]@);
                        let j = self@;
                        assert(j->Array_0 == s);
                        assert(decreases_to!(j => j->Array_0));
                        assert(decreases_to!(s => s[i as int]));
                    }
                    out.push(items[i].duplicate());
                    i = i + 1;
                }
                assert forall|j: int| 0 <= j < out@.len() implies items_view(out@)[j] == items_view(
                    items@,
                )[j] by {
                    assert(out@[j]@ == items@[j]@);
                }
                assert(items_view(out@) =~= items_view(items@));
                JsonValue::Array(out)
            },
            JsonValue::Object(entries) => {
                let mut out: Vec<(String, JsonValue)> = Vec::new();
                let mut i: usize = 0;
                while i < entries.len()
                    invariant
                        self@ == Json::Object(entries_view(entries@)),
                        i <= entries@.len(),
                        out@.len() == i,
                        forall|j: int|
                            0 <= j < i ==> (#[trigger] out@[j]).0@ == entries@[j].0@ && out@[j].1@
                                == entries@[j].1@,
                    decreases entries@.len() - i,
                {
                    proof {
                        let s = entries_view(entries@);
                        assert(s[i as int] == (entries@[i as int].0@, entries@[i as int].1@));
                        let j = self@;
                        assert(j->Object_0 == s);
                        assert(decreases_to!(j => j->Object_0));
                        assert(decreases_to!(s => s[i as int]));
                        assert(decreases_to!(s[i as int] => s[i as int].1));
                    }
                    let v = entries[i].1.duplicate();
                    out.push((entries[i].0.clone(), v));
                    i = i + 1;
                }
                assert forall|j: int| 0 <= j < out@.len() implies entries_view(out@)[j]
                    == entries_view(entries@)[j] by {
                    assert(out@[j].0@ == entries@[j].0@ && out@[j].1@ == entries@[j].1@);
                }
                assert(entries_view(out@) =~= entries_view(entries@));
                JsonValue::Object(out)
            },
        }
    }

    /// The text of a string value.
    pub fn as_text(&self) -> (r: Option<&String>)
        ensures
            match self@ {
                Json::Str(s) => r is Some && r->0@ == s,
                _ => r is None,
            },
    {
        match self {
            JsonValue::Str(s) => Some(s),
            _ => None,
        }
    }

    /// The field `key` of an object value.
    pub fn get_field(&self, key: &str) -> (r: Option<&JsonValue>)
        ensures
            match r {
                Some(x) => field(self@, key@) == Some(x@),
                None => field(self@, key@) is None,
            },
    {
        match self {
            JsonValue::Object(entries) => {
                let mut i: usize = 0;
                assert(entries_view(entries@).skip(0) =~= entries_view(entries@));
                while i < entries.len()
                    invariant
                        self@ == Json::Object(entries_view(entries@)),
                        i <= entries@.len(),
                        lookup(entries_view(entries@), key@) == lookup(
                            entries_view(entries@).skip(i as int),
                            key@,
                        ),
                    decreases entries@.len() - i,
                {
                    let ghost rest = entries_view(entries@).skip(i as int);
                    assert(rest[0] == (entries@[i as int].0@, entries@[i as int].1@));
                    if same_text(entries[i].0.as_str(), key) {
                        return Some(&entries[i].1);
                    }
                    assert(rest.drop_first() =~= entries_view(entries@).skip(i + 1));
                    i = i + 1;
                }
                None
            },
            _ => None,
        }
    }

    /// The text of the string field `key`.
    pub fn get_str(&self, key: &str) -> (r: Option<&String>)
        ensures
            match r {
                Some(s) => str_field(self@, key@) == Some(s@),
                None => str_field(self@, key@) is None,
            },
    {
        match self.get_field(key) {
            Some(v) => v.as_text(),
            None => None,
        }
    }

    /// The number in the non-negative integer field `key`.
    pub fn get_uint(&self, key: &str) -> (r: Option<u64>)
        ensures
            match r {
                Some(n) => uint_field(self@, key@) == Some(n as nat),
                None => uint_field(self@, key@) is None,
            },
    {
        match self.get_field(key) {
            Some(JsonValue::UInt(n)) => Some(*n),
            _ => None,
        }
    }
}

/// Gives the first entry named `key` the value `value`, or appends the entry.
pub fn set_field(entries: &mut Vec<(String, JsonValue)>, key: &str, value: JsonValue)
    ensures
        entries_view(final(entries)@) == set_entry(entries_view(old(entries)@), key@, value@),
{
    let ghost start = entries_view(entries@);
    let mut i: usize = 0;
    while i < entries.len()
        invariant
            entries@ == old(entries)@,
            start == entries_view(entries@),
            i <= entries@.len(),
            forall|j: int| 0 <= j < i ==> start[j].0 != key@,
        decreases entries@.len() - i,
    {
        assert(start[i as int] == (entries@[i as int].0@, entries@[i as int].1@));
        if same_text(entries[i].0.as_str(), key) {
            let ghost before = entries@;
            let k = entries[i].0.clone();
            entries.set(i, (k, value));
            proof {
                lemma_set_entry_at(start, i as int, key@, value@);
                assert(entries_view(entries@) =~= start.update(i as int, (key@, value@)));
            }
            return ;
        }
        i = i + 1;
    }
    let k = string_of(&crate::text::chars_of(key));
    entries.push((k, value));
    proof {
        lemma_set_entry_absent(start, key@, value@);
        assert(entries_view(entries@) =~= start.push((key@, value@)));
    }
}

proof fn lemma_set_entry_at(entries: Seq<(Seq<char>, Json)>, i: int, key: Seq<char>, value: Json)
    requires
        0 <= i < entries.len(),
        entries[i].0 == key,
        forall|j: int| 0 <= j < i ==> entries[j].0 != key,
    ensures
        set_entry(entries, key, value) == entries.update(i, (key, value)),
    decreases i,
{
    if i > 0 {
        lemma_set_entry_at(entries.drop_first(), i - 1, key, value);
        assert(seq![entries[0]] + entries.drop_first().update(i - 1, (key, value)) =~= entries.update(
            i,
            (key, value),
        ));
    }
}

proof fn lemma_set_entry_absent(entries: Seq<(Seq<char>, Json)>, key: Seq<char>, value: Json)
    requires
        forall|j: int| 0 <= j < entries.len() ==> entries[j].0 != key,
    ensures
        set_entry(entries, key, value) == entries.push((key, value)),
    decreases entries.len(),
{
    if entries.len() > 0 {
        lemma_set_entry_absent(entries.drop_first(), key, value);
        assert(seq![entries[0]] + entries.drop_first().push((key, value)) =~= entries.push(
            (key, value),
        ));
    }
}

} // verus!
