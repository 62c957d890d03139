//! JSON text, parsed by serde_json and brought into `JsonValue`.
use vstd::prelude::*;
use serde_json::Value;
use crate::json::{entries_view, items_view, Json, JsonValue};

verus! {

/// The top level of a parsed JSON text; each element or field value is kept as
/// its own JSON text.
pub enum JsonNode {
    Null,
    Bool(bool),
    UInt(u64),
    NegInt(i64),
    Decimal(String),
    Str(String),
    Array(Vec<String>),
    Object(Vec<(String, String)>),
}

/// The model of a `JsonNode`.
pub ghost enum JsonNodeView {
    Null,
    Bool(bool),
    UInt(nat),
    NegInt(int),
    Decimal(Seq<char>),
    Str(Seq<char>),
    Array(Seq<Seq<char>>),
    Object(Seq<(Seq<char>, Seq<char>)>),
}

impl View for JsonNode {
    type V = JsonNodeView;

    open spec fn view(&self) -> JsonNodeView {
        match self {
            JsonNode::Null => JsonNodeView::Null,
            JsonNode::Bool(b) => JsonNodeView::Bool(*b),
            JsonNode::UInt(n) => JsonNodeView::UInt(*n as nat),
            JsonNode::NegInt(n) => JsonNodeView::NegInt(*n as int),
            JsonNode::Decimal(s) => JsonNodeView::Decimal(s@),
            JsonNode::Str(s) => JsonNodeView::Str(s@),
            JsonNode::Array(items) => JsonNodeView::Array(items@.map_values(|t: String| t@)),
            JsonNode::Object(entries) => JsonNodeView::Object(
                entries@.map_values(|e: (String, String)| (e.0@, e.1@)),
            ),
        }
    }
}

/// What `serde_json::from_str::<Value>` gives for a text, as its top-level node
/// with each child written back as JSON text by `Value`'s `Display`.
pub uninterp spec fn json_node_of(s: Seq<char>) -> Option<JsonNodeView>;

/// Relies on `serde_json::from_str::<Value>` and `Value`'s `Display`: the top level
/// of the JSON value that the text holds, with its children as their JSON text.
#[verifier::external_body]
fn parse_node(s: &str) -> (r: Option<JsonNode>)
    ensures
        match r {
            Some(n) => json_node_of(s@) == Some(n@),
            None => json_node_of(s@) is None,
        },
{
    serde_json::from_str(s).ok().map(|v: Value| match v {
        Value::Null => JsonNode::Null,
        Value::Bool(b) => JsonNode::Bool(b),
        Value::Number(n) => match (n.as_u64(), n.as_i64()) {
            (Some(u), _) => JsonNode::UInt(u),
            (_, Some(i)) => JsonNode::NegInt(i),
            _ => JsonNode::Decimal(n.to_string()),
        },
        Value::String(t) => JsonNode::Str(t),
        Value::Array(a) => JsonNode::Array(a.iter().map(Value::to_string).collect()),
        Value::Object(m) => JsonNode::Object(m.into_iter().map(|(k, x)| (k, x.to_string())).collect()),
    })
}

/// The value that a parsed node stands for, its children brought in at most `fuel`
/// levels deep.
pub open spec fn node_json(node: Option<JsonNodeView>, fuel: nat) -> Option<Json>
    decreases fuel, 0nat,
{
    match node {
        None => None,
        Some(JsonNodeView::Null) => Some(Json::Null),
        Some(JsonNodeView::Bool(b)) => Some(Json::Bool(b)),
        Some(JsonNodeView::UInt(n)) => Some(Json::UInt(n)),
        Some(JsonNodeView::NegInt(n)) => Some(Json::NegInt(n)),
        Some(JsonNodeView::Decimal(t)) => Some(Json::Decimal(t)),
        Some(JsonNodeView::Str(t)) => Some(Json::Str(t)),
        Some(JsonNodeView::Array(children)) => if fuel == 0 {
            None
        } else {
            match texts_json(children, (fuel - 1) as nat) {
                Some(l) => Some(Json::Array(l)),
                None => None,
            }
        },
        Some(JsonNodeView::Object(entries)) => if fuel == 0 {
            None
        } else {
            match texts_json(
                entries.map_values(|e: (Seq<char>, Seq<char>)| e.1),
                (fuel - 1) as nat,
            ) {
                Some(l) => Some(Json::Object(Seq::new(entries.len(), |i: int| (entries[i].0, l[i])))),
                None => None,
            }
        },
    }
}

/// The values that a list of JSON texts holds, going at most `fuel` levels into
/// arrays and objects; `None` where one of them holds none.
pub open spec fn texts_json(ts: Seq<Seq<char>>, fuel: nat) -> Option<Seq<Json>>
    decreases fuel, ts.len(),
{
    if ts.len() == 0 {
        Some(Seq::empty())
    } else {
        match texts_json(ts.drop_last(), fuel) {
            None => None,
            Some(done) => match node_json(json_node_of(ts.last()), fuel) {
                Some(x) => Some(done.push(x)),
                None => None,
            },
        }
    }
}

/// The value that a JSON text holds, going at most `fuel` levels deep.
pub open spec fn json_of_text(s: Seq<char>, fuel: nat) -> Option<Json> {
    match texts_json(seq![s], fuel) {
        Some(l) => Some(l[0]),
        None => None,
    }
}

proof fn lemma_texts_json_len(ts: Seq<Seq<char>>, fuel: nat)
    ensures
        texts_json(ts, fuel) matches Some(l) ==> l.len() == ts.len(),
    decreases ts.len(),
{
    if ts.len() > 0 {
        lemma_texts_json_len(ts.drop_last(), fuel);
    }
}

/// Extending a list of texts by one extends its values by the value of that text.
proof fn lemma_texts_json_push(ts: Seq<Seq<char>>, t: Seq<char>, fuel: nat)
    ensures
        texts_json(ts.push(t), fuel) == match (texts_json(ts, fuel), json_of_text(t, fuel)) {
            (Some(a), Some(x)) => Some(a.push(x)),
            _ => None::<Seq<Json>>,
        },
{
    let one = seq![t];
    assert(one.drop_last() =~= Seq::<Seq<char>>::empty());
    assert(one.last() == t);
    assert(ts.push(t).drop_last() =~= ts);
    assert(ts.push(t).last() == t);
    assert(texts_json(Seq::<Seq<char>>::empty(), fuel) == Some(Seq::<Json>::empty()));
    assert(texts_json(one, fuel) == match node_json(json_node_of(t), fuel) {
        Some(x) => Some(Seq::<Json>::empty().push(x)),
        None => None::<Seq<Json>>,
    });
    assert(texts_json(ts.push(t), fuel) == match texts_json(ts, fuel) {
        Some(d) => match node_json(json_node_of(t), fuel) {
            Some(x) => Some(d.push(x)),
            None => None::<Seq<Json>>,
        },
        None => None::<Seq<Json>>,
    });
    if let Some(x) = node_json(json_node_of(t), fuel) {
        assert(Seq::<Json>::empty().push(x)[0] == x);
    }
}

/// The value of a JSON text is the value of its parsed node.
proof fn lemma_json_of_text(s: Seq<char>, fuel: nat)
    ensures
        json_of_text(s, fuel) == node_json(json_node_of(s), fuel),
{
    let one = seq![s];
    assert(one.drop_last() =~= Seq::<Seq<char>>::empty());
    assert(one.last() == s);
    assert(texts_json(Seq::<Seq<char>>::empty(), fuel) == Some(Seq::<Json>::empty()));
    if let Some(x) = node_json(json_node_of(s), fuel) {
        assert(Seq::<Json>::empty().push(x)[0] == x);
    }
}

/// The value that a JSON text holds, going at most `depth` levels deep.
fn from_text(s: &str, depth: usize) -> (r: Option<JsonValue>)
    ensures
        match r {
            Some(v) => json_of_text(s@, depth as nat) == Some(v@),
            None => json_of_text(s@, depth as nat) is None,
        },
    decreases depth,
{
    proof {
        lemma_json_of_text(s@, depth as nat);
    }
    let node = match parse_node(s) {
        Some(n) => n,
        None => {
            return None;
        },
    };
    let ghost nv = node@;
    match node {
        JsonNode::Null => Some(JsonValue::Null),
        JsonNode::Bool(b) => Some(JsonValue::Bool(b)),
        JsonNode::UInt(n) => Some(JsonValue::UInt(n)),
        JsonNode::NegInt(n) => Some(JsonValue::NegInt(n)),
        JsonNode::Decimal(t) => Some(JsonValue::Decimal(t)),
        JsonNode::Str(t) => Some(JsonValue::Str(t)),
        JsonNode::Array(children) => {
            if depth == 0 {
                return None;
            }
            let ghost cv = children@.map_values(|t: String| t@);
            let mut out: Vec<JsonValue> = Vec::new();
            let mut i: usize = 0;
            assert(cv.subrange(0, 0) =~= Seq::<Seq<char>>::empty());
            while i < children.len()
                invariant
                    0 < depth,
                    nv == JsonNodeView::Array(cv),
                    json_of_text(s@, depth as nat) == node_json(Some(nv), depth as nat),
                    cv == children@.map_values(|t: String| t@),
                    i <= children@.len(),
                    out@.len() == i,
                    texts_json(cv.subrange(0, i as int), (depth - 1) as nat) == Some(items_view(out@)),
                decreases children@.len() - i,
            {
                proof {
                    lemma_texts_json_push(cv.subrange(0, i as int), cv[i as int], (depth - 1) as nat);
                    assert(cv.subrange(0, i as int).push(cv[i as int]) =~= cv.subrange(0, i + 1));
                }
                let ghost before = items_view(out@);
                match from_text(children[i].as_str(), depth - 1) {
                    Some(x) => {
                        out.push(x);
                        assert(items_view(out@) =~= before.push(out@[i as int]@));
                    },
                    None => {
                        proof {
                            lemma_none_stays(cv, (depth - 1) as nat, i as int + 1);
                        }
                        return None;
                    },
                }
                i = i + 1;
            }
            assert(cv.subrange(0, i as int) =~= cv);
            Some(JsonValue::Array(out))
        },
        JsonNode::Object(entries) => {
            if depth == 0 {
                return None;
            }
            let ghost ev = entries@.map_values(|e: (String, String)| (e.0@, e.1@));
            let ghost vt = ev.map_values(|e: (Seq<char>, Seq<char>)| e.1);
            let mut out: Vec<(String, JsonValue)> = Vec::new();
            let mut vals: Vec<JsonValue> = Vec::new();
            let mut i: usize = 0;
            assert(vt.subrange(0, 0) =~= Seq::<Seq<char>>::empty());
            while i < entries.len()
                invariant
                    0 < depth,
                    nv == JsonNodeView::Object(ev),
                    json_of_text(s@, depth as nat) == node_json(Some(nv), depth as nat),
                    ev == entries@.map_values(|e: (String, String)| (e.0@, e.1@)),
                    vt == ev.map_values(|e: (Seq<char>, Seq<char>)| e.1),
                    i <= entries@.len(),
                    out@.len() == i,
                    vals@.len() == i,
                    forall|k: int| 0 <= k < i ==> (#[trigger] out@[k]).0@ == ev[k].0 && out@[k].1@ == vals@[k]@,
                    texts_json(vt.subrange(0, i as int), (depth - 1) as nat) == Some(items_view(vals@)),
                decreases entries@.len() - i,
            {
                proof {
                    lemma_texts_json_push(vt.subrange(0, i as int), vt[i as int], (depth - 1) as nat);
                    assert(vt.subrange(0, i as int).push(vt[i as int]) =~= vt.subrange(0, i + 1));
                }
                let ghost before = items_view(vals@);
                match from_text(entries[i].1.as_str(), depth - 1) {
                    Some(x) => {
                        let y = x.duplicate();
                        vals.push(x);
                        out.push((entries[i].0.clone(), y));
                        assert(items_view(vals@) =~= before.push(vals@[i as int]@));
                    },
                    None => {
                        proof {
                            lemma_none_stays(vt, (depth - 1) as nat, i as int + 1);
                        }
                        return None;
                    },
                }
                i = i + 1;
            }
            assert(vt.subrange(0, i as int) =~= vt);
            proof {
                let l = items_view(vals@);
                assert(entries_view(out@) =~= Seq::new(ev.len(), |k: int| (ev[k].0, l[k])));
            }
            Some(JsonValue::Object(out))
        },
    }
}

proof fn lemma_none_stays(ts: Seq<Seq<char>>, fuel: nat, i: int)
    requires
        0 <= i <= ts.len(),
        texts_json(ts.subrange(0, i), fuel) is None,
    ensures
        texts_json(ts, fuel) is None,
    decreases ts.len() - i,
{
    if i < ts.len() {
        let q = ts.subrange(0, i + 1);
        assert(q.drop_last() =~= ts.subrange(0, i));
        lemma_none_stays(ts, fuel, i + 1);
    } else {
        assert(ts.subrange(0, i) =~= ts);
    }
}

/// How deep a JSON text given as data is brought into `JsonValue`; serde_json
/// itself refuses texts nested deeper than 128.
pub const JSON_TEXT_NESTING: usize = 130;

/// The value that a JSON text holds, or `None` where it holds none.
pub fn parse_json_text(s: &str) -> (r: Option<JsonValue>)
    ensures
        match r {
            Some(v) => json_of_text(s@, JSON_TEXT_NESTING as nat) == Some(v@),
            None => json_of_text(s@, JSON_TEXT_NESTING as nat) is None,
        },
{
    from_text(s, JSON_TEXT_NESTING)
}

} // verus!
