//! The packer: a JSON typed value to the bytes a program expects.
use vstd::prelude::*;
use crate::address::{descriptor_address, parse_pubkey, address_bytes};
use crate::encoding::{decode_base64, decode_hex, base64_decoded, hex_decoded, le_bytes, write_le};
use crate::error::TemplateError;
use crate::json::{field, lookup, str_field, Json, JsonValue};
use crate::jsontext::{json_of_text, parse_json_text, JSON_TEXT_NESTING};
use crate::params::{resolve, resolve_value, texts};
use crate::text::{chars_of, has_prefix, i64_text_value, parse_i64_text, parse_u64_text, same_text, string_of_range, u64_text_value};

verus! {

/// The characters that `char::is_whitespace` accepts (Unicode `White_Space`).
pub open spec fn is_space(c: char) -> bool {
    ('\u{9}' <= c && c <= '\u{d}') || c == ' ' || c == '\u{85}' || c == '\u{a0}' || c == '\u{1680}'
        || ('\u{2000}' <= c && c <= '\u{200a}') || c == '\u{2028}' || c == '\u{2029}' || c
        == '\u{202f}' || c == '\u{205f}' || c == '\u{3000}'
}

/// Whether the first character that is not white space opens a JSON array or object.
pub open spec fn looks_like_json(s: Seq<char>) -> bool {
    exists|k: int|
        0 <= k < s.len() && (forall|j: int| 0 <= j < k ==> is_space(#[trigger] s[j])) && (s[k] == '['
            || s[k] == '{')
}

/// The unsigned number that a data value holds: a number, a decimal text, or a boolean.
pub open spec fn uint_of(v: Json) -> Result<u64, TemplateError> {
    match v {
        Json::UInt(n) => if n <= u64::MAX {
            Ok(n as u64)
        } else {
            Err(TemplateError::InvalidValue)
        },
        Json::Str(s) => match u64_text_value(s) {
            Some(n) => Ok(n),
            None => Err(TemplateError::InvalidValue),
        },
        Json::Bool(b) => Ok(if b { 1 } else { 0 }),
        _ => Err(TemplateError::InvalidValue),
    }
}

/// The byte that an entry of a byte array stands for: its integer value modulo 256.
pub open spec fn entry_byte(v: Json) -> Result<u8, TemplateError> {
    match v {
        Json::UInt(n) => if n <= i64::MAX {
            Ok((n % 256) as u8)
        } else {
            Err(TemplateError::InvalidValue)
        },
        Json::NegInt(n) => if n >= i64::MIN {
            Ok((n % 256) as u8)
        } else {
            Err(TemplateError::InvalidValue)
        },
        Json::Str(s) => match i64_text_value(s) {
            Some(n) => Ok((n % 256) as u8),
            None => Err(TemplateError::InvalidValue),
        },
        Json::Bool(b) => Ok(if b { 1u8 } else { 0u8 }),
        _ => Err(TemplateError::InvalidValue),
    }
}

/// The bytes that string data denotes: hex after a `0x` prefix, base64 otherwise.
pub open spec fn string_bytes(s: Seq<char>) -> Result<Seq<u8>, TemplateError> {
    if s.len() >= 2 && s[0] == '0' && s[1] == 'x' {
        match hex_decoded(s.subrange(2, s.len() as int)) {
            Some(b) => Ok(b),
            None => Err(TemplateError::InvalidEncoding),
        }
    } else {
        match base64_decoded(s) {
            Some(b) => Ok(b),
            None => Err(TemplateError::InvalidEncoding),
        }
    }
}

/// The bytes of an array of entries, each resolved and taken modulo 256.
pub open spec fn array_bytes(items: Seq<Json>, params: Seq<Seq<char>>) -> Result<
    Seq<u8>,
    TemplateError,
>
    decreases items.len(),
{
    if items.len() == 0 {
        Ok(Seq::empty())
    } else {
        match array_bytes(items.drop_last(), params) {
            Ok(a) => match entry_byte(resolve(items.last(), params)) {
                Ok(b) => Ok(a.push(b)),
                Err(e) => Err(e),
            },
            Err(e) => Err(e),
        }
    }
}

/// The width in bytes of an unsigned integer tag.
pub open spec fn int_width(kind: Seq<char>) -> Option<nat> {
    if kind == "u8"@ {
        Some(1)
    } else if kind == "u16"@ {
        Some(2)
    } else if kind == "u32"@ {
        Some(4)
    } else if kind == "u64"@ {
        Some(8)
    } else {
        None
    }
}

/// The type tags are distinct texts.
pub proof fn lemma_kinds_distinct()
    ensures
        int_width("boolean"@) is None,
        int_width("pubkey"@) is None,
        int_width("bytes"@) is None,
        int_width("string"@) is None,
        int_width("object"@) is None,
        "boolean"@ != "pubkey"@,
        "boolean"@ != "bytes"@,
        "boolean"@ != "string"@,
        "boolean"@ != "object"@,
        "pubkey"@ != "bytes"@,
        "pubkey"@ != "string"@,
        "pubkey"@ != "object"@,
        "bytes"@ != "string"@,
        "bytes"@ != "object"@,
        "string"@ != "object"@,
        int_width("u8"@) == Some(1nat),
        int_width("u16"@) == Some(2nat),
        int_width("u32"@) == Some(4nat),
        int_width("u64"@) == Some(8nat),
{
    reveal_strlit("u8");
    reveal_strlit("u16");
    reveal_strlit("u32");
    reveal_strlit("u64");
    reveal_strlit("boolean");
    reveal_strlit("pubkey");
    reveal_strlit("bytes");
    reveal_strlit("string");
    reveal_strlit("object");
    assert("u8"@[0] == 'u');
    assert("u16"@[1] != "u32"@[1] && "u16"@[1] != "u64"@[1] && "u32"@[1] != "u64"@[1]);
    assert("u8"@.len() != "u16"@.len());
    assert("boolean"@[0] != 'u' && "pubkey"@[0] != 'u' && "bytes"@[0] != 'u' && "string"@[0] != 'u'
        && "object"@[0] != 'u');
    assert("boolean"@[1] != "bytes"@[1]);
    assert("boolean"@[0] != "pubkey"@[0] && "boolean"@[0] != "string"@[0] && "boolean"@[0]
        != "object"@[0]);
    assert("pubkey"@[0] != "bytes"@[0] && "pubkey"@[0] != "string"@[0] && "pubkey"@[0]
        != "object"@[0]);
    assert("bytes"@[0] != "string"@[0] && "bytes"@[0] != "object"@[0]);
    assert("string"@[0] != "object"@[0]);
}

pub proof fn lemma_lookup_smaller(entries: Seq<(Seq<char>, Json)>, key: Seq<char>)
    ensures
        lookup(entries, key) matches Some(v) ==> decreases_to!(entries => v),
    decreases entries.len(),
{
    if entries.len() > 0 {
        if entries[0].0 == key {
            assert(decreases_to!(entries => entries[0]));
            assert(decreases_to!(entries[0] => entries[0].1));
        } else {
            lemma_lookup_smaller(entries.drop_first(), key);
            assert(decreases_to!(entries => entries.drop_first()));
        }
    }
}

/// The value of the `data` field of an object is smaller than the object.
pub proof fn lemma_data_smaller(v: Json)
    ensures
        field(v, "data"@) matches Some(d) ==> decreases_to!(v => d),
        field(v, "data"@) matches Some(Json::Array(l)) ==> decreases_to!(v => l),
{
    if let Json::Object(entries) = v {
        assert(decreases_to!(v => v->Object_0));
        lemma_lookup_smaller(entries, "data"@);
        if let Some(d) = lookup(entries, "data"@) {
            if let Json::Array(l) = d {
                assert(decreases_to!(d => d->Array_0));
            }
        }
    }
}

#[via_fn]
proof fn pack_at_decreases(v: Json, params: Seq<Seq<char>>, fuel: nat) {
    lemma_data_smaller(v);
}

/// The bytes that a typed value packs to, or why it packs to none; object data
/// given as JSON text is parsed and packed with `fuel` one less, and not at all
/// without fuel.
pub open spec fn pack_at(v: Json, params: Seq<Seq<char>>, fuel: nat) -> Result<Seq<u8>, TemplateError>
    decreases fuel, v via pack_at_decreases
{
    match resolve(v, params) {
        Json::Null => Ok(Seq::empty()),
        Json::Bool(b) => Ok(seq![if b { 1u8 } else { 0u8 }]),
        Json::UInt(n) => Ok(Seq::new(n, |i: int| 0u8)),
        Json::Str(s) => string_bytes(s),
        Json::Array(items) => array_bytes(items, params),
        Json::Object(entries) => match str_field(v, "type"@) {
            None => Err(TemplateError::MissingField),
            Some(kind) => match field(v, "data"@) {
                None => if int_width(kind) is Some || kind == "pubkey"@ || kind == "string"@ || kind
                    == "bytes"@ || kind == "object"@ {
                    Err(TemplateError::MissingField)
                } else {
                    Err(TemplateError::UnsupportedType)
                },
                Some(d) => if int_width(kind) is Some {
                    match uint_of(resolve(d, params)) {
                        Ok(n) => Ok(le_bytes(n as nat, int_width(kind)->0)),
                        Err(e) => Err(e),
                    }
                } else if kind == "pubkey"@ {
                    descriptor_address(d, params)
                } else if kind == "string"@ || kind == "bytes"@ {
                    pack_at(d, params, fuel)
                } else if kind == "object"@ {
                    match d {
                        Json::Array(list) => pack_list_at(list, params, fuel),
                        _ => match resolve(d, params) {
                            Json::Str(t) => if fuel > 0 && looks_like_json(t) {
                                match json_of_text(t, JSON_TEXT_NESTING as nat) {
                                    Some(Json::Array(list)) => pack_list_at(list, params, (fuel - 1) as nat),
                                    _ => Err(TemplateError::InvalidValue),
                                }
                            } else {
                                Err(TemplateError::InvalidValue)
                            },
                            _ => Err(TemplateError::InvalidValue),
                        },
                    }
                } else {
                    Err(TemplateError::UnsupportedType)
                },
            },
        },
        _ => Err(TemplateError::InvalidValue),
    }
}

/// The concatenated bytes of a list of typed values, or the first failure.
pub open spec fn pack_list_at(items: Seq<Json>, params: Seq<Seq<char>>, fuel: nat) -> Result<
    Seq<u8>,
    TemplateError,
>
    decreases fuel, items,
{
    if items.len() == 0 {
        Ok(Seq::empty())
    } else {
        match pack_list_at(items.drop_last(), params, fuel) {
            Ok(a) => match pack_at(items.last(), params, fuel) {
                Ok(b) => Ok(a + b),
                Err(e) => Err(e),
            },
            Err(e) => Err(e),
        }
    }
}

/// The bytes that a typed value packs to, JSON text given as object data nesting
/// further JSON text at most `JSON_TEXT_DEPTH` deep.
pub open spec fn pack_spec(v: Json, params: Seq<Seq<char>>) -> Result<Seq<u8>, TemplateError> {
    pack_at(v, params, JSON_TEXT_DEPTH as nat)
}

/// The concatenated bytes of a list of typed values, or the first failure.
pub open spec fn pack_list_spec(items: Seq<Json>, params: Seq<Seq<char>>) -> Result<
    Seq<u8>,
    TemplateError,
> {
    pack_list_at(items, params, JSON_TEXT_DEPTH as nat)
}

/// Whether the first character of `s` that is not white space is `[` or `{`.
pub fn starts_like_json(s: &str) -> (r: bool)
    ensures
        r == looks_like_json(s@),
{
    let cs = chars_of(s);
    let mut k: usize = 0;
    while k < cs.len()
        invariant
            cs@ == s@,
            k <= cs@.len(),
            forall|j: int| 0 <= j < k ==> is_space(#[trigger] cs@[j]),
        decreases cs@.len() - k,
    {
        let c = cs[k];
        let space = ('\u{9}' <= c && c <= '\u{d}') || c == ' ' || c == '\u{85}' || c == '\u{a0}'
            || c == '\u{1680}' || ('\u{2000}' <= c && c <= '\u{200a}') || c == '\u{2028}' || c
            == '\u{2029}' || c == '\u{202f}' || c == '\u{205f}' || c == '\u{3000}';
        if !space {
            if c == '[' || c == '{' {
                return true;
            }
            assert forall|m: int|
                0 <= m < s@.len() && (forall|j: int| 0 <= j < m ==> is_space(#[trigger] s@[j]))
                    implies !(s@[m] == '[' || s@[m] == '{') by {
                if m > k {
                    assert(is_space(s@[k as int]));
                }
            }
            return false;
        }
        k = k + 1;
    }
    false
}

/// The number that a data value holds.
pub fn parse_u64(value: &JsonValue) -> (r: Result<u64, TemplateError>)
    ensures
        match r {
            Ok(n) => uint_of(value@) == Ok::<u64, TemplateError>(n),
            Err(e) => uint_of(value@) == Err::<u64, TemplateError>(e),
        },
{
    match value {
        JsonValue::UInt(n) => Ok(*n),
        JsonValue::Str(s) => match parse_u64_text(s.as_str()) {
            Some(n) => Ok(n),
            None => Err(TemplateError::InvalidValue),
        },
        JsonValue::Bool(b) => Ok(if *b { 1 } else { 0 }),
        _ => Err(TemplateError::InvalidValue),
    }
}

/// The boolean that a data value holds: a boolean, or the text `true`.
pub fn parse_bool(value: &JsonValue) -> (r: Result<bool, TemplateError>)
    ensures
        match value@ {
            Json::Bool(b) => r == Ok::<bool, TemplateError>(b),
            Json::Str(s) => r == Ok::<bool, TemplateError>(s == "true"@),
            _ => r == Err::<bool, TemplateError>(TemplateError::InvalidValue),
        },
{
    match value {
        JsonValue::Bool(b) => Ok(*b),
        JsonValue::Str(s) => Ok(same_text(s.as_str(), "true")),
        _ => Err(TemplateError::InvalidValue),
    }
}

/// `n` modulo 256, for any `i64`.
fn low_byte(n: i64) -> (r: u8)
    ensures
        r as int == (n as int) % 256,
{
    if n >= 0 {
        (n % 256) as u8
    } else {
        let a: u64 = (-(n + 1)) as u64;
        let m: u64 = (a % 256 + 1) % 256;
        let r = ((256 - m) % 256) as u8;
        assert(r as int == (n as int) % 256) by (nonlinear_arith)
            requires
                a == -(n + 1),
                m == (a % 256 + 1) % 256,
                r == (256 - m) % 256,
                n < 0,
        ;
        r
    }
}

/// The byte that an entry of a byte array stands for.
fn entry_to_byte(item: &JsonValue) -> (r: Result<u8, TemplateError>)
    ensures
        match r {
            Ok(b) => entry_byte(item@) == Ok::<u8, TemplateError>(b),
            Err(e) => entry_byte(item@) == Err::<u8, TemplateError>(e),
        },
{
    match item {
        JsonValue::UInt(n) => if *n <= 0x7fff_ffff_ffff_ffff {
            Ok((*n % 256) as u8)
        } else {
            Err(TemplateError::InvalidValue)
        },
        JsonValue::NegInt(n) => Ok(low_byte(*n)),
        JsonValue::Str(s) => match parse_i64_text(s.as_str()) {
            Some(n) => Ok(low_byte(n)),
            None => Err(TemplateError::InvalidValue),
        },
        JsonValue::Bool(b) => Ok(if *b { 1 } else { 0 }),
        _ => Err(TemplateError::InvalidValue),
    }
}

/// The bytes that string data denotes: hex after a `0x` prefix, base64 otherwise.
pub fn decode_string_data(s: &str) -> (r: Result<Vec<u8>, TemplateError>)
    ensures
        match r {
            Ok(b) => string_bytes(s@) == Ok::<Seq<u8>, TemplateError>(b@),
            Err(e) => string_bytes(s@) == Err::<Seq<u8>, TemplateError>(e),
        },
{
    if has_prefix(s, "0x") {
        proof {
            reveal_strlit("0x");
        }
        let cs = chars_of(s);
        let rest = string_of_range(&cs, 2, cs.len());
        assert(s@[0] == s@.subrange(0, 2)[0] && s@[1] == s@.subrange(0, 2)[1]);
        match decode_hex(rest.as_str()) {
            Some(b) => Ok(b),
            None => Err(TemplateError::InvalidEncoding),
        }
    } else {
        proof {
            reveal_strlit("0x");
            if s@.len() >= 2 && s@[0] == '0' && s@[1] == 'x' {
                assert(s@.subrange(0, 2) =~= "0x"@);
            }
        }
        match decode_base64(s) {
            Some(b) => Ok(b),
            None => Err(TemplateError::InvalidEncoding),
        }
    }
}

/// A vector of `n` zero bytes.
fn zeros(n: u64) -> (r: Vec<u8>)
    ensures
        r@ == Seq::new(n as nat, |i: int| 0u8),
{
    let mut out: Vec<u8> = Vec::new();
    let mut i: u64 = 0;
    while i < n
        invariant
            i <= n,
            out@ == Seq::new(i as nat, |j: int| 0u8),
        decreases n - i,
    {
        out.push(0);
        i = i + 1;
        assert(out@ =~= Seq::new(i as nat, |j: int| 0u8));
    }
    out
}

/// How deep JSON text given as object data may nest further JSON text.
pub const JSON_TEXT_DEPTH: usize = 16;

/// Packs a typed value, resolving parameter references, to the bytes it denotes.
pub fn pack_data(value: &JsonValue, params: &Vec<String>) -> (r: Result<Vec<u8>, TemplateError>)
    ensures
        match r {
            Ok(b) => pack_spec(value@, texts(params@)) == Ok::<Seq<u8>, TemplateError>(b@),
            Err(e) => pack_spec(value@, texts(params@)) == Err::<Seq<u8>, TemplateError>(e),
        },
{
    pack_nested(value, params, JSON_TEXT_DEPTH)
}

/// Packs a list of typed values and concatenates their bytes.
pub fn pack_list(items: &Vec<JsonValue>, params: &Vec<String>, depth: usize) -> (r: Result<
    Vec<u8>,
    TemplateError,
>)
    ensures
        match r {
            Ok(b) => pack_list_at(crate::json::items_view(items@), texts(params@), depth as nat) == Ok::<
                Seq<u8>,
                TemplateError,
            >(b@),
            Err(e) => pack_list_at(crate::json::items_view(items@), texts(params@), depth as nat) == Err::<
                Seq<u8>,
                TemplateError,
            >(e),
        },
    decreases depth, crate::json::items_view(items@), 0nat,
{
    let ghost p = texts(params@);
    let ghost list = crate::json::items_view(items@);
    let mut out: Vec<u8> = Vec::new();
    let mut i: usize = 0;
    assert(list.subrange(0, 0) =~= Seq::<Json>::empty());
    while i < items.len()
        invariant
            list == crate::json::items_view(items@),
            p == texts(params@),
            i <= items@.len(),
            pack_list_at(list.subrange(0, i as int), p, depth as nat) == Ok::<
                Seq<u8>,
                TemplateError,
            >(out@),
        decreases items@.len() - i,
    {
        proof {
            assert(list[i as int] == items@[i as int]@);
            assert(decreases_to!(list => list[i as int]));
        }
        let packed = pack_nested(&items[i], params, depth);
        proof {
            let q = list.subrange(0, i + 1);
            assert(q.drop_last() =~= list.subrange(0, i as int));
            assert(q.last() == list[i as int]);
        }
        match packed {
            Ok(b) => {
                let mut b = b;
                out.append(&mut b);
            },
            Err(e) => {
                proof {
                    lemma_list_error_stays(list, p, depth as nat, i as int + 1, e);
                }
                return Err(e);
            },
        }
        i = i + 1;
    }
    assert(list.subrange(0, i as int) =~= list);
    Ok(out)
}

proof fn lemma_list_error_stays(
    items: Seq<Json>,
    params: Seq<Seq<char>>,
    fuel: nat,
    i: int,
    e: TemplateError,
)
    requires
        0 <= i <= items.len(),
        pack_list_at(items.subrange(0, i), params, fuel) == Err::<Seq<u8>, TemplateError>(e),
    ensures
        pack_list_at(items, params, fuel) == Err::<Seq<u8>, TemplateError>(e),
    decreases items.len() - i,
{
    if i < items.len() {
        let q = items.subrange(0, i + 1);
        assert(q.drop_last() =~= items.subrange(0, i));
        lemma_list_error_stays(items, params, fuel, i + 1, e);
    } else {
        assert(items.subrange(0, i) =~= items);
    }
}

fn pack_nested(value: &JsonValue, params: &Vec<String>, depth: usize) -> (r: Result<
    Vec<u8>,
    TemplateError,
>)
    ensures
        match r {
            Ok(b) => pack_at(value@, texts(params@), depth as nat) == Ok::<Seq<u8>, TemplateError>(b@),
            Err(e) => pack_at(value@, texts(params@), depth as nat) == Err::<Seq<u8>, TemplateError>(e),
        },
    decreases depth, value@, 1nat,
{
    let ghost p = texts(params@);
    let resolved = resolve_value(value, params);
    match &resolved {
        JsonValue::Null => Ok(Vec::new()),
        JsonValue::Bool(b) => {
            let mut out: Vec<u8> = Vec::new();
            out.push(if *b { 1u8 } else { 0u8 });
            assert(out@ =~= seq![if *b { 1u8 } else { 0u8 }]);
            Ok(out)
        },
        JsonValue::UInt(n) => Ok(zeros(*n)),
        JsonValue::Str(s) => decode_string_data(s.as_str()),
        JsonValue::Array(items) => {
            let ghost list = crate::json::items_view(items@);
            let mut out: Vec<u8> = Vec::new();
            let mut i: usize = 0;
            assert(list.subrange(0, 0) =~= Seq::<Json>::empty());
            while i < items.len()
                invariant
                    list == crate::json::items_view(items@),
                    p == texts(params@),
                    resolved@ == resolve(value@, p),
                    resolved@ == Json::Array(list),
                    i <= items@.len(),
                    array_bytes(list.subrange(0, i as int), p) == Ok::<Seq<u8>, TemplateError>(
                        out@,
                    ),
                decreases items@.len() - i,
            {
                let item = resolve_value(&items[i], params);
                let ghost q = list.subrange(0, i + 1);
                assert(q.drop_last() =~= list.subrange(0, i as int));
                assert(q.last() == items@[i as int]@);
                match entry_to_byte(&item) {
                    Ok(b) => out.push(b),
                    Err(e) => {
                        proof {
                            assert(array_bytes(q, p) == Err::<Seq<u8>, TemplateError>(e));
                            lemma_array_error_stays(list, p, i as int + 1, e);
                        }
                        return Err(e);
                    },
                }
                i = i + 1;
            }
            assert(list.subrange(0, i as int) =~= list);
            Ok(out)
        },
        JsonValue::Object(_) => {
            let kind = match value.get_str("type") {
                Some(k) => k,
                None => {
                    return Err(TemplateError::MissingField);
                },
            };
            let k = kind.as_str();
            let is_int = same_text(k, "u8") || same_text(k, "u16") || same_text(k, "u32")
                || same_text(k, "u64");
            let known = is_int || same_text(k, "pubkey") || same_text(k, "string") || same_text(
                k,
                "bytes",
            ) || same_text(k, "object");
            let data = match value.get_field("data") {
                Some(d) => d,
                None => {
                    return Err(if known {
                        TemplateError::MissingField
                    } else {
                        TemplateError::UnsupportedType
                    });
                },
            };
            proof {
                lemma_data_smaller(value@);
            }
            if is_int {
                let n = match parse_u64(&resolve_value(data, params)) {
                    Ok(n) => n,
                    Err(e) => {
                        return Err(e);
                    },
                };
                let w: usize = if same_text(k, "u8") {
                    1
                } else if same_text(k, "u16") {
                    2
                } else if same_text(k, "u32") {
                    4
                } else {
                    8
                };
                Ok(write_le(n, w))
            } else if same_text(k, "pubkey") {
                match parse_pubkey(data, params) {
                    Ok(a) => Ok(address_bytes(&a)),
                    Err(e) => Err(e),
                }
            } else if same_text(k, "string") || same_text(k, "bytes") {
                pack_nested(data, params, depth)
            } else if same_text(k, "object") {
                match data {
                    JsonValue::Array(list) => pack_list(list, params, depth),
                    _ => {
                        let rd = resolve_value(data, params);
                        match &rd {
                            JsonValue::Str(text) => {
                                if depth > 0 && starts_like_json(text.as_str()) {
                                    match parse_json_text(text.as_str()) {
                                        Some(JsonValue::Array(list)) => {
                                            return pack_list(&list, params, depth - 1);
                                        },
                                        _ => {},
                                    }
                                }
                                Err(TemplateError::InvalidValue)
                            },
                            _ => Err(TemplateError::InvalidValue),
                        }
                    },
                }
            } else {
                Err(TemplateError::UnsupportedType)
            }
        },
        _ => Err(TemplateError::InvalidValue),
    }
}

proof fn lemma_array_error_stays(items: Seq<Json>, params: Seq<Seq<char>>, i: int, e: TemplateError)
    requires
        0 <= i <= items.len(),
        array_bytes(items.subrange(0, i), params) == Err::<Seq<u8>, TemplateError>(e),
    ensures
        array_bytes(items, params) == Err::<Seq<u8>, TemplateError>(e),
    decreases items.len() - i,
{
    if i < items.len() {
        let q = items.subrange(0, i + 1);
        assert(q.drop_last() =~= items.subrange(0, i));
        lemma_array_error_stays(items, params, i + 1, e);
    } else {
        assert(items.subrange(0, i) =~= items);
    }
}

} // verus!
