//! The unpacker: bytes and a schema to a JSON typed value, and the byte length of
//! an unpacked value.
use vstd::prelude::*;
use vstd::slice::slice_subrange;
use crate::address::{address_text, encode_address};
use crate::encoding::{base64_text, encode_base64, le_value, lossy_text, read_le, utf8_lossy};
use crate::error::TemplateError;
use crate::json::{entries_view, field, items_view, lookup, set_entry, set_field, str_field, uint_field, json_str, Json, JsonValue};
use crate::pack::{int_width, lemma_data_smaller};
use crate::text::{decimal, same_text, u64_text};

verus! {

/// The largest integer that a double-precision JSON number holds exactly, 2^53 - 1.
pub const MAX_SAFE_INTEGER: u64 = 9_007_199_254_740_991;

/// How an unpacked unsigned integer is written: a number up to 2^53 - 1, its
/// decimal text above.
pub open spec fn uint_data(kind: Seq<char>, n: nat) -> Json {
    if kind == "u64"@ && n > MAX_SAFE_INTEGER {
        Json::Str(decimal(n))
    } else {
        Json::UInt(n)
    }
}

/// The entries of an unpacked object: its type, its name where the schema has one,
/// and its fields.
pub open spec fn object_entries(name: Option<Json>, fields: Seq<Json>) -> Seq<(Seq<char>, Json)> {
    match name {
        Some(n) => seq![("type"@, Json::Str("object"@)), ("name"@, n), ("data"@, Json::Array(fields))],
        None => seq![("type"@, Json::Str("object"@)), ("data"@, Json::Array(fields))],
    }
}

#[via_fn]
proof fn unpack_spec_decreases(buf: Seq<u8>, schema: Json, offset: int) {
    lemma_data_smaller(schema);
    if let Json::Array(entries) = schema {
        assert(decreases_to!(schema => schema->Array_0));
    }
}

/// The value that `buf` holds at `offset` under `schema`, or why it holds none.
pub open spec fn unpack_spec(buf: Seq<u8>, schema: Json, offset: int) -> Result<Json, TemplateError>
    decreases schema via unpack_spec_decreases
{
    match schema {
        Json::Array(entries) => match unpack_list_spec(buf, entries, offset) {
            Ok(vs) => Ok(Json::Array(vs)),
            Err(e) => Err(e),
        },
        Json::Object(entries) => match str_field(schema, "type"@) {
            None => Err(TemplateError::MissingField),
            Some(kind) => if int_width(kind) is Some {
                let w = int_width(kind)->0;
                if offset + w <= buf.len() {
                    let n = le_value(buf.subrange(offset, offset + w));
                    Ok(Json::Object(set_entry(entries, "data"@, uint_data(kind, n))))
                } else {
                    Err(TemplateError::OutOfBounds)
                }
            } else if kind == "boolean"@ {
                if offset + 1 <= buf.len() {
                    Ok(Json::Object(set_entry(entries, "data"@, Json::Bool(buf[offset] != 0))))
                } else {
                    Err(TemplateError::OutOfBounds)
                }
            } else if kind == "pubkey"@ {
                if offset + 32 <= buf.len() {
                    let text = address_text(buf.subrange(offset, offset + 32));
                    Ok(Json::Object(set_entry(entries, "data"@, Json::Str(text))))
                } else {
                    Err(TemplateError::OutOfBounds)
                }
            } else if kind == "bytes"@ {
                match uint_field(schema, "size"@) {
                    None => Err(TemplateError::MissingField),
                    Some(size) => if offset + size <= buf.len() {
                        let text = base64_text(buf.subrange(offset, offset + size));
                        Ok(
                            Json::Object(
                                set_entry(
                                    set_entry(entries, "size"@, Json::UInt(size)),
                                    "data"@,
                                    Json::Str(text),
                                ),
                            ),
                        )
                    } else {
                        Err(TemplateError::OutOfBounds)
                    },
                }
            } else if kind == "string"@ {
                match uint_field(schema, "length"@) {
                    None => Err(TemplateError::MissingField),
                    Some(len) => if offset + len <= buf.len() {
                        let text = utf8_lossy(buf.subrange(offset, offset + len));
                        Ok(
                            Json::Object(
                                set_entry(
                                    set_entry(entries, "length"@, Json::UInt(len)),
                                    "data"@,
                                    Json::Str(text),
                                ),
                            ),
                        )
                    } else {
                        Err(TemplateError::OutOfBounds)
                    },
                }
            } else if kind == "object"@ {
                match field(schema, "data"@) {
                    Some(Json::Array(list)) => match unpack_list_spec(buf, list, offset) {
                        Ok(vs) => Ok(Json::Object(object_entries(field(schema, "name"@), vs))),
                        Err(e) => Err(e),
                    },
                    _ => Err(TemplateError::MissingField),
                }
            } else {
                Err(TemplateError::UnsupportedType)
            },
        },
        _ => Err(TemplateError::UnsupportedType),
    }
}

/// The values that `buf` holds from `offset` on under a list of schemas, each
/// read where the one before it ends.
pub open spec fn unpack_list_spec(buf: Seq<u8>, schemas: Seq<Json>, offset: int) -> Result<
    Seq<Json>,
    TemplateError,
>
    decreases schemas,
{
    if schemas.len() == 0 {
        Ok(Seq::empty())
    } else {
        match unpack_spec(buf, schemas[0], offset) {
            Ok(v) => match byte_length(v) {
                Ok(n) => match unpack_list_spec(buf, schemas.drop_first(), offset + n) {
                    Ok(rest) => Ok(seq![v] + rest),
                    Err(e) => Err(e),
                },
                Err(e) => Err(e),
            },
            Err(e) => Err(e),
        }
    }
}

#[via_fn]
proof fn byte_length_decreases(v: Json) {
    lemma_data_smaller(v);
}

/// The number of bytes that an unpacked value stands for.
pub open spec fn byte_length(v: Json) -> Result<nat, TemplateError>
    decreases v via byte_length_decreases
{
    match v {
        Json::Object(entries) => match str_field(v, "type"@) {
            None => Err(TemplateError::MissingField),
            Some(kind) => if int_width(kind) is Some {
                Ok(int_width(kind)->0)
            } else if kind == "boolean"@ {
                Ok(1)
            } else if kind == "pubkey"@ {
                Ok(32)
            } else if kind == "bytes"@ {
                match uint_field(v, "size"@) {
                    Some(n) => Ok(n),
                    None => Err(TemplateError::MissingField),
                }
            } else if kind == "string"@ {
                match uint_field(v, "length"@) {
                    Some(n) => Ok(n),
                    None => Err(TemplateError::MissingField),
                }
            } else if kind == "object"@ {
                match field(v, "data"@) {
                    Some(Json::Array(list)) => byte_length_list(list),
                    _ => Err(TemplateError::MissingField),
                }
            } else {
                Err(TemplateError::UnsupportedType)
            },
        },
        _ => Err(TemplateError::InvalidValue),
    }
}

/// The total byte length of a list of unpacked values.
pub open spec fn byte_length_list(items: Seq<Json>) -> Result<nat, TemplateError>
    decreases items,
{
    if items.len() == 0 {
        Ok(0)
    } else {
        match byte_length_list(items.drop_last()) {
            Ok(a) => match byte_length(items.last()) {
                Ok(b) => Ok(a + b),
                Err(e) => Err(e),
            },
            Err(e) => Err(e),
        }
    }
}

pub proof fn lemma_length_list_cons(v: Json, rest: Seq<Json>, a: nat, b: nat)
    requires
        byte_length(v) == Ok::<nat, TemplateError>(a),
        byte_length_list(rest) == Ok::<nat, TemplateError>(b),
    ensures
        byte_length_list(seq![v] + rest) == Ok::<nat, TemplateError>(a + b),
    decreases rest.len(),
{
    let all = seq![v] + rest;
    if rest.len() == 0 {
        assert(all.drop_last() =~= Seq::<Json>::empty());
        assert(all.last() == v);
        assert(byte_length_list(all.drop_last()) == Ok::<nat, TemplateError>(0));
    } else {
        let b1 = byte_length_list(rest.drop_last())->Ok_0;
        let c = byte_length(rest.last())->Ok_0;
        lemma_length_list_cons(v, rest.drop_last(), a, b1);
        assert(all.drop_last() =~= seq![v] + rest.drop_last());
        assert(all.last() == rest.last());
        assert(byte_length_list(all.drop_last()) == Ok::<nat, TemplateError>(a + b1));
        assert(b == b1 + c);
    }
}

/// The keys that typed values use are distinct texts.
pub proof fn lemma_reveal_keys()
    ensures
        "type"@ != "data"@,
        "name"@ != "data"@,
        "size"@ != "data"@,
        "length"@ != "data"@,
        "type"@ != "size"@,
        "type"@ != "length"@,
        "type"@ != "name"@,
{
    reveal_strlit("type");
    reveal_strlit("data");
    reveal_strlit("name");
    reveal_strlit("size");
    reveal_strlit("length");
    assert("type"@[0] != "data"@[0]);
    assert("name"@[0] != "data"@[0]);
    assert("size"@[0] != "data"@[0]);
    assert("length"@[0] != "data"@[0]);
    assert("type"@[0] != "size"@[0]);
    assert("type"@[0] != "length"@[0]);
    assert("type"@[0] != "name"@[0]);
}

/// The fields of an unpacked object read as its schema declares them.
pub proof fn lemma_object_entries(name: Option<Json>, fields: Seq<Json>)
    ensures
        lookup(object_entries(name, fields), "type"@) == Some(Json::Str("object"@)),
        lookup(object_entries(name, fields), "data"@) == Some(Json::Array(fields)),
        lookup(object_entries(name, fields), "name"@) == name,
{
    lemma_reveal_keys();
    let e = object_entries(name, fields);
    let e1 = e.drop_first();
    let e2 = e1.drop_first();
    assert(lookup(e, "data"@) == lookup(e1, "data"@));
    assert(lookup(e, "name"@) == lookup(e1, "name"@));
    if name is Some {
        assert(e1[0] == ("name"@, name->0));
        assert(lookup(e1, "data"@) == lookup(e2, "data"@));
        assert(e2[0] == ("data"@, Json::Array(fields)));
    } else {
        assert(e1[0] == ("data"@, Json::Array(fields)));
        assert(e2 =~= Seq::<(Seq<char>, Json)>::empty());
        assert(lookup(e1, "name"@) == lookup(e2, "name"@));
    }
}

/// A successful unpack under an object schema has a byte length, and that length
/// lies within the buffer.
pub proof fn lemma_unpack_length(buf: Seq<u8>, schema: Json, offset: int)
    requires
        0 <= offset,
    ensures
        schema is Object ==> (unpack_spec(buf, schema, offset) matches Ok(v) ==> (byte_length(v) matches Ok(n)
            && (n == 0 || offset + n <= buf.len()))),
    decreases schema,
{
    lemma_reveal_keys();
    crate::pack::lemma_kinds_distinct();
    if let Json::Object(entries) = schema {
        if let Some(kind) = str_field(schema, "type"@) {
            if let Ok(v) = unpack_spec(buf, schema, offset) {
                let e = v->Object_0;
                if kind == "object"@ {
                    if let Some(Json::Array(list)) = field(schema, "data"@) {
                        lemma_data_smaller(schema);
                        lemma_unpack_list_length(buf, list, offset);
                        lemma_object_entries(
                            field(schema, "name"@),
                            unpack_list_spec(buf, list, offset)->Ok_0,
                        );
                    }
                } else if kind == "bytes"@ {
                    let size = uint_field(schema, "size"@)->0;
                    let e1 = set_entry(entries, "size"@, Json::UInt(size));
                    let t = Json::Str(base64_text(buf.subrange(offset, offset + size)));
                    crate::json::lemma_lookup_set_entry(entries, "size"@, Json::UInt(size), "type"@);
                    crate::json::lemma_lookup_set_entry(e1, "data"@, t, "type"@);
                    crate::json::lemma_lookup_set_entry(e1, "data"@, t, "size"@);
                } else if kind == "string"@ {
                    let len = uint_field(schema, "length"@)->0;
                    let e1 = set_entry(entries, "length"@, Json::UInt(len));
                    crate::json::lemma_lookup_set_entry(entries, "length"@, Json::UInt(len), "type"@);
                    let t = Json::Str(utf8_lossy(buf.subrange(offset, offset + len)));
                    crate::json::lemma_lookup_set_entry(e1, "data"@, t, "type"@);
                    crate::json::lemma_lookup_set_entry(e1, "data"@, t, "length"@);
                } else if int_width(kind) is Some {
                    let w = int_width(kind)->0;
                    let n = le_value(buf.subrange(offset, offset + w));
                    crate::json::lemma_lookup_set_entry(entries, "data"@, uint_data(kind, n), "type"@);
                } else if kind == "boolean"@ {
                    crate::json::lemma_lookup_set_entry(entries, "data"@, Json::Bool(buf[offset] != 0), "type"@);
                } else if kind == "pubkey"@ {
                    let text = address_text(buf.subrange(offset, offset + 32));
                    crate::json::lemma_lookup_set_entry(entries, "data"@, Json::Str(text), "type"@);
                }
            }
        }
    }
}

/// A successful unpack of a list has a total byte length within the buffer.
pub proof fn lemma_unpack_list_length(buf: Seq<u8>, schemas: Seq<Json>, offset: int)
    requires
        0 <= offset,
    ensures
        unpack_list_spec(buf, schemas, offset) matches Ok(vs) ==> (byte_length_list(vs) matches Ok(n)
            && (n == 0 || offset + n <= buf.len())),
    decreases schemas,
{
    if schemas.len() > 0 {
        if let Ok(vs) = unpack_list_spec(buf, schemas, offset) {
            let v = unpack_spec(buf, schemas[0], offset)->Ok_0;
            let n0 = byte_length(v)->Ok_0;
            lemma_unpack_length(buf, schemas[0], offset);
            assert(decreases_to!(schemas => schemas.drop_first()));
            lemma_unpack_list_length(buf, schemas.drop_first(), offset + n0);
            let rest = unpack_list_spec(buf, schemas.drop_first(), offset + n0)->Ok_0;
            if let Ok(m) = byte_length_list(rest) {
                lemma_length_list_cons(v, rest, n0, m);
            }
            if schemas[0] is Array {
                assert(byte_length(v) is Err);
            }
        }
    } else {
        assert(byte_length_list(Seq::<Json>::empty()) == Ok::<nat, TemplateError>(0));
    }
}

/// A failure of the list computation, or the values found before it followed by the rest.
pub open spec fn after(done: Seq<Json>, rest: Result<Seq<Json>, TemplateError>) -> Result<
    Seq<Json>,
    TemplateError,
> {
    match rest {
        Ok(vs) => Ok(done + vs),
        Err(e) => Err(e),
    }
}

proof fn lemma_length_list_prefix(items: Seq<Json>, m: nat, i: int)
    requires
        byte_length_list(items) == Ok::<nat, TemplateError>(m),
        0 <= i <= items.len(),
    ensures
        byte_length_list(items.subrange(0, i)) matches Ok(p) && p <= m,
    decreases items.len() - i,
{
    if i < items.len() {
        lemma_length_list_prefix(items, m, i + 1);
        let q = items.subrange(0, i + 1);
        assert(q.drop_last() =~= items.subrange(0, i));
    } else {
        assert(items.subrange(0, i) =~= items);
    }
}

/// The number of bytes that an unpacked value stands for.
pub fn get_byte_length(entry: &JsonValue) -> (r: Result<usize, TemplateError>)
    ensures
        match r {
            Ok(n) => byte_length(entry@) == Ok::<nat, TemplateError>(n as nat),
            Err(e) => byte_length(entry@) == Err::<nat, TemplateError>(e) || (e
                == TemplateError::InvalidValue && !(byte_length(entry@) matches Ok(m) && m
                <= usize::MAX)),
        },
    decreases entry@,
{
    proof {
        crate::pack::lemma_kinds_distinct();
    }
    match entry {
        JsonValue::Object(_) => {},
        _ => {
            return Err(TemplateError::InvalidValue);
        },
    }
    let kind = match entry.get_str("type") {
        Some(k) => k,
        None => {
            return Err(TemplateError::MissingField);
        },
    };
    let k = kind.as_str();
    if same_text(k, "u8") {
        Ok(1)
    } else if same_text(k, "u16") {
        Ok(2)
    } else if same_text(k, "u32") {
        Ok(4)
    } else if same_text(k, "u64") {
        Ok(8)
    } else if same_text(k, "boolean") {
        Ok(1)
    } else if same_text(k, "pubkey") {
        Ok(32)
    } else if same_text(k, "bytes") || same_text(k, "string") {
        let key = if same_text(k, "bytes") {
            "size"
        } else {
            "length"
        };
        match entry.get_uint(key) {
            Some(n) => if (n as u128) <= (usize::MAX as u128) {
                Ok(n as usize)
            } else {
                Err(TemplateError::InvalidValue)
            },
            None => Err(TemplateError::MissingField),
        }
    } else if same_text(k, "object") {
        let list = match entry.get_field("data") {
            Some(JsonValue::Array(list)) => list,
            _ => {
                return Err(TemplateError::MissingField);
            },
        };
        proof {
            lemma_data_smaller(entry@);
        }
        let ghost l = items_view(list@);
        let mut total: usize = 0;
        let mut i: usize = 0;
        assert(l.subrange(0, 0) =~= Seq::<Json>::empty());
        assert(byte_length(entry@) == byte_length_list(l));
        while i < list.len()
            invariant
                byte_length(entry@) == byte_length_list(l),
                l == items_view(list@),
                field(entry@, "data"@) == Some(Json::Array(l)),
                str_field(entry@, "type"@) == Some("object"@),
                entry@ is Object,
                decreases_to!(entry@ => l),
                i <= list@.len(),
                byte_length_list(l.subrange(0, i as int)) == Ok::<nat, TemplateError>(total as nat),
            decreases list@.len() - i,
        {
            proof {
                assert(l[i as int] == list@[i as int]@);
                assert(decreases_to!(l => l[i as int]));
            }
            let q = get_byte_length(&list[i]);
            let ghost pre = l.subrange(0, i + 1);
            assert(pre.drop_last() =~= l.subrange(0, i as int));
            assert(pre.last() == l[i as int]);
            match q {
                Ok(n) => match total.checked_add(n) {
                    Some(t) => {
                        total = t;
                    },
                    None => {
                        proof {
                            assert(byte_length_list(pre) == Ok::<nat, TemplateError>((total + n) as nat));
                            if let Ok(m) = byte_length_list(l) {
                                lemma_length_list_prefix(l, m, i + 1);
                            }
                        }
                        return Err(TemplateError::InvalidValue);
                    },
                },
                Err(e) => {
                    proof {
                        if let Ok(m) = byte_length_list(l) {
                            lemma_length_list_prefix(l, m, i + 1);
                            assert(byte_length(l[i as int]) is Ok);
                        }
                        if byte_length(l[i as int]) == Err::<nat, TemplateError>(e) {
                            lemma_length_error_stays(l, i + 1, e);
                        }
                    }
                    return Err(e);
                },
            }
            i = i + 1;
        }
        assert(l.subrange(0, i as int) =~= l);
        Ok(total)
    } else {
        Err(TemplateError::UnsupportedType)
    }
}

proof fn lemma_length_error_stays(items: Seq<Json>, i: int, e: TemplateError)
    requires
        0 <= i <= items.len(),
        byte_length_list(items.subrange(0, i)) == Err::<nat, TemplateError>(e),
    ensures
        byte_length_list(items) == Err::<nat, TemplateError>(e),
    decreases items.len() - i,
{
    if i < items.len() {
        let q = items.subrange(0, i + 1);
        assert(q.drop_last() =~= items.subrange(0, i));
        lemma_length_error_stays(items, i + 1, e);
    } else {
        assert(items.subrange(0, i) =~= items);
    }
}

/// The entries of an object value, copied.
fn entries_copy(v: &JsonValue) -> (r: Vec<(String, JsonValue)>)
    requires
        v@ is Object,
    ensures
        entries_view(r@) == v@->Object_0,
{
    match v.duplicate() {
        JsonValue::Object(entries) => entries,
        _ => Vec::new(),
    }
}

/// The 32 bytes of `buffer` from `offset` on.
fn read_address(buffer: &[u8], offset: usize) -> (r: [u8; 32])
    requires
        offset + 32 <= buffer@.len(),
    ensures
        r@ == buffer@.subrange(offset as int, offset + 32),
{
    let len = buffer.len();
    let mut a = [0u8; 32];
    let mut i: usize = 0;
    while i < 32
        invariant
            len == buffer@.len(),
            offset + 32 <= buffer@.len(),
            i <= 32,
            a@.len() == 32,
            forall|j: int| 0 <= j < i ==> a@[j] == buffer@[offset + j],
        decreases 32 - i,
    {
        a[i] = buffer[offset + i];
        i = i + 1;
    }
    assert(a@ =~= buffer@.subrange(offset as int, offset + 32));
    a
}

/// Reads a value from `buffer` at `offset` as `schema` describes it: a list of
/// schemas reads one value after another, an object schema reads one value of its type.
pub fn unpack_data(buffer: &[u8], schema: &JsonValue, offset: usize) -> (r: Result<
    JsonValue,
    TemplateError,
>)
    ensures
        match r {
            Ok(v) => unpack_spec(buffer@, schema@, offset as int) == Ok::<Json, TemplateError>(v@),
            Err(e) => unpack_spec(buffer@, schema@, offset as int) == Err::<Json, TemplateError>(e),
        },
    decreases schema@, 1nat,
{
    proof {
        crate::pack::lemma_kinds_distinct();
    }
    let len = buffer.len();
    match schema {
        JsonValue::Array(entries) => {
            proof {
                let j = schema@;
                assert(decreases_to!(j => j->Array_0));
            }
            return match unpack_list(buffer, entries, offset) {
                Ok(vs) => Ok(JsonValue::Array(vs)),
                Err(e) => Err(e),
            };
        },
        JsonValue::Object(_) => {},
        _ => {
            return Err(TemplateError::UnsupportedType);
        },
    }
    let kind = match schema.get_str("type") {
        Some(k) => k,
        None => {
            return Err(TemplateError::MissingField);
        },
    };
    let k = kind.as_str();
    let w: usize = if same_text(k, "u8") {
        1
    } else if same_text(k, "u16") {
        2
    } else if same_text(k, "u32") {
        4
    } else if same_text(k, "u64") {
        8
    } else {
        0
    };
    if w > 0 {
        if offset > len || w > len - offset {
            return Err(TemplateError::OutOfBounds);
        }
        let n = read_le(buffer, offset, w);
        let data = if same_text(k, "u64") && n > MAX_SAFE_INTEGER {
            JsonValue::Str(u64_text(n))
        } else {
            JsonValue::UInt(n)
        };
        let mut out = entries_copy(schema);
        set_field(&mut out, "data", data);
        return Ok(JsonValue::Object(out));
    }
    if same_text(k, "boolean") || same_text(k, "pubkey") {
        let size: usize = if same_text(k, "boolean") {
            1
        } else {
            32
        };
        if offset > len || size > len - offset {
            return Err(TemplateError::OutOfBounds);
        }
        let data = if size == 1 {
            JsonValue::Bool(buffer[offset] != 0)
        } else {
            JsonValue::Str(encode_address(&read_address(buffer, offset)))
        };
        let mut out = entries_copy(schema);
        set_field(&mut out, "data", data);
        return Ok(JsonValue::Object(out));
    }
    if same_text(k, "bytes") || same_text(k, "string") {
        let is_bytes = same_text(k, "bytes");
        let key = if is_bytes {
            "size"
        } else {
            "length"
        };
        let size = match schema.get_uint(key) {
            Some(n) => n,
            None => {
                return Err(TemplateError::MissingField);
            },
        };
        if offset > len || (size as u128) > ((len - offset) as u128) {
            return Err(TemplateError::OutOfBounds);
        }
        let end = offset + size as usize;
        let slice = slice_subrange(buffer, offset, end);
        let text = if is_bytes {
            encode_base64(slice)
        } else {
            lossy_text(slice)
        };
        let mut out = entries_copy(schema);
        set_field(&mut out, key, JsonValue::UInt(size));
        set_field(&mut out, "data", JsonValue::Str(text));
        return Ok(JsonValue::Object(out));
    }
    if same_text(k, "object") {
        let list = match schema.get_field("data") {
            Some(JsonValue::Array(list)) => list,
            _ => {
                return Err(TemplateError::MissingField);
            },
        };
        proof {
            lemma_data_smaller(schema@);
        }
        let vs = match unpack_list(buffer, list, offset) {
            Ok(vs) => vs,
            Err(e) => {
                return Err(e);
            },
        };
        let mut out: Vec<(String, JsonValue)> = Vec::new();
        out.push((crate::text::string_of(&crate::text::chars_of("type")), json_str("object")));
        match schema.get_field("name") {
            Some(name) => {
                out.push((crate::text::string_of(&crate::text::chars_of("name")), name.duplicate()));
            },
            None => {},
        }
        out.push((crate::text::string_of(&crate::text::chars_of("data")), JsonValue::Array(vs)));
        proof {
            assert(entries_view(out@) =~= object_entries(field(schema@, "name"@), items_view(vs@)));
        }
        return Ok(JsonValue::Object(out));
    }
    Err(TemplateError::UnsupportedType)
}

/// Reads one value per schema of `schemas`, each where the one before it ends.
pub fn unpack_list(buffer: &[u8], schemas: &Vec<JsonValue>, offset: usize) -> (r: Result<
    Vec<JsonValue>,
    TemplateError,
>)
    ensures
        match r {
            Ok(vs) => unpack_list_spec(buffer@, items_view(schemas@), offset as int) == Ok::<
                Seq<Json>,
                TemplateError,
            >(items_view(vs@)),
            Err(e) => unpack_list_spec(buffer@, items_view(schemas@), offset as int) == Err::<
                Seq<Json>,
                TemplateError,
            >(e),
        },
    decreases items_view(schemas@), 0nat,
{
    let ghost l = items_view(schemas@);
    let len = buffer.len();
    let mut out: Vec<JsonValue> = Vec::new();
    let mut cursor: usize = offset;
    let mut i: usize = 0;
    assert(l.skip(0) =~= l);
    assert(items_view(out@) =~= Seq::<Json>::empty());
    while i < schemas.len()
        invariant
            l == items_view(schemas@),
            len == buffer@.len(),
            i <= schemas@.len(),
            unpack_list_spec(buffer@, l, offset as int) == after(
                items_view(out@),
                unpack_list_spec(buffer@, l.skip(i as int), cursor as int),
            ),
        decreases schemas@.len() - i,
    {
        proof {
            assert(l[i as int] == schemas@[i as int]@);
            assert(decreases_to!(l => l[i as int]));
            assert(l.skip(i as int)[0] == l[i as int]);
            assert(l.skip(i as int).drop_first() =~= l.skip(i + 1));
        }
        let v = match unpack_data(buffer, &schemas[i], cursor) {
            Ok(v) => v,
            Err(e) => {
                return Err(e);
            },
        };
        proof {
            lemma_unpack_length(buffer@, l[i as int], cursor as int);
        }
        let n = match get_byte_length(&v) {
            Ok(n) => n,
            Err(e) => {
                return Err(e);
            },
        };
        let ghost before = items_view(out@);
        out.push(v);
        proof {
            assert(items_view(out@) =~= before.push(v@));
            if let Ok(rest) = unpack_list_spec(buffer@, l.skip(i + 1), cursor + n) {
                assert(before + (seq![v@] + rest) =~= before.push(v@) + rest);
            }
        }
        cursor = cursor + n;
        i = i + 1;
    }
    assert(l.skip(i as int) =~= Seq::<Json>::empty());
    assert(items_view(out@) + Seq::<Json>::empty() =~= items_view(out@));
    Ok(out)
}

} // verus!
