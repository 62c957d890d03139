//! Properties that relate the resolver, the packer and the unpacker.
use vstd::prelude::*;
use crate::address::{ata_address, descriptor_address, text_descriptor};
use crate::encoding::{le_bytes, le_value, lemma_le_bytes_len, lemma_le_round_trip, pow256};
use crate::error::TemplateError;
use crate::json::{field, lemma_lookup_set_entry, lemma_set_entry_same, lookup, set_entry, str_field, uint_field, Json};
use crate::pack::{int_width, lemma_data_smaller, lemma_kinds_distinct, pack_list_spec, pack_spec};
use crate::text::decimal;
use crate::unpack::{lemma_reveal_keys, byte_length, byte_length_list, lemma_length_list_cons, lemma_object_entries, object_entries, uint_data, unpack_list_spec, unpack_spec, MAX_SAFE_INTEGER};

verus! {

proof fn lemma_pow256_8()
    ensures
        pow256(8) == 0x1_0000_0000_0000_0000,
{
    reveal_with_fuel(pow256, 9);
}

/// Unpacking the eight little-endian bytes of any `u64` under a `u64` schema gives
/// the number itself up to 2^53 - 1, and its decimal text above.
pub proof fn lemma_u64_precision(n: u64, entries: Seq<(Seq<char>, Json)>)
    requires
        str_field(Json::Object(entries), "type"@) == Some("u64"@),
    ensures
        unpack_spec(le_bytes(n as nat, 8), Json::Object(entries), 0) == Ok::<Json, TemplateError>(
            Json::Object(
                set_entry(
                    entries,
                    "data"@,
                    if n > MAX_SAFE_INTEGER {
                        Json::Str(decimal(n as nat))
                    } else {
                        Json::UInt(n as nat)
                    },
                ),
            ),
        ),
{
    lemma_kinds_distinct();
    let b = le_bytes(n as nat, 8);
    lemma_le_bytes_len(n as nat, 8);
    lemma_le_round_trip(n as nat, 8);
    lemma_pow256_8();
    assert(b.subrange(0, 8) =~= b);
    assert(le_value(b) == n as nat);
    assert(int_width("u64"@) == Some(8nat));
    assert(uint_data("u64"@, n as nat) == if n > MAX_SAFE_INTEGER {
        Json::Str(decimal(n as nat))
    } else {
        Json::UInt(n as nat)
    });
}

/// An associated-token-account descriptor whose owner and mint are addresses (or
/// parameters that hold addresses) resolves to the address derived from the seeds
/// `[owner, token program, mint]` under the associated token program, and to that
/// alone.
pub proof fn lemma_ata_descriptor(owner: Seq<char>, mint: Seq<char>, params: Seq<Seq<char>>)
    requires
        text_descriptor(owner, params) is Ok,
        text_descriptor(mint, params) is Ok,
    ensures
        descriptor_address(
            Json::Object(
                seq![
                    ("type"@, Json::Str("ata"@)),
                    ("owner"@, Json::Str(owner)),
                    ("mint"@, Json::Str(mint)),
                ],
            ),
            params,
        ) == match ata_address(
            text_descriptor(owner, params)->Ok_0,
            text_descriptor(mint, params)->Ok_0,
        ) {
            Some(a) => Ok::<Seq<u8>, TemplateError>(a),
            None => Err::<Seq<u8>, TemplateError>(TemplateError::InvalidAddress),
        },
{
    reveal_strlit("type");
    reveal_strlit("owner");
    reveal_strlit("mint");
    let e = seq![
        ("type"@, Json::Str("ata"@)),
        ("owner"@, Json::Str(owner)),
        ("mint"@, Json::Str(mint)),
    ];
    assert("type"@[0] != "owner"@[0] && "type"@[0] != "mint"@[0] && "owner"@[0] != "mint"@[0]);
    assert(e.drop_first()[0] == ("owner"@, Json::Str(owner)));
    assert(e.drop_first().drop_first()[0] == ("mint"@, Json::Str(mint)));
    assert(lookup(e, "owner"@) == lookup(e.drop_first(), "owner"@));
    assert(lookup(e, "mint"@) == lookup(e.drop_first(), "mint"@));
    assert(lookup(e.drop_first(), "mint"@) == lookup(e.drop_first().drop_first(), "mint"@));
    assert(lookup(e, "type"@) == Some(Json::Str("ata"@)));
    assert(str_field(Json::Object(e), "type"@) == Some("ata"@));
    assert(descriptor_address(Json::Str(owner), params) == text_descriptor(owner, params));
    assert(descriptor_address(Json::Str(mint), params) == text_descriptor(mint, params));
}

#[via_fn]
proof fn schema_width_decreases(s: Json) {
    lemma_data_smaller(s);
}

/// The number of bytes that an object schema declares: the width of its integer,
/// boolean or address type, its `size` or `length`, or the sum over its fields.
pub open spec fn schema_width(s: Json) -> Option<nat>
    decreases s via schema_width_decreases
{
    match s {
        Json::Object(_) => match str_field(s, "type"@) {
            None => None,
            Some(kind) => if int_width(kind) is Some {
                int_width(kind)
            } else if kind == "boolean"@ {
                Some(1)
            } else if kind == "pubkey"@ {
                Some(32)
            } else if kind == "bytes"@ {
                uint_field(s, "size"@)
            } else if kind == "string"@ {
                uint_field(s, "length"@)
            } else if kind == "object"@ {
                match field(s, "data"@) {
                    Some(Json::Array(list)) => schema_width_list(list),
                    _ => None,
                }
            } else {
                None
            },
        },
        _ => None,
    }
}

/// The total width of a list of schemas.
pub open spec fn schema_width_list(list: Seq<Json>) -> Option<nat>
    decreases list,
{
    if list.len() == 0 {
        Some(0)
    } else {
        match (schema_width(list[0]), schema_width_list(list.drop_first())) {
            (Some(a), Some(b)) => Some(a + b),
            _ => None,
        }
    }
}

/// Unpacking under an object schema that declares its width succeeds wherever the
/// buffer holds that many bytes, and the value that comes out has that byte length.
pub proof fn lemma_unpack_declared_width(buf: Seq<u8>, schema: Json, offset: int)
    requires
        0 <= offset,
        schema_width(schema) matches Some(w) && offset + w <= buf.len(),
    ensures
        unpack_spec(buf, schema, offset) matches Ok(v) && byte_length(v) == Ok::<nat, TemplateError>(
            schema_width(schema)->0,
        ),
    decreases schema,
{
    lemma_kinds_distinct();
    lemma_reveal_keys();
    let entries = schema->Object_0;
    let kind = str_field(schema, "type"@)->0;
    if int_width(kind) is Some {
        let w = int_width(kind)->0;
        let n = le_value(buf.subrange(offset, offset + w));
        lemma_lookup_set_entry(entries, "data"@, uint_data(kind, n), "type"@);
    } else if kind == "boolean"@ {
        lemma_lookup_set_entry(entries, "data"@, Json::Bool(buf[offset] != 0), "type"@);
    } else if kind == "pubkey"@ {
        let t = Json::Str(crate::address::address_text(buf.subrange(offset, offset + 32)));
        lemma_lookup_set_entry(entries, "data"@, t, "type"@);
    } else if kind == "bytes"@ {
        let size = uint_field(schema, "size"@)->0;
        let e1 = set_entry(entries, "size"@, Json::UInt(size));
        let t = Json::Str(crate::encoding::base64_text(buf.subrange(offset, offset + size)));
        lemma_lookup_set_entry(entries, "size"@, Json::UInt(size), "type"@);
        lemma_lookup_set_entry(e1, "data"@, t, "type"@);
        lemma_lookup_set_entry(e1, "data"@, t, "size"@);
    } else if kind == "string"@ {
        let len = uint_field(schema, "length"@)->0;
        let e1 = set_entry(entries, "length"@, Json::UInt(len));
        let t = Json::Str(crate::encoding::utf8_lossy(buf.subrange(offset, offset + len)));
        lemma_lookup_set_entry(entries, "length"@, Json::UInt(len), "type"@);
        lemma_lookup_set_entry(e1, "data"@, t, "type"@);
        lemma_lookup_set_entry(e1, "data"@, t, "length"@);
    } else {
        let list = field(schema, "data"@)->0->Array_0;
        lemma_data_smaller(schema);
        lemma_unpack_list_declared_width(buf, list, offset);
        let vs = unpack_list_spec(buf, list, offset)->Ok_0;
        lemma_object_entries(field(schema, "name"@), vs);
    }
}

/// Unpacking a list of schemas that declare their widths succeeds wherever the
/// buffer holds their total, and the values have that total byte length.
pub proof fn lemma_unpack_list_declared_width(buf: Seq<u8>, list: Seq<Json>, offset: int)
    requires
        0 <= offset,
        schema_width_list(list) matches Some(w) && offset + w <= buf.len(),
    ensures
        unpack_list_spec(buf, list, offset) matches Ok(vs) && byte_length_list(vs) == Ok::<
            nat,
            TemplateError,
        >(schema_width_list(list)->0),
    decreases list,
{
    if list.len() == 0 {
        assert(byte_length_list(Seq::<Json>::empty()) == Ok::<nat, TemplateError>(0));
    } else {
        let w0 = schema_width(list[0])->0;
        assert(decreases_to!(list => list[0]));
        lemma_unpack_declared_width(buf, list[0], offset);
        let v0 = unpack_spec(buf, list[0], offset)->Ok_0;
        assert(decreases_to!(list => list.drop_first()));
        lemma_unpack_list_declared_width(buf, list.drop_first(), offset + w0);
        let rest = unpack_list_spec(buf, list.drop_first(), offset + w0)->Ok_0;
        lemma_length_list_cons(v0, rest, w0, schema_width_list(list.drop_first())->0);
    }
}

/// Byte-length consistency: where a value is packable under itself as a schema
/// (its bytes are as many as it declares), unpacking its bytes under it gives a
/// value whose byte length is the length of those bytes.
pub proof fn lemma_length_consistent(v: Json, params: Seq<Seq<char>>)
    requires
        pack_spec(v, params) matches Ok(b) && schema_width(v) == Some(b.len()),
    ensures
        unpack_spec(pack_spec(v, params)->Ok_0, v, 0) matches Ok(r) && byte_length(r) == Ok::<
            nat,
            TemplateError,
        >(pack_spec(v, params)->Ok_0.len()),
{
    lemma_unpack_declared_width(pack_spec(v, params)->Ok_0, v, 0);
}

#[via_fn]
proof fn round_trips_decreases(v: Json) {
    lemma_data_smaller(v);
}

/// A value that packing and then unpacking under itself gives back: an unsigned
/// integer typed value whose number fits its width and is at most 2^53 - 1, or an
/// object typed value in the form unpacking writes (`type`, an optional `name`,
/// `data`) whose fields are such values.
pub open spec fn round_trips(v: Json) -> bool
    decreases v via round_trips_decreases
{
    match v {
        Json::Object(e) => match str_field(v, "type"@) {
            Some(kind) => if int_width(kind) is Some {
                match field(v, "data"@) {
                    Some(Json::UInt(n)) => n < pow256(int_width(kind)->0) && n <= MAX_SAFE_INTEGER,
                    _ => false,
                }
            } else if kind == "object"@ {
                match field(v, "data"@) {
                    Some(Json::Array(list)) => e == object_entries(field(v, "name"@), list)
                        && round_trips_list(list),
                    _ => false,
                }
            } else {
                false
            },
            None => false,
        },
        _ => false,
    }
}

pub open spec fn round_trips_list(list: Seq<Json>) -> bool
    decreases list,
{
    list.len() == 0 || (round_trips(list[0]) && round_trips_list(list.drop_first()))
}

proof fn lemma_round_trips_list_all(list: Seq<Json>)
    ensures
        round_trips_list(list) <==> forall|i: int| 0 <= i < list.len() ==> round_trips(#[trigger] list[i]),
    decreases list.len(),
{
    if list.len() > 0 {
        lemma_round_trips_list_all(list.drop_first());
        if forall|i: int| 0 <= i < list.len() ==> round_trips(#[trigger] list[i]) {
            assert forall|i: int| 0 <= i < list.drop_first().len() implies round_trips(
                #[trigger] list.drop_first()[i],
            ) by {
                assert(list.drop_first()[i] == list[i + 1]);
            }
        }
        if round_trips_list(list) {
            assert forall|i: int| 0 <= i < list.len() implies round_trips(#[trigger] list[i]) by {
                if i > 0 {
                    assert(list[i] == list.drop_first()[i - 1]);
                }
            }
        }
    }
}

proof fn lemma_pack_list_cons(x: Json, rest: Seq<Json>, params: Seq<Seq<char>>, a: Seq<u8>, c: Seq<u8>)
    requires
        pack_spec(x, params) == Ok::<Seq<u8>, TemplateError>(a),
        pack_list_spec(rest, params) == Ok::<Seq<u8>, TemplateError>(c),
    ensures
        pack_list_spec(seq![x] + rest, params) == Ok::<Seq<u8>, TemplateError>(a + c),
    decreases rest.len(),
{
    let all = seq![x] + rest;
    if rest.len() == 0 {
        assert(all.drop_last() =~= Seq::<Json>::empty());
        assert(all.last() == x);
        assert(pack_list_spec(all.drop_last(), params) == Ok::<Seq<u8>, TemplateError>(Seq::empty()));
        assert(Seq::<u8>::empty() + a =~= a + c);
    } else {
        let c1 = pack_list_spec(rest.drop_last(), params)->Ok_0;
        let d = pack_spec(rest.last(), params)->Ok_0;
        lemma_pack_list_cons(x, rest.drop_last(), params, a, c1);
        assert(all.drop_last() =~= seq![x] + rest.drop_last());
        assert(all.last() == rest.last());
        assert(c == c1 + d);
        assert(a + c1 + d =~= a + c);
    }
}

/// A value that round-trips packs, and its byte length is the length of its bytes.
proof fn lemma_round_trip_packs(v: Json, params: Seq<Seq<char>>)
    requires
        round_trips(v),
    ensures
        pack_spec(v, params) matches Ok(b) && byte_length(v) == Ok::<nat, TemplateError>(b.len()),
    decreases v,
{
    lemma_kinds_distinct();
    let kind = str_field(v, "type"@)->0;
    lemma_data_smaller(v);
    if int_width(kind) is Some {
        let n = field(v, "data"@)->0->UInt_0;
        crate::encoding::lemma_le_bytes_len(n, int_width(kind)->0);
    } else {
        let list = field(v, "data"@)->0->Array_0;
        lemma_round_trips_list_all(list);
        lemma_round_trip_packs_list(list, params, list.len() as int);
        assert(list.subrange(0, list.len() as int) =~= list);
    }
}

proof fn lemma_round_trip_packs_list(list: Seq<Json>, params: Seq<Seq<char>>, k: int)
    requires
        0 <= k <= list.len(),
        forall|i: int| 0 <= i < list.len() ==> round_trips(#[trigger] list[i]),
    ensures
        pack_list_spec(list.subrange(0, k), params) matches Ok(b) && byte_length_list(
            list.subrange(0, k),
        ) == Ok::<nat, TemplateError>(b.len()),
    decreases list, k,
{
    let q = list.subrange(0, k);
    if k == 0 {
        assert(byte_length_list(q) == Ok::<nat, TemplateError>(0));
    } else {
        lemma_round_trip_packs_list(list, params, k - 1);
        assert(q.drop_last() =~= list.subrange(0, k - 1));
        assert(q.last() == list[k - 1]);
        assert(decreases_to!(list => list[k - 1]));
        lemma_round_trip_packs(list[k - 1], params);
    }
}

/// Bytes that hold a round-tripping value's packing unpack back to that value.
proof fn lemma_round_trip_unpacks(v: Json, params: Seq<Seq<char>>, buf: Seq<u8>, offset: int)
    requires
        round_trips(v),
        0 <= offset,
        pack_spec(v, params) matches Ok(b) && offset + b.len() <= buf.len() && buf.subrange(
            offset,
            offset + b.len(),
        ) == b,
    ensures
        unpack_spec(buf, v, offset) == Ok::<Json, TemplateError>(v),
    decreases v,
{
    lemma_kinds_distinct();
    let e = v->Object_0;
    let kind = str_field(v, "type"@)->0;
    lemma_data_smaller(v);
    if int_width(kind) is Some {
        let w = int_width(kind)->0;
        let n = field(v, "data"@)->0->UInt_0;
        lemma_le_bytes_len(n, w);
        lemma_le_round_trip(n, w);
        crate::encoding::lemma_pow256_positive(w);
        vstd::arithmetic::div_mod::lemma_small_mod(n, pow256(w));
        assert(n % pow256(w) == n);
        lemma_set_entry_same(e, "data"@, Json::UInt(n));
    } else {
        let list = field(v, "data"@)->0->Array_0;
        lemma_round_trip_unpacks_list(list, params, buf, offset);
    }
}

proof fn lemma_round_trip_unpacks_list(list: Seq<Json>, params: Seq<Seq<char>>, buf: Seq<u8>, offset: int)
    requires
        round_trips_list(list),
        0 <= offset,
        pack_list_spec(list, params) matches Ok(b) && offset + b.len() <= buf.len() && buf.subrange(
            offset,
            offset + b.len(),
        ) == b,
    ensures
        unpack_list_spec(buf, list, offset) == Ok::<Seq<Json>, TemplateError>(list),
    decreases list,
{
    if list.len() == 0 {
        assert(list =~= Seq::<Json>::empty());
    } else {
        let x = list[0];
        let rest = list.drop_first();
        assert(list =~= seq![x] + rest);
        assert(decreases_to!(list => list[0]));
        assert(decreases_to!(list => list.drop_first()));
        lemma_round_trip_packs(x, params);
        let a = pack_spec(x, params)->Ok_0;
        lemma_round_trips_list_all(rest);
        lemma_round_trip_packs_list(rest, params, rest.len() as int);
        assert(rest.subrange(0, rest.len() as int) =~= rest);
        let c = pack_list_spec(rest, params)->Ok_0;
        lemma_pack_list_cons(x, rest, params, a, c);
        let b = a + c;
        assert(buf.subrange(offset, offset + a.len()) =~= b.subrange(0, a.len() as int));
        assert(b.subrange(0, a.len() as int) =~= a);
        lemma_round_trip_unpacks(x, params, buf, offset);
        assert(buf.subrange(offset + a.len(), offset + a.len() + c.len()) =~= b.subrange(
            a.len() as int,
            b.len() as int,
        ));
        assert(b.subrange(a.len() as int, b.len() as int) =~= c);
        lemma_round_trip_unpacks_list(rest, params, buf, offset + a.len());
        assert(unpack_spec(buf, list[0], offset) == Ok::<Json, TemplateError>(x));
        assert(byte_length(x) == Ok::<nat, TemplateError>(a.len()));
        assert(unpack_list_spec(buf, list.drop_first(), offset + a.len()) == Ok::<Seq<Json>, TemplateError>(rest));
        assert(seq![x] + rest =~= list);
    }
}

/// Round trip: packing a value made of unsigned integers (up to 2^53 - 1) and
/// objects in the form unpacking writes, with any parameters, and unpacking the
/// bytes under the same value as schema gives the value back.
pub proof fn lemma_round_trip(v: Json, params: Seq<Seq<char>>)
    requires
        round_trips(v),
    ensures
        pack_spec(v, params) matches Ok(b) && unpack_spec(b, v, 0) == Ok::<Json, TemplateError>(v),
{
    lemma_round_trip_packs(v, params);
    let b = pack_spec(v, params)->Ok_0;
    assert(b.subrange(0, b.len() as int) =~= b);
    lemma_round_trip_unpacks(v, params, b, 0);
}

} // verus!
