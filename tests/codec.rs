use soltnet::address::{parse_pubkey, system_program_id};
use soltnet::error::TemplateError;
use soltnet::json::JsonValue;
use soltnet::pack::{pack_data, parse_bool, parse_u64};
use soltnet::params::{param_index, resolve_value};
use soltnet::text::{i128_text, parse_i64_text, parse_u64_text, u64_text};
use soltnet::unpack::{get_byte_length, unpack_data};

fn s(x: &str) -> JsonValue {
    JsonValue::Str(x.to_string())
}

fn n(x: u64) -> JsonValue {
    JsonValue::UInt(x)
}

fn obj(pairs: Vec<(&str, JsonValue)>) -> JsonValue {
    JsonValue::Object(pairs.into_iter().map(|(k, v)| (k.to_string(), v)).collect())
}

fn typed(kind: &str, data: JsonValue) -> JsonValue {
    obj(vec![("type", s(kind)), ("data", data)])
}

fn payload() -> JsonValue {
    obj(vec![
        ("type", s("object")),
        ("name", s("payload")),
        (
            "data",
            JsonValue::Array(vec![
                typed("u8", n(2)),
                typed("u16", n(500)),
                typed("u32", n(42)),
                typed("u64", n(99)),
            ]),
        ),
    ])
}

#[test]
fn pack_and_unpack_roundtrip() {
    let schema = payload();
    let data = pack_data(&schema, &vec![]).expect("pack");
    let unpacked = unpack_data(&data, &schema, 0).expect("unpack");
    assert_eq!(unpacked, payload());
}

#[test]
fn pack_object_from_param_string() {
    let params = vec![r#"[{"type":"u8","data":7}]"#.to_string()];
    let data = obj(vec![("type", s("object")), ("data", s("$1"))]);
    let packed = pack_data(&data, &params).expect("pack");
    assert_eq!(packed, vec![7u8]);
}

#[test]
fn object_data_from_json_text_needs_an_array() {
    let nested = vec![r#" [{"type":"u16","data":"$2"}, [1, 2]]"#.to_string(), "513".to_string()];
    let data = obj(vec![("type", s("object")), ("data", s("$1"))]);
    assert_eq!(pack_data(&data, &nested), Ok(vec![1, 2, 1, 2]));
    let not_array = vec![r#"{"type":"u8","data":7}"#.to_string()];
    assert_eq!(pack_data(&data, &not_array), Err(TemplateError::InvalidValue));
    let broken = vec!["[1,".to_string()];
    assert_eq!(pack_data(&data, &broken), Err(TemplateError::InvalidValue));
}

#[test]
fn roundtrip_payload_is_fifteen_bytes() {
    let data = pack_data(&payload(), &vec![]).expect("pack");
    assert_eq!(data, vec![2, 244, 1, 42, 0, 0, 0, 99, 0, 0, 0, 0, 0, 0, 0]);
    let unpacked = unpack_data(&data, &payload(), 0).expect("unpack");
    assert_eq!(get_byte_length(&unpacked), Ok(15));
}

#[test]
fn resolve_substitutes_existing_parameter() {
    let params = vec!["abc".to_string()];
    assert_eq!(resolve_value(&s("$1"), &params), s("abc"));
}

#[test]
fn resolve_keeps_reference_past_the_parameters() {
    let params = vec!["abc".to_string()];
    assert_eq!(resolve_value(&s("$5"), &params), s("$5"));
}

#[test]
fn resolve_keeps_literal_and_non_strings() {
    assert_eq!(resolve_value(&s("literal"), &vec![]), s("literal"));
    assert_eq!(resolve_value(&n(1), &vec!["x".to_string()]), n(1));
}

#[test]
fn param_index_reads_positions() {
    assert_eq!(param_index("$1"), Some(0));
    assert_eq!(param_index("$12"), Some(11));
    assert_eq!(param_index("$0"), None);
    assert_eq!(param_index("$01"), None);
    assert_eq!(param_index("$"), None);
    assert_eq!(param_index("1"), None);
    assert_eq!(param_index("$1a"), None);
}

#[test]
fn u64_at_max_safe_integer_stays_a_number() {
    let buf = 9_007_199_254_740_991u64.to_le_bytes();
    let r = unpack_data(&buf, &obj(vec![("type", s("u64"))]), 0).expect("unpack");
    assert_eq!(r, obj(vec![("type", s("u64")), ("data", n(9_007_199_254_740_991))]));
}

#[test]
fn u64_above_max_safe_integer_becomes_text() {
    let buf = 9_007_199_254_740_992u64.to_le_bytes();
    let r = unpack_data(&buf, &obj(vec![("type", s("u64"))]), 0).expect("unpack");
    assert_eq!(r, obj(vec![("type", s("u64")), ("data", s("9007199254740992"))]));
}

#[test]
fn unpack_past_the_end_is_out_of_bounds() {
    let r = unpack_data(&[0x01], &obj(vec![("type", s("u16"))]), 0);
    assert_eq!(r, Err(TemplateError::OutOfBounds));
}

#[test]
fn unpack_errors_by_kind() {
    assert_eq!(unpack_data(&[1], &obj(vec![("data", n(1))]), 0), Err(TemplateError::MissingField));
    assert_eq!(unpack_data(&[1], &obj(vec![("type", s("f32"))]), 0), Err(TemplateError::UnsupportedType));
    assert_eq!(unpack_data(&[1], &n(3), 0), Err(TemplateError::UnsupportedType));
    assert_eq!(unpack_data(&[1, 2], &obj(vec![("type", s("bytes"))]), 0), Err(TemplateError::MissingField));
}

#[test]
fn length_matches_packed_length_for_each_type() {
    let cases = vec![
        typed("u8", n(7)),
        typed("u16", n(7)),
        typed("u32", n(7)),
        typed("u64", n(7)),
        obj(vec![("type", s("bytes")), ("size", n(3)), ("data", s("0x010203"))]),
        obj(vec![("type", s("string")), ("length", n(5)), ("data", s("aGVsbG8="))]),
        typed("pubkey", s("11111111111111111111111111111111")),
        obj(vec![
            ("type", s("object")),
            ("data", JsonValue::Array(vec![typed("u8", n(1)), typed("u32", n(2))])),
        ]),
    ];
    for v in cases {
        let packed = pack_data(&v, &vec![]).expect("pack");
        let unpacked = unpack_data(&packed, &v, 0).expect("unpack");
        assert_eq!(get_byte_length(&unpacked), Ok(packed.len()));
    }
}

#[test]
fn unpack_bytes_string_pubkey_and_boolean() {
    let buf = [1u8, 2, 3, 104, 105, 0];
    let schema = JsonValue::Array(vec![
        obj(vec![("type", s("bytes")), ("size", n(3))]),
        obj(vec![("type", s("string")), ("length", n(2))]),
        obj(vec![("type", s("boolean"))]),
    ]);
    let r = unpack_data(&buf, &schema, 0).expect("unpack");
    assert_eq!(
        r,
        JsonValue::Array(vec![
            obj(vec![("type", s("bytes")), ("size", n(3)), ("data", s("AQID"))]),
            obj(vec![("type", s("string")), ("length", n(2)), ("data", s("hi"))]),
            obj(vec![("type", s("boolean")), ("data", JsonValue::Bool(false))]),
        ])
    );
    let zeros = [0u8; 32];
    let key = unpack_data(&zeros, &obj(vec![("type", s("pubkey"))]), 0).expect("unpack");
    assert_eq!(key, typed("pubkey", s("11111111111111111111111111111111")));
}

#[test]
fn pack_scalars_and_encodings() {
    assert_eq!(pack_data(&JsonValue::Bool(true), &vec![]), Ok(vec![1]));
    assert_eq!(pack_data(&JsonValue::Null, &vec![]), Ok(vec![]));
    assert_eq!(pack_data(&n(3), &vec![]), Ok(vec![0, 0, 0]));
    assert_eq!(pack_data(&s("0xdeadBEEF"), &vec![]), Ok(vec![0xde, 0xad, 0xbe, 0xef]));
    assert_eq!(pack_data(&s("AQID"), &vec![]), Ok(vec![1, 2, 3]));
    assert_eq!(pack_data(&s("0x123"), &vec![]), Err(TemplateError::InvalidEncoding));
    assert_eq!(pack_data(&s("not base64!"), &vec![]), Err(TemplateError::InvalidEncoding));
    assert_eq!(
        pack_data(&JsonValue::Array(vec![n(1), JsonValue::NegInt(-1), s("258"), JsonValue::Bool(true)]), &vec![]),
        Ok(vec![1, 255, 2, 1])
    );
    assert_eq!(pack_data(&typed("u16", n(0x1_0102)), &vec![]), Ok(vec![2, 1]));
    assert_eq!(pack_data(&typed("u32", s("$1")), &vec!["7".to_string()]), Ok(vec![7, 0, 0, 0]));
}

#[test]
fn pack_errors_by_kind() {
    assert_eq!(pack_data(&obj(vec![("data", n(1))]), &vec![]), Err(TemplateError::MissingField));
    assert_eq!(pack_data(&obj(vec![("type", s("u8"))]), &vec![]), Err(TemplateError::MissingField));
    assert_eq!(pack_data(&typed("f64", n(1)), &vec![]), Err(TemplateError::UnsupportedType));
    assert_eq!(pack_data(&typed("u8", s("x")), &vec![]), Err(TemplateError::InvalidValue));
    assert_eq!(pack_data(&JsonValue::NegInt(-2), &vec![]), Err(TemplateError::InvalidValue));
    assert_eq!(pack_data(&typed("pubkey", s("nope")), &vec![]), Err(TemplateError::InvalidAddress));
    assert_eq!(pack_data(&typed("object", n(1)), &vec![]), Err(TemplateError::InvalidValue));
}

#[test]
fn parse_helpers_read_data_values() {
    assert_eq!(parse_u64(&s("42")), Ok(42));
    assert_eq!(parse_u64(&JsonValue::Bool(true)), Ok(1));
    assert_eq!(parse_u64(&s("-1")), Err(TemplateError::InvalidValue));
    assert_eq!(parse_bool(&s("true")), Ok(true));
    assert_eq!(parse_bool(&s("yes")), Ok(false));
    assert_eq!(parse_bool(&n(1)), Err(TemplateError::InvalidValue));
}

#[test]
fn pack_pubkey_from_parameter() {
    let params = vec!["11111111111111111111111111111111".to_string()];
    let r = pack_data(&typed("pubkey", s("$1")), &params).expect("pack");
    assert_eq!(r, system_program_id().to_vec());
    let k = parse_pubkey(&s("system_program"), &vec![]).expect("tag");
    assert_eq!(k, system_program_id());
}

#[test]
fn integer_text_matches_std() {
    for n in [0u64, 7, 10, 99, 100, 12_345, u64::MAX] {
        assert_eq!(u64_text(n), n.to_string());
    }
    for n in [0i128, -1, 42, -9_876, i128::MAX, i128::MIN] {
        assert_eq!(i128_text(n), n.to_string());
    }
    for t in ["0", "+5", "007", "18446744073709551615", "18446744073709551616", "", "+", "-1", "1a", " 1"] {
        assert_eq!(parse_u64_text(t), t.parse::<u64>().ok(), "{t}");
    }
    for t in ["0", "-0", "+5", "-5", "9223372036854775807", "9223372036854775808", "-9223372036854775808", "-9223372036854775809", "-", "--1", ""] {
        assert_eq!(parse_i64_text(t), t.parse::<i64>().ok(), "{t}");
    }
}
