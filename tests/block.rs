use soltnet::block::{find_account_name, normalize_ix_accounts, parse_block, BlockTransaction};
use soltnet::decompile::{AccountInfo, DecodedInstruction};
use soltnet::json::JsonValue;
use soltnet::program::{add_account, serialize_account_info};

fn s(x: &str) -> JsonValue {
    JsonValue::Str(x.to_string())
}

fn obj(pairs: Vec<(&str, JsonValue)>) -> JsonValue {
    JsonValue::Object(pairs.into_iter().map(|(k, v)| (k.to_string(), v)).collect())
}

fn info(pubkey: &str, signer: bool, writable: bool) -> AccountInfo {
    AccountInfo { pubkey: pubkey.to_string(), signer, writable }
}

#[test]
fn account_names_come_from_parsed_info() {
    let parsed = obj(vec![
        ("source", s("A")),
        ("owners", JsonValue::Array(vec![s("B")])),
        ("authority", obj(vec![("wallet", s("C"))])),
    ]);
    assert_eq!(find_account_name("A", &parsed), Some("source".to_string()));
    assert_eq!(find_account_name("B", &parsed), Some("owners".to_string()));
    assert_eq!(find_account_name("C", &parsed), Some("authority".to_string()));
    assert_eq!(find_account_name("D", &parsed), None);
    assert_eq!(find_account_name("A", &s("A")), None);
}

#[test]
fn instruction_accounts_carry_flags_and_names() {
    let infos = vec![info("A", true, true), info("B", false, false)];
    let parsed = obj(vec![("source", s("A"))]);
    let out = normalize_ix_accounts(&vec![JsonValue::UInt(0), s("B"), JsonValue::UInt(7)], &infos, Some(&parsed));
    assert_eq!(
        out,
        vec![
            obj(vec![("pubkey", s("A")), ("isSigner", JsonValue::Bool(true)), ("isWritable", JsonValue::Bool(true)), ("name", s("source"))]),
            obj(vec![("pubkey", s("B")), ("isSigner", JsonValue::Bool(false)), ("isWritable", JsonValue::Bool(false))]),
            obj(vec![("pubkey", s("")), ("isSigner", JsonValue::Bool(false)), ("isWritable", JsonValue::Bool(false))]),
        ]
    );
}

#[test]
fn block_summary_lists_transactions_and_balance_changes() {
    let tx = BlockTransaction {
        signature: "sig".to_string(),
        accounts: vec![info("A", true, true), info("P", false, false)],
        instructions: vec![DecodedInstruction::Compiled {
            program_id_index: 1,
            account_indices: vec![0],
            data: "AQID".to_string(),
        }],
        pre_balances: vec![10, 5],
        post_balances: vec![4],
        logs: vec!["log".to_string()],
    };
    let summary = parse_block(42, &vec![tx]);
    let account = |pk: &str, signer: bool, writable: bool, pre: JsonValue, post: JsonValue, change: JsonValue| {
        obj(vec![
            ("pubkey", s(pk)),
            ("isSigner", JsonValue::Bool(signer)),
            ("isWritable", JsonValue::Bool(writable)),
            ("preBalance", pre),
            ("postBalance", post),
            ("balanceChange", change),
        ])
    };
    let expected = obj(vec![
        ("slot", s("42")),
        (
            "txs",
            JsonValue::Array(vec![obj(vec![
                ("signature", s("sig")),
                (
                    "ixs",
                    JsonValue::Array(vec![obj(vec![
                        ("program", s("P")),
                        ("data", s("0x010203")),
                        (
                            "accounts",
                            JsonValue::Array(vec![obj(vec![
                                ("pubkey", s("A")),
                                ("isSigner", JsonValue::Bool(true)),
                                ("isWritable", JsonValue::Bool(true)),
                            ])]),
                        ),
                    ])]),
                ),
                (
                    "meta",
                    obj(vec![
                        ("logs", JsonValue::Array(vec![s("log")])),
                        (
                            "accounts",
                            JsonValue::Array(vec![
                                account("A", true, true, JsonValue::UInt(10), JsonValue::UInt(4), JsonValue::NegInt(-6)),
                                account("P", false, false, JsonValue::UInt(5), JsonValue::Null, JsonValue::UInt(0)),
                            ]),
                        ),
                    ]),
                ),
            ])]),
        ),
    ]);
    assert_eq!(summary, expected);
}

#[test]
fn account_set_keeps_distinct_non_empty_keys() {
    let mut set = Vec::new();
    add_account(&mut set, "A");
    add_account(&mut set, "");
    add_account(&mut set, "B");
    add_account(&mut set, "A");
    assert_eq!(set, vec!["A".to_string(), "B".to_string()]);
}

#[test]
fn account_json_holds_base64_data() {
    let j = serialize_account_info("K", 7, &vec![1, 2, 3], "O", false, 9);
    assert_eq!(
        j,
        obj(vec![
            ("pubkey", s("K")),
            (
                "account",
                obj(vec![
                    ("lamports", JsonValue::UInt(7)),
                    ("data", JsonValue::Array(vec![s("AQID"), s("base64")])),
                    ("owner", s("O")),
                    ("executable", JsonValue::Bool(false)),
                    ("rentEpoch", JsonValue::UInt(9)),
                    ("space", JsonValue::UInt(3)),
                ]),
            ),
        ])
    );
}
