use std::str::FromStr;

use soltnet::address::{associated_token_program_id, parse_pubkey, system_program_id, token_program_id};
use soltnet::amount::{add_underscores, format_amount, parse_sol_to_lamports, remove_underscores, AmountError};
use soltnet::decompile::{accounts_from_raw, parse_native_program, parse_tx_to_json, AccountInfo, DecodedInstruction};
use soltnet::error::TemplateError;
use soltnet::json::JsonValue;
use soltnet::program::{extract_elf_bytes, try_get_upgradeable_program_data_address};
use soltnet::template::{
    set_data_format, create_ata_tx, parse_ix_from_json, parse_keypair, parse_tx_from_json,
    set_cu_limit_tx, transfer_tx, RawAccountMeta, RawInstruction, RawTransaction, SignerSource,
};
use solana_sdk::pubkey::Pubkey;

const SYSTEM: &str = "11111111111111111111111111111111";
const TOKEN: &str = "TokenkegQfeZyiNwAJbNbGKPFXCWuBvf9Ss623VQ5DA";
const ATA_PROGRAM: &str = "ATokenGPvbdGVxr1b2hvZbsiqW5xWH25efTNsLJA8knL";

fn s(x: &str) -> JsonValue {
    JsonValue::Str(x.to_string())
}

fn obj(pairs: Vec<(&str, JsonValue)>) -> JsonValue {
    JsonValue::Object(pairs.into_iter().map(|(k, v)| (k.to_string(), v)).collect())
}

fn ata_of(owner: &Pubkey, mint: &Pubkey) -> Pubkey {
    let token = Pubkey::from_str(TOKEN).unwrap();
    let program = Pubkey::from_str(ATA_PROGRAM).unwrap();
    Pubkey::find_program_address(&[owner.as_ref(), token.as_ref(), mint.as_ref()], &program).0
}

#[test]
fn parse_pubkey_resolves_params() {
    let params = vec![SYSTEM.to_string()];
    let pk = parse_pubkey(&s("$1"), &params).expect("pubkey");
    assert_eq!(pk, system_program_id());
}

#[test]
fn parse_pubkey_ata_matches_pda() {
    let owner = Pubkey::new_unique();
    let mint = Pubkey::new_unique();
    let expected = ata_of(&owner, &mint);
    let value = obj(vec![
        ("type", s("ata")),
        ("owner", s(&owner.to_string())),
        ("mint", s(&mint.to_string())),
    ]);
    let derived = parse_pubkey(&value, &vec![]).expect("ata");
    assert_eq!(derived, expected.to_bytes());
    let again = parse_pubkey(&value, &vec![]).expect("ata");
    assert_eq!(derived, again);
}

#[test]
fn well_known_program_ids() {
    assert_eq!(system_program_id(), Pubkey::from_str(SYSTEM).unwrap().to_bytes());
    assert_eq!(token_program_id(), Pubkey::from_str(TOKEN).unwrap().to_bytes());
    assert_eq!(associated_token_program_id(), Pubkey::from_str(ATA_PROGRAM).unwrap().to_bytes());
    assert_eq!(parse_pubkey(&obj(vec![("type", s("token_program"))]), &vec![]), Ok(token_program_id()));
    let budget = Pubkey::from_str("ComputeBudget111111111111111111111111111111").unwrap();
    assert_eq!(parse_pubkey(&obj(vec![("type", s("compute_budget_program"))]), &vec![]), Ok(budget.to_bytes()));
}

#[test]
fn parse_pubkey_errors() {
    assert_eq!(parse_pubkey(&s("not-an-address"), &vec![]), Err(TemplateError::InvalidAddress));
    assert_eq!(parse_pubkey(&JsonValue::UInt(3), &vec![]), Err(TemplateError::UnsupportedDescriptor));
    assert_eq!(parse_pubkey(&obj(vec![("type", s("vault"))]), &vec![]), Err(TemplateError::UnsupportedDescriptor));
    assert_eq!(parse_pubkey(&obj(vec![("type", s("ata")), ("owner", s(SYSTEM))]), &vec![]), Err(TemplateError::UnsupportedDescriptor));
    assert_eq!(
        parse_pubkey(&obj(vec![("type", s("ata")), ("owner", s("bad")), ("mint", s(SYSTEM))]), &vec![]),
        Err(TemplateError::InvalidAddress)
    );
}

#[test]
fn format_amount_inserts_underscores() {
    assert_eq!(format_amount(0), "0");
    assert_eq!(format_amount(12_345), "12_345");
    assert_eq!(format_amount(123_456_789), "123_456_789");
    assert_eq!(format_amount(-987_654), "-987_654");
}

#[test]
fn format_amount_handles_fractional() {
    assert_eq!(format_amount("1234567.8901"), "1_234_567.8_901");
}

#[test]
fn format_amount_trims_and_regroups() {
    assert_eq!(format_amount("  1_000000 "), "1_000_000");
    assert_eq!(format_amount(""), "");
    assert_eq!(format_amount(u64::MAX), "18_446_744_073_709_551_615");
    assert_eq!(format_amount(-5i128), "-5");
}

#[test]
fn underscore_helpers() {
    assert_eq!(remove_underscores("1_000_0"), "10000");
    assert_eq!(add_underscores("1234567"), "1_234_567");
    assert_eq!(add_underscores("123"), "123");
    assert_eq!(add_underscores(""), "");
}

#[test]
fn sol_amounts_to_lamports() {
    assert_eq!(parse_sol_to_lamports("1"), Ok(1_000_000_000));
    assert_eq!(parse_sol_to_lamports("1.5"), Ok(1_500_000_000));
    assert_eq!(parse_sol_to_lamports(" 0.000000001 "), Ok(1));
    assert_eq!(parse_sol_to_lamports("1_000"), Ok(1_000_000_000_000));
    assert_eq!(parse_sol_to_lamports(".25"), Ok(250_000_000));
    assert_eq!(parse_sol_to_lamports(""), Err(AmountError::Empty));
    assert_eq!(parse_sol_to_lamports("-1"), Err(AmountError::Negative));
    assert_eq!(parse_sol_to_lamports("1.2.3"), Err(AmountError::TooManyPoints));
    assert_eq!(parse_sol_to_lamports("1x"), Err(AmountError::NotANumber));
    assert_eq!(parse_sol_to_lamports("0.0000000001"), Err(AmountError::TooManyDecimals));
    assert_eq!(parse_sol_to_lamports("18446744074"), Err(AmountError::TooLarge));
}

#[test]
fn raw_message_flags() {
    let keys: Vec<String> = vec!["a".into(), "b".into(), "c".into(), "d".into()];
    let infos = accounts_from_raw(2, 1, 1, &keys);
    let flags: Vec<(bool, bool)> = infos.iter().map(|i| (i.signer, i.writable)).collect();
    assert_eq!(flags, vec![(true, true), (true, false), (false, true), (false, false)]);
}

#[test]
fn native_transfer_is_recognised() {
    let parsed = obj(vec![
        ("type", s("transfer")),
        ("info", obj(vec![("source", s("A")), ("destination", s("B")), ("lamports", JsonValue::UInt(5))])),
    ]);
    let (accounts, data) = parse_native_program(SYSTEM, &parsed);
    assert_eq!(accounts, vec!["A".to_string(), "B".to_string()]);
    let typed = |k: &str, d: JsonValue| obj(vec![("type", s(k)), ("data", d)]);
    assert_eq!(
        data,
        Some(typed("object", JsonValue::Array(vec![typed("u32", JsonValue::UInt(2)), typed("u64", JsonValue::UInt(5))])))
    );
    let (other, none) = parse_native_program(SYSTEM, &s("x"));
    assert!(other.is_empty() && none.is_none());
}

#[test]
fn decompiler_replaces_associated_accounts() {
    let wallet = Pubkey::new_unique();
    let mint = Pubkey::new_unique();
    let ata = ata_of(&wallet, &mint);
    let accounts = vec![
        AccountInfo { pubkey: wallet.to_string(), signer: true, writable: true },
        AccountInfo { pubkey: ata.to_string(), signer: false, writable: true },
        AccountInfo { pubkey: mint.to_string(), signer: false, writable: false },
        AccountInfo { pubkey: TOKEN.to_string(), signer: false, writable: false },
    ];
    let ix = DecodedInstruction::Compiled { program_id_index: 3, account_indices: vec![1, 0, 2], data: "".to_string() };
    let template = parse_tx_to_json(&accounts, &vec![ix]);
    let meta = |pk: JsonValue, signer: bool, writable: bool| {
        obj(vec![("pubkey", pk), ("is_signer", JsonValue::Bool(signer)), ("is_writable", JsonValue::Bool(writable))])
    };
    let expected = obj(vec![
        (
            "instructions",
            JsonValue::Array(vec![obj(vec![
                ("program_id", s(TOKEN)),
                ("data", s("")),
                (
                    "accounts",
                    JsonValue::Array(vec![
                        meta(obj(vec![("type", s("ata")), ("owner", s("$1")), ("mint", s(&mint.to_string()))]), false, true),
                        meta(s("$1"), true, true),
                        meta(s(&mint.to_string()), false, false),
                    ]),
                ),
            ])]),
        ),
        ("signers", JsonValue::Array(vec![s("$2")])),
    ]);
    assert_eq!(template, expected);
}

#[test]
fn decompiler_numbers_distinct_signers() {
    let accounts = vec![
        AccountInfo { pubkey: "A".to_string(), signer: true, writable: true },
        AccountInfo { pubkey: "A".to_string(), signer: true, writable: true },
        AccountInfo { pubkey: "B".to_string(), signer: true, writable: false },
    ];
    let ix = DecodedInstruction::PartiallyDecoded { program_id: SYSTEM.to_string(), accounts: vec!["B".to_string()], data: "".to_string() };
    let template = parse_tx_to_json(&accounts, &vec![ix]);
    let meta = obj(vec![("pubkey", s("$2")), ("is_signer", JsonValue::Bool(true)), ("is_writable", JsonValue::Bool(false))]);
    let expected = obj(vec![
        (
            "instructions",
            JsonValue::Array(vec![obj(vec![("program_id", s(SYSTEM)), ("data", s("")), ("accounts", JsonValue::Array(vec![meta]))])]),
        ),
        ("signers", JsonValue::Array(vec![s("$3"), s("$4")])),
    ]);
    assert_eq!(template, expected);
}

fn decompiled_data(data: &str) -> JsonValue {
    let accounts = vec![AccountInfo { pubkey: SYSTEM.to_string(), signer: false, writable: false }];
    let ix = DecodedInstruction::PartiallyDecoded { program_id: SYSTEM.to_string(), accounts: vec![], data: data.to_string() };
    match parse_tx_to_json(&accounts, &vec![ix]) {
        JsonValue::Object(fields) => match &fields[0].1 {
            JsonValue::Array(ixs) => match &ixs[0] {
                JsonValue::Object(f) => f[1].1.duplicate(),
                _ => panic!("instruction"),
            },
            _ => panic!("instructions"),
        },
        _ => panic!("template"),
    }
}

#[test]
fn decompiler_hex_encodes_opaque_data() {
    assert_eq!(decompiled_data("AQID"), s("0x010203"));
    assert_eq!(decompiled_data("3yZe7d"), s("0x74657374"));
    assert_eq!(decompiled_data("!!"), s("!!"));
}

fn plain_ix(program_id: &str, data: JsonValue, accounts: Vec<RawAccountMeta>) -> RawInstruction {
    RawInstruction { program_id: program_id.to_string(), data, accounts, extra: vec![] }
}

#[test]
fn instructions_compile_from_templates() {
    let ix = plain_ix(
        SYSTEM,
        obj(vec![("type", s("u8")), ("data", JsonValue::UInt(9))]),
        vec![RawAccountMeta { pubkey: s("$1"), is_signer: true, is_writable: false }],
    );
    let c = parse_ix_from_json(&ix, &vec![SYSTEM.to_string()]).expect("compile");
    assert_eq!(c.program_id, system_program_id());
    assert_eq!(c.data, vec![9]);
    assert_eq!(c.accounts.len(), 1);
    assert!(c.accounts[0].is_signer && !c.accounts[0].is_writable);
    let bad = plain_ix("nope", JsonValue::Null, vec![]);
    assert!(matches!(parse_ix_from_json(&bad, &vec![]), Err(TemplateError::InvalidAddress)));
}

#[test]
fn shorthand_instructions_expand() {
    let limit = RawInstruction {
        program_id: "set_cu_limit".to_string(),
        data: JsonValue::Null,
        accounts: vec![],
        extra: vec![("limit".to_string(), JsonValue::UInt(200_000))],
    };
    let c = parse_ix_from_json(&limit, &vec![]).expect("limit");
    assert_eq!(c.data, vec![2, 0x40, 0x0d, 0x03, 0x00]);
    let raw = set_cu_limit_tx(200_000);
    assert_eq!(raw.program_id, "ComputeBudget111111111111111111111111111111");
    let transfer = transfer_tx(SYSTEM, SYSTEM, &JsonValue::UInt(5));
    let t = parse_ix_from_json(&transfer, &vec![]).expect("transfer");
    assert_eq!(t.data, vec![2, 0, 0, 0, 5, 0, 0, 0, 0, 0, 0, 0]);
    let owner = Pubkey::new_unique();
    let mint = Pubkey::new_unique();
    let create = create_ata_tx(&owner.to_string(), &mint.to_string());
    let c = parse_ix_from_json(&create, &vec![]).expect("create");
    assert_eq!(c.accounts[1].pubkey, ata_of(&owner, &mint).to_bytes());
    assert!(c.data.is_empty());
    let missing = RawInstruction { program_id: "close_ata".to_string(), data: JsonValue::Null, accounts: vec![], extra: vec![] };
    assert!(matches!(parse_ix_from_json(&missing, &vec![]), Err(TemplateError::MissingField)));
}

#[test]
fn signer_sources() {
    assert!(matches!(parse_keypair(&s("$1"), &vec!["/k.json".to_string()]), Ok(SignerSource::Path(p)) if p == "/k.json"));
    assert!(matches!(parse_keypair(&JsonValue::Array(vec![JsonValue::UInt(1), JsonValue::UInt(257)]), &vec![]), Ok(SignerSource::Bytes(b)) if b == vec![1, 1]));
    assert!(matches!(parse_keypair(&JsonValue::Bool(true), &vec![]), Err(TemplateError::InvalidValue)));
}

#[test]
fn transactions_compile() {
    let tx = RawTransaction {
        instructions: vec![plain_ix(SYSTEM, JsonValue::Null, vec![])],
        signers: vec![s("/k.json")],
        lookup_tables: Some(vec![s(TOKEN)]),
    };
    let pt = parse_tx_from_json(&tx, &vec![]).expect("tx");
    assert_eq!(pt.instructions.len(), 1);
    assert_eq!(pt.lookup_tables, vec![token_program_id()]);
}

#[test]
fn data_format_rewrites_first_matching_instruction() {
    let mut tx = RawTransaction {
        instructions: vec![plain_ix(SYSTEM, s("0x0201"), vec![])],
        signers: vec![],
        lookup_tables: None,
    };
    let format = obj(vec![("type", s("u16"))]);
    set_data_format(&mut tx, &format, SYSTEM).expect("format");
    assert_eq!(tx.instructions[0].data, obj(vec![("type", s("u16")), ("data", JsonValue::UInt(0x0102))]));
    assert_eq!(set_data_format(&mut tx, &format, TOKEN), Err(TemplateError::ProgramNotFound));
}

#[test]
fn program_data_helpers() {
    assert_eq!(extract_elf_bytes(&[1, 0x7f, b'E', b'L', b'F', 9]), Some(vec![0x7f, b'E', b'L', b'F', 9]));
    assert_eq!(extract_elf_bytes(&[1, 2, 3]), None);
    let mut data = vec![2u8, 0, 0, 0];
    data.extend_from_slice(&[7u8; 32]);
    assert_eq!(try_get_upgradeable_program_data_address(&data), Some([7u8; 32]));
    data[0] = 3;
    assert_eq!(try_get_upgradeable_program_data_address(&data), None);
}
