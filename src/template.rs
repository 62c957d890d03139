//! Transaction templates: their types, the shorthand instruction builders, and
//! their compilation into instructions ready for the network.
use vstd::prelude::*;
use crate::address::{address_text, associated_token_program_bytes, associated_token_program_id, compute_budget_program_bytes, compute_budget_program_id, decode_address, descriptor_address, encode_address, parse_pubkey, system_program_bytes, system_program_id, text_address, token_program_bytes, token_program_id};
use crate::error::TemplateError;
use crate::json::{entry, entries_view, field, items_view, json_str, uint_field, Json, JsonValue};
use crate::pack::{pack_data, pack_spec};
use crate::unpack::{unpack_data, unpack_spec};
use crate::params::{resolve, resolve_value, texts};
use crate::text::same_text;

verus! {

/// An account of an instruction template.
pub struct RawAccountMeta {
    pub pubkey: JsonValue,
    pub is_signer: bool,
    pub is_writable: bool,
}

/// An instruction template: a program id (or a shorthand name), data as a typed
/// value, account metas, and the shorthand's own fields.
pub struct RawInstruction {
    pub program_id: String,
    pub data: JsonValue,
    pub accounts: Vec<RawAccountMeta>,
    pub extra: Vec<(String, JsonValue)>,
}

/// A transaction template.
pub struct RawTransaction {
    pub instructions: Vec<RawInstruction>,
    pub signers: Vec<JsonValue>,
    pub lookup_tables: Option<Vec<JsonValue>>,
}

/// An account of a compiled instruction.
pub struct AccountMeta {
    pub pubkey: [u8; 32],
    pub is_signer: bool,
    pub is_writable: bool,
}

/// A compiled instruction.
pub struct Instruction {
    pub program_id: [u8; 32],
    pub accounts: Vec<AccountMeta>,
    pub data: Vec<u8>,
}

/// Where a signer's keypair comes from: a file, or its bytes.
pub enum SignerSource {
    Path(String),
    Bytes(Vec<u8>),
}

/// A compiled transaction template.
pub struct ParsedTransaction {
    pub instructions: Vec<Instruction>,
    pub signers: Vec<SignerSource>,
    pub lookup_tables: Vec<[u8; 32]>,
}

pub open spec fn meta_view(m: RawAccountMeta) -> (Json, bool, bool) {
    (m.pubkey@, m.is_signer, m.is_writable)
}

pub open spec fn metas_view(ms: Seq<RawAccountMeta>) -> Seq<(Json, bool, bool)> {
    ms.map_values(|m: RawAccountMeta| meta_view(m))
}

pub open spec fn compiled_meta_view(m: AccountMeta) -> (Seq<u8>, bool, bool) {
    (m.pubkey@, m.is_signer, m.is_writable)
}

/// The accounts of a template resolved to addresses, or the first failure.
pub open spec fn metas_spec(metas: Seq<(Json, bool, bool)>, params: Seq<Seq<char>>) -> Result<
    Seq<(Seq<u8>, bool, bool)>,
    TemplateError,
>
    decreases metas.len(),
{
    if metas.len() == 0 {
        Ok(Seq::empty())
    } else {
        match metas_spec(metas.drop_last(), params) {
            Ok(a) => match descriptor_address(metas.last().0, params) {
                Ok(k) => Ok(a.push((k, metas.last().1, metas.last().2))),
                Err(e) => Err(e),
            },
            Err(e) => Err(e),
        }
    }
}

/// An instruction template compiled: its program id (`None` where its text is no
/// address), its accounts and its data.
pub open spec fn compiled_spec(
    program_id: Option<Seq<u8>>,
    metas: Seq<(Json, bool, bool)>,
    data: Json,
    params: Seq<Seq<char>>,
) -> Result<(Seq<u8>, Seq<(Seq<u8>, bool, bool)>, Seq<u8>), TemplateError> {
    match program_id {
        None => Err(TemplateError::InvalidAddress),
        Some(pid) => match metas_spec(metas, params) {
            Err(e) => Err(e),
            Ok(ms) => match pack_spec(data, params) {
                Ok(d) => Ok((pid, ms, d)),
                Err(e) => Err(e),
            },
        },
    }
}

pub open spec fn instruction_view(ix: Instruction) -> (Seq<u8>, Seq<(Seq<u8>, bool, bool)>, Seq<u8>) {
    (ix.program_id@, ix.accounts@.map_values(|m: AccountMeta| compiled_meta_view(m)), ix.data@)
}

/// A typed value: `{"type": kind, "data": data}`.
pub open spec fn typed(kind: Seq<char>, data: Json) -> Json {
    Json::Object(seq![("type"@, Json::Str(kind)), ("data"@, data)])
}

/// The data of the compute budget program's "set compute unit limit": discriminant 2
/// as a `u8`, then the limit as a `u32`.
pub open spec fn cu_limit_data(limit: u32) -> Json {
    typed("object"@, Json::Array(seq![typed("u8"@, Json::UInt(2)), typed("u32"@, Json::UInt(limit as nat))]))
}

/// The data of the system program's transfer: discriminant 2 as a `u32`, then the
/// amount as a `u64`.
pub open spec fn transfer_data(amount: Json) -> Json {
    typed("object"@, Json::Array(seq![typed("u32"@, Json::UInt(2)), typed("u64"@, amount)]))
}

/// The descriptor of the associated token account of `owner` for `mint`.
pub open spec fn ata_descriptor(owner: Seq<char>, mint: Seq<char>) -> Json {
    Json::Object(
        seq![("type"@, Json::Str("ata"@)), ("owner"@, Json::Str(owner)), ("mint"@, Json::Str(mint))],
    )
}

/// `{"type": kind, "data": data}`.
fn typed_value(kind: &str, data: JsonValue) -> (r: JsonValue)
    ensures
        r@ == typed(kind@, data@),
{
    let fields = vec![entry("type", json_str(kind)), entry("data", data)];
    assert(entries_view(fields@) =~= typed(kind@, data@)->Object_0);
    JsonValue::Object(fields)
}

fn meta(pubkey: JsonValue, is_signer: bool, is_writable: bool) -> (r: RawAccountMeta)
    ensures
        meta_view(r) == (pubkey@, is_signer, is_writable),
{
    RawAccountMeta { pubkey, is_signer, is_writable }
}

/// The descriptor of the associated token account of `owner` for `mint`.
fn ata_value(owner: &str, mint: &str) -> (r: JsonValue)
    ensures
        r@ == ata_descriptor(owner@, mint@),
{
    let fields = vec![entry("type", json_str("ata")), entry("owner", json_str(owner)), entry("mint", json_str(mint))];
    assert(entries_view(fields@) =~= ata_descriptor(owner@, mint@)->Object_0);
    JsonValue::Object(fields)
}

/// The instruction that sets the compute unit limit.
pub fn set_cu_limit_tx(limit: u32) -> (r: RawInstruction)
    ensures
        r.program_id@ == address_text(compute_budget_program_bytes()),
        r.data@ == cu_limit_data(limit),
        r.accounts@.len() == 0,
        r.extra@.len() == 0,
{
    let first = typed_value("u8", JsonValue::UInt(2));
    let second = typed_value("u32", JsonValue::UInt(limit as u64));
    let list = vec![first, second];
    assert(items_view(list@) =~= seq![typed("u8"@, Json::UInt(2)), typed("u32"@, Json::UInt(limit as nat))]);
    RawInstruction {
        program_id: encode_address(&compute_budget_program_id()),
        data: typed_value("object", JsonValue::Array(list)),
        accounts: Vec::new(),
        extra: Vec::new(),
    }
}

/// The instruction that creates the associated token account of `owner` for `mint`,
/// paid for by `owner`.
pub fn create_ata_tx(owner: &str, mint: &str) -> (r: RawInstruction)
    ensures
        r.program_id@ == address_text(associated_token_program_bytes()),
        r.data@ == Json::UInt(0),
        metas_view(r.accounts@) == seq![
            (Json::Str(owner@), true, true),
            (ata_descriptor(owner@, mint@), false, true),
            (Json::Str(owner@), true, true),
            (Json::Str(mint@), false, false),
            (Json::Str(address_text(system_program_bytes())), false, false),
            (Json::Str(address_text(token_program_bytes())), false, false),
        ],
        r.extra@.len() == 0,
{
    let system = encode_address(&system_program_id());
    let token = encode_address(&token_program_id());
    let accounts = vec![
        meta(json_str(owner), true, true),
        meta(ata_value(owner, mint), false, true),
        meta(json_str(owner), true, true),
        meta(json_str(mint), false, false),
        meta(JsonValue::Str(system), false, false),
        meta(JsonValue::Str(token), false, false),
    ];
    assert(metas_view(accounts@) =~= seq![
        (Json::Str(owner@), true, true),
        (ata_descriptor(owner@, mint@), false, true),
        (Json::Str(owner@), true, true),
        (Json::Str(mint@), false, false),
        (Json::Str(address_text(system_program_bytes())), false, false),
        (Json::Str(address_text(token_program_bytes())), false, false),
    ]);
    RawInstruction {
        program_id: encode_address(&associated_token_program_id()),
        data: JsonValue::UInt(0),
        accounts,
        extra: Vec::new(),
    }
}

/// The token program instruction that closes the associated token account of
/// `owner` for `mint`, returning its balance to `owner`.
pub fn close_ata_tx(owner: &str, mint: &str) -> (r: RawInstruction)
    ensures
        r.program_id@ == address_text(token_program_bytes()),
        r.data@ == typed("u8"@, Json::UInt(9)),
        metas_view(r.accounts@) == seq![
            (ata_descriptor(owner@, mint@), false, true),
            (Json::Str(owner@), true, true),
            (Json::Str(owner@), true, true),
        ],
        r.extra@.len() == 0,
{
    let accounts = vec![
        meta(ata_value(owner, mint), false, true),
        meta(json_str(owner), true, true),
        meta(json_str(owner), true, true),
    ];
    assert(metas_view(accounts@) =~= seq![
        (ata_descriptor(owner@, mint@), false, true),
        (Json::Str(owner@), true, true),
        (Json::Str(owner@), true, true),
    ]);
    RawInstruction {
        program_id: encode_address(&token_program_id()),
        data: typed_value("u8", JsonValue::UInt(9)),
        accounts,
        extra: Vec::new(),
    }
}

/// The system program instruction that moves `amount` lamports from `from` to `to`.
pub fn transfer_tx(from: &str, to: &str, amount: &JsonValue) -> (r: RawInstruction)
    ensures
        r.program_id@ == address_text(system_program_bytes()),
        r.data@ == transfer_data(amount@),
        metas_view(r.accounts@) == seq![(Json::Str(from@), true, true), (Json::Str(to@), false, true)],
        r.extra@.len() == 0,
{
    let first = typed_value("u32", JsonValue::UInt(2));
    let second = typed_value("u64", amount.duplicate());
    let list = vec![first, second];
    assert(items_view(list@) =~= seq![typed("u32"@, Json::UInt(2)), typed("u64"@, amount@)]);
    let accounts = vec![meta(json_str(from), true, true), meta(json_str(to), false, true)];
    assert(metas_view(accounts@) =~= seq![(Json::Str(from@), true, true), (Json::Str(to@), false, true)]);
    RawInstruction {
        program_id: encode_address(&system_program_id()),
        data: typed_value("object", JsonValue::Array(list)),
        accounts,
        extra: Vec::new(),
    }
}

/// The fields of a shorthand instruction, as an object.
pub open spec fn extra_view(ix: RawInstruction) -> Json {
    Json::Object(entries_view(ix.extra@))
}

/// The text fields `a` and `b` of a shorthand instruction.
pub open spec fn two_texts(extra: Json, a: Seq<char>, b: Seq<char>) -> Result<
    (Seq<char>, Seq<char>),
    TemplateError,
> {
    match (field(extra, a), field(extra, b)) {
        (Some(Json::Str(x)), Some(Json::Str(y))) => Ok((x, y)),
        (Some(_), Some(_)) => Err(TemplateError::InvalidValue),
        _ => Err(TemplateError::MissingField),
    }
}

/// A template with its shorthand (`set_cu_limit`, `transfer`, `create_ata`,
/// `close_ata`) expanded: its program id, accounts and data.
pub open spec fn expanded(ix: RawInstruction) -> Result<
    (Option<Seq<u8>>, Seq<(Json, bool, bool)>, Json),
    TemplateError,
> {
    let pid = ix.program_id@;
    let extra = extra_view(ix);
    if pid == "set_cu_limit"@ {
        match uint_field(extra, "limit"@) {
            Some(l) => Ok(
                (
                    Some(compute_budget_program_bytes()),
                    Seq::empty(),
                    cu_limit_data((l % 0x1_0000_0000) as u32),
                ),
            ),
            None => Err(TemplateError::MissingField),
        }
    } else if pid == "transfer"@ {
        match field(extra, "amount"@) {
            None => Err(TemplateError::MissingField),
            Some(amount) => match two_texts(extra, "from"@, "to"@) {
                Ok((from, to)) => Ok(
                    (
                        Some(system_program_bytes()),
                        seq![(Json::Str(from), true, true), (Json::Str(to), false, true)],
                        transfer_data(amount),
                    ),
                ),
                Err(e) => Err(e),
            },
        }
    } else if pid == "create_ata"@ {
        match two_texts(extra, "owner"@, "mint"@) {
            Ok((owner, mint)) => Ok(
                (
                    Some(associated_token_program_bytes()),
                    seq![
                        (Json::Str(owner), true, true),
                        (ata_descriptor(owner, mint), false, true),
                        (Json::Str(owner), true, true),
                        (Json::Str(mint), false, false),
                        (Json::Str(address_text(system_program_bytes())), false, false),
                        (Json::Str(address_text(token_program_bytes())), false, false),
                    ],
                    Json::UInt(0),
                ),
            ),
            Err(e) => Err(e),
        }
    } else if pid == "close_ata"@ {
        match two_texts(extra, "owner"@, "mint"@) {
            Ok((owner, mint)) => Ok(
                (
                    Some(token_program_bytes()),
                    seq![
                        (ata_descriptor(owner, mint), false, true),
                        (Json::Str(owner), true, true),
                        (Json::Str(owner), true, true),
                    ],
                    typed("u8"@, Json::UInt(9)),
                ),
            ),
            Err(e) => Err(e),
        }
    } else {
        Ok((text_address(pid), metas_view(ix.accounts@), ix.data@))
    }
}

/// What compiling a template gives: the failure of its shorthand, or exactly what
/// `compiled_spec` says.
pub open spec fn ix_outcome(
    ix: RawInstruction,
    params: Seq<Seq<char>>,
    r: Result<Instruction, TemplateError>,
) -> bool {
    match expanded(ix) {
        Err(e) => r == Err::<Instruction, TemplateError>(e),
        Ok((pid, metas, data)) => match r {
            Ok(i) => compiled_spec(pid, metas, data, params) == Ok::<
                (Seq<u8>, Seq<(Seq<u8>, bool, bool)>, Seq<u8>),
                TemplateError,
            >(instruction_view(i)),
            Err(e) => compiled_spec(pid, metas, data, params) == Err::<
                (Seq<u8>, Seq<(Seq<u8>, bool, bool)>, Seq<u8>),
                TemplateError,
            >(e),
        },
    }
}

pub open spec fn program_view(program_id: Option<[u8; 32]>) -> Option<Seq<u8>> {
    match program_id {
        Some(a) => Some(a@),
        None => None,
    }
}

/// Compiles a template for the program with id `program_id`.
fn compile_instruction(
    program_id: Option<[u8; 32]>,
    metas: &Vec<RawAccountMeta>,
    data: &JsonValue,
    params: &Vec<String>,
) -> (r: Result<Instruction, TemplateError>)
    ensures
        match r {
            Ok(i) => compiled_spec(program_view(program_id), metas_view(metas@), data@, texts(params@)) == Ok::<
                (Seq<u8>, Seq<(Seq<u8>, bool, bool)>, Seq<u8>),
                TemplateError,
            >(instruction_view(i)),
            Err(e) => compiled_spec(program_view(program_id), metas_view(metas@), data@, texts(params@))
                == Err::<(Seq<u8>, Seq<(Seq<u8>, bool, bool)>, Seq<u8>), TemplateError>(e),
        },
{
    let ghost p = texts(params@);
    let ghost mv = metas_view(metas@);
    let pid = match program_id {
        Some(a) => a,
        None => {
            return Err(TemplateError::InvalidAddress);
        },
    };
    let mut accounts: Vec<AccountMeta> = Vec::new();
    let mut i: usize = 0;
    assert(mv.subrange(0, 0) =~= Seq::<(Json, bool, bool)>::empty());
    assert(accounts@.map_values(|m: AccountMeta| compiled_meta_view(m)) =~= Seq::<(Seq<u8>, bool, bool)>::empty());
    while i < metas.len()
        invariant
            p == texts(params@),
            mv == metas_view(metas@),
            program_view(program_id) == Some(pid@),
            i <= metas@.len(),
            metas_spec(mv.subrange(0, i as int), p) == Ok::<Seq<(Seq<u8>, bool, bool)>, TemplateError>(
                accounts@.map_values(|m: AccountMeta| compiled_meta_view(m)),
            ),
        decreases metas@.len() - i,
    {
        let ghost q = mv.subrange(0, i + 1);
        assert(q.drop_last() =~= mv.subrange(0, i as int));
        assert(q.last() == meta_view(metas@[i as int]));
        let ghost before = accounts@.map_values(|m: AccountMeta| compiled_meta_view(m));
        match parse_pubkey(&metas[i].pubkey, params) {
            Ok(k) => {
                accounts.push(AccountMeta { pubkey: k, is_signer: metas[i].is_signer, is_writable: metas[i].is_writable });
                assert(accounts@.map_values(|m: AccountMeta| compiled_meta_view(m)) =~= before.push(
                    (k@, metas@[i as int].is_signer, metas@[i as int].is_writable),
                ));
            },
            Err(e) => {
                proof {
                    assert(metas_spec(q, p) == Err::<Seq<(Seq<u8>, bool, bool)>, TemplateError>(e));
                    lemma_metas_error_stays(mv, p, i + 1, e);
                }
                return Err(e);
            },
        }
        i = i + 1;
    }
    assert(mv.subrange(0, i as int) =~= mv);
    match pack_data(data, params) {
        Ok(bytes) => Ok(Instruction { program_id: pid, accounts, data: bytes }),
        Err(e) => Err(e),
    }
}

proof fn lemma_metas_error_stays(
    metas: Seq<(Json, bool, bool)>,
    params: Seq<Seq<char>>,
    i: int,
    e: TemplateError,
)
    requires
        0 <= i <= metas.len(),
        metas_spec(metas.subrange(0, i), params) == Err::<Seq<(Seq<u8>, bool, bool)>, TemplateError>(e),
    ensures
        metas_spec(metas, params) == Err::<Seq<(Seq<u8>, bool, bool)>, TemplateError>(e),
    decreases metas.len() - i,
{
    if i < metas.len() {
        let q = metas.subrange(0, i + 1);
        assert(q.drop_last() =~= metas.subrange(0, i));
        lemma_metas_error_stays(metas, params, i + 1, e);
    } else {
        assert(metas.subrange(0, i) =~= metas);
    }
}

/// The text of a string value.
pub fn value_as_string(value: &JsonValue) -> (r: Result<String, TemplateError>)
    ensures
        match value@ {
            Json::Str(s) => r matches Ok(t) && t@ == s,
            _ => r == Err::<String, TemplateError>(TemplateError::InvalidValue),
        },
{
    match value {
        JsonValue::Str(s) => Ok(s.clone()),
        _ => Err(TemplateError::InvalidValue),
    }
}

/// The text fields `a` and `b` of a shorthand instruction.
fn shorthand_texts(ix: &RawInstruction, a: &str, b: &str) -> (r: Result<(String, String), TemplateError>)
    ensures
        match r {
            Ok((x, y)) => two_texts(extra_view(*ix), a@, b@) == Ok::<(Seq<char>, Seq<char>), TemplateError>((x@, y@)),
            Err(e) => two_texts(extra_view(*ix), a@, b@) == Err::<(Seq<char>, Seq<char>), TemplateError>(e),
        },
{
    let extra = JsonValue::Object(copy_entries(&ix.extra));
    let x = extra.get_field(a);
    let y = extra.get_field(b);
    if x.is_none() || y.is_none() {
        return Err(TemplateError::MissingField);
    }
    match (value_as_string(x.unwrap()), value_as_string(y.unwrap())) {
        (Ok(s), Ok(t)) => Ok((s, t)),
        _ => Err(TemplateError::InvalidValue),
    }
}

/// A copy of object entries.
fn copy_entries(entries: &Vec<(String, JsonValue)>) -> (r: Vec<(String, JsonValue)>)
    ensures
        entries_view(r@) == entries_view(entries@),
{
    let mut out: Vec<(String, JsonValue)> = Vec::new();
    let mut i: usize = 0;
    while i < entries.len()
        invariant
            i <= entries@.len(),
            out@.len() == i,
            forall|k: int| 0 <= k < i ==> (#[trigger] out@[k]).0@ == entries@[k].0@ && out@[k].1@ == entries@[k].1@,
        decreases entries@.len() - i,
    {
        out.push((entries[i].0.clone(), entries[i].1.duplicate()));
        i = i + 1;
    }
    assert(entries_view(out@) =~= entries_view(entries@));
    out
}

/// Compiles an instruction template, expanding its shorthand first.
pub fn parse_ix_from_json(ix: &RawInstruction, params: &Vec<String>) -> (r: Result<Instruction, TemplateError>)
    ensures
        ix_outcome(*ix, texts(params@), r),
{
    let pid = ix.program_id.as_str();
    let extra = JsonValue::Object(copy_entries(&ix.extra));
    assert(extra@ == extra_view(*ix));
    if same_text(pid, "set_cu_limit") {
        let limit = match extra.get_uint("limit") {
            Some(l) => l,
            None => {
                return Err(TemplateError::MissingField);
            },
        };
        let raw = set_cu_limit_tx((limit % 0x1_0000_0000) as u32);
        assert(metas_view(raw.accounts@) =~= Seq::<(Json, bool, bool)>::empty());
        return compile_instruction(Some(compute_budget_program_id()), &raw.accounts, &raw.data, params);
    }
    if same_text(pid, "transfer") {
        let amount = match extra.get_field("amount") {
            Some(a) => a,
            None => {
                return Err(TemplateError::MissingField);
            },
        };
        let (from, to) = match shorthand_texts(ix, "from", "to") {
            Ok(p) => p,
            Err(e) => {
                return Err(e);
            },
        };
        let raw = transfer_tx(from.as_str(), to.as_str(), amount);
        return compile_instruction(Some(system_program_id()), &raw.accounts, &raw.data, params);
    }
    if same_text(pid, "create_ata") || same_text(pid, "close_ata") {
        let (owner, mint) = match shorthand_texts(ix, "owner", "mint") {
            Ok(p) => p,
            Err(e) => {
                return Err(e);
            },
        };
        if same_text(pid, "create_ata") {
            let raw = create_ata_tx(owner.as_str(), mint.as_str());
            return compile_instruction(Some(associated_token_program_id()), &raw.accounts, &raw.data, params);
        } else {
            let raw = close_ata_tx(owner.as_str(), mint.as_str());
            return compile_instruction(Some(token_program_id()), &raw.accounts, &raw.data, params);
        }
    }
    compile_instruction(decode_address(pid), &ix.accounts, &ix.data, params)
}

/// Where a signer value of a template points: a keypair file (a path, which may be
/// a parameter), or the keypair's bytes (each entry taken modulo 256).
pub open spec fn signer_outcome(value: Json, params: Seq<Seq<char>>, r: Result<SignerSource, TemplateError>) -> bool {
    match resolve(value, params) {
        Json::Str(path) => r matches Ok(SignerSource::Path(x)) && x@ == path,
        Json::Array(items) => if forall|i: int| 0 <= i < items.len() ==> #[trigger] items[i] is UInt {
            r matches Ok(SignerSource::Bytes(b)) && b@ == Seq::new(
                items.len(),
                |i: int| (items[i]->UInt_0 % 256) as u8,
            )
        } else {
            r == Err::<SignerSource, TemplateError>(TemplateError::InvalidValue)
        },
        _ => r == Err::<SignerSource, TemplateError>(TemplateError::InvalidValue),
    }
}

/// Where a signer's keypair comes from.
pub fn parse_keypair(value: &JsonValue, params: &Vec<String>) -> (r: Result<SignerSource, TemplateError>)
    ensures
        signer_outcome(value@, texts(params@), r),
{
    let resolved = resolve_value(value, params);
    let ghost rv = resolved@;
    match resolved {
        JsonValue::Str(path) => Ok(SignerSource::Path(path)),
        JsonValue::Array(items) => {
            let ghost l = items_view(items@);
            let mut bytes: Vec<u8> = Vec::new();
            let mut i: usize = 0;
            while i < items.len()
                invariant
                    l == items_view(items@),
                    rv == Json::Array(l),
                    rv == resolve(value@, texts(params@)),
                    i <= items@.len(),
                    bytes@.len() == i,
                    forall|k: int| 0 <= k < i ==> #[trigger] l[k] is UInt && bytes@[k] == (l[k]->UInt_0 % 256) as u8,
                decreases items@.len() - i,
            {
                assert(l[i as int] == items@[i as int]@);
                match &items[i] {
                    JsonValue::UInt(n) => {
                        bytes.push((*n % 256) as u8);
                    },
                    _ => {
                        assert(!(l[i as int] is UInt));
                        return Err(TemplateError::InvalidValue);
                    },
                }
                i = i + 1;
            }
            assert(bytes@ =~= Seq::new(l.len(), |k: int| (l[k]->UInt_0 % 256) as u8));
            Ok(SignerSource::Bytes(bytes))
        },
        _ => Err(TemplateError::InvalidValue),
    }
}

/// The lookup tables of a template; none where it names none.
pub open spec fn table_list(tx: RawTransaction) -> Seq<JsonValue> {
    match tx.lookup_tables {
        Some(t) => t@,
        None => Seq::empty(),
    }
}

/// What compiling a whole template gives: on success each instruction, signer and
/// lookup table compiled as its own function says; on failure the failure of one
/// of them.
pub open spec fn tx_outcome(
    tx: RawTransaction,
    params: Seq<Seq<char>>,
    r: Result<ParsedTransaction, TemplateError>,
) -> bool {
    let tables = table_list(tx);
    match r {
        Ok(pt) => {
            &&& pt.instructions@.len() == tx.instructions@.len()
            &&& forall|i: int|
                0 <= i < tx.instructions@.len() ==> ix_outcome(
                    #[trigger] tx.instructions@[i],
                    params,
                    Ok(pt.instructions@[i]),
                )
            &&& pt.signers@.len() == tx.signers@.len()
            &&& forall|i: int|
                0 <= i < tx.signers@.len() ==> signer_outcome(
                    #[trigger] tx.signers@[i]@,
                    params,
                    Ok(pt.signers@[i]),
                )
            &&& pt.lookup_tables@.len() == tables.len()
            &&& forall|i: int|
                0 <= i < tables.len() ==> descriptor_address(#[trigger] tables[i]@, params) == Ok::<
                    Seq<u8>,
                    TemplateError,
                >(pt.lookup_tables@[i]@)
        },
        Err(e) => {
            ||| exists|i: int|
                0 <= i < tx.instructions@.len() && ix_outcome(
                    #[trigger] tx.instructions@[i],
                    params,
                    Err(e),
                )
            ||| exists|i: int|
                0 <= i < tx.signers@.len() && signer_outcome(#[trigger] tx.signers@[i]@, params, Err(e))
            ||| exists|i: int|
                0 <= i < tables.len() && descriptor_address(#[trigger] tables[i]@, params) == Err::<
                    Seq<u8>,
                    TemplateError,
                >(e)
        },
    }
}

/// Compiles a transaction template: its instructions, its signers' sources and its
/// lookup tables.
pub fn parse_tx_from_json(tx: &RawTransaction, params: &Vec<String>) -> (r: Result<ParsedTransaction, TemplateError>)
    ensures
        tx_outcome(*tx, texts(params@), r),
{
    let ghost p = texts(params@);
    let mut instructions: Vec<Instruction> = Vec::new();
    let mut i: usize = 0;
    while i < tx.instructions.len()
        invariant
            p == texts(params@),
            i <= tx.instructions@.len(),
            instructions@.len() == i,
            forall|k: int| 0 <= k < i ==> ix_outcome(#[trigger] tx.instructions@[k], p, Ok(instructions@[k])),
        decreases tx.instructions@.len() - i,
    {
        match parse_ix_from_json(&tx.instructions[i], params) {
            Ok(ix) => instructions.push(ix),
            Err(e) => {
                assert(ix_outcome(tx.instructions@[i as int], p, Err(e)));
                return Err(e);
            },
        }
        i = i + 1;
    }
    let mut signers: Vec<SignerSource> = Vec::new();
    let mut j: usize = 0;
    while j < tx.signers.len()
        invariant
            p == texts(params@),
            instructions@.len() == tx.instructions@.len(),
            forall|m: int| 0 <= m < tx.instructions@.len() ==> ix_outcome(#[trigger] tx.instructions@[m], p, Ok(instructions@[m])),
            j <= tx.signers@.len(),
            signers@.len() == j,
            forall|k: int| 0 <= k < j ==> signer_outcome(#[trigger] tx.signers@[k]@, p, Ok(signers@[k])),
        decreases tx.signers@.len() - j,
    {
        match parse_keypair(&tx.signers[j], params) {
            Ok(s) => signers.push(s),
            Err(e) => {
                assert(signer_outcome(tx.signers@[j as int]@, p, Err(e)));
                return Err(e);
            },
        }
        j = j + 1;
    }
    let mut lookup_tables: Vec<[u8; 32]> = Vec::new();
    match &tx.lookup_tables {
        Some(tables) => {
            let mut k: usize = 0;
            while k < tables.len()
                invariant
                    p == texts(params@),
                    tx.lookup_tables matches Some(t) && t@ == tables@,
                    instructions@.len() == tx.instructions@.len(),
                    forall|m: int| 0 <= m < tx.instructions@.len() ==> ix_outcome(#[trigger] tx.instructions@[m], p, Ok(instructions@[m])),
                    signers@.len() == tx.signers@.len(),
                    forall|m: int| 0 <= m < tx.signers@.len() ==> signer_outcome(#[trigger] tx.signers@[m]@, p, Ok(signers@[m])),
                    k <= tables@.len(),
                    lookup_tables@.len() == k,
                    forall|m: int| 0 <= m < k ==> descriptor_address(#[trigger] tables@[m]@, p) == Ok::<Seq<u8>, TemplateError>(lookup_tables@[m]@),
                decreases tables@.len() - k,
            {
                match parse_pubkey(&tables[k], params) {
                    Ok(a) => lookup_tables.push(a),
                    Err(e) => {
                        proof {
                            let tt = table_list(*tx);
                            assert(tt[k as int] == tables@[k as int]);
                            assert(descriptor_address(tt[k as int]@, p) == Err::<Seq<u8>, TemplateError>(e));
                        }
                        return Err(e);
                    },
                }
                k = k + 1;
            }
        },
        None => {},
    }
    Ok(ParsedTransaction { instructions, signers, lookup_tables })
}

/// The index of the first instruction whose program id is `pid`.
pub open spec fn first_program(ixs: Seq<RawInstruction>, pid: Seq<char>) -> Option<nat>
    decreases ixs.len(),
{
    if ixs.len() == 0 {
        None
    } else if ixs[0].program_id@ == pid {
        Some(0)
    } else {
        match first_program(ixs.drop_first(), pid) {
            Some(i) => Some(i + 1),
            None => None,
        }
    }
}

proof fn lemma_first_program_bound(ixs: Seq<RawInstruction>, pid: Seq<char>)
    ensures
        first_program(ixs, pid) matches Some(i) ==> i < ixs.len() && ixs[i as int].program_id@ == pid,
    decreases ixs.len(),
{
    if ixs.len() > 0 && ixs[0].program_id@ != pid {
        lemma_first_program_bound(ixs.drop_first(), pid);
    }
}

/// Re-derives the data of the first instruction for `program_id` through a schema:
/// its data is packed (with no parameters) and unpacked under `format`, and the
/// typed value that comes out replaces it. On failure the template is unchanged.
pub fn set_data_format(tx: &mut RawTransaction, format: &JsonValue, program_id: &str) -> (r: Result<
    (),
    TemplateError,
>)
    ensures
        r is Err ==> *final(tx) == *old(tx),
        first_program(old(tx).instructions@, program_id@) is None ==> r == Err::<(), TemplateError>(
            TemplateError::ProgramNotFound,
        ),
        first_program(old(tx).instructions@, program_id@) matches Some(i) ==> {
            let ix = old(tx).instructions@[i as int];
            match pack_spec(ix.data@, Seq::empty()) {
                Err(e) => r == Err::<(), TemplateError>(e),
                Ok(b) => match unpack_spec(b, format@, 0) {
                    Err(e) => r == Err::<(), TemplateError>(e),
                    Ok(v) => {
                        &&& r is Ok
                        &&& final(tx).signers == old(tx).signers
                        &&& final(tx).lookup_tables == old(tx).lookup_tables
                        &&& final(tx).instructions@.len() == old(tx).instructions@.len()
                        &&& forall|k: int| 0 <= k < old(tx).instructions@.len() && k != i
                            ==> #[trigger] final(tx).instructions@[k] == old(tx).instructions@[k]
                        &&& final(tx).instructions@[i as int].data@ == v
                        &&& final(tx).instructions@[i as int].program_id == ix.program_id
                        &&& final(tx).instructions@[i as int].accounts == ix.accounts
                        &&& final(tx).instructions@[i as int].extra == ix.extra
                    },
                },
            }
        },
{
    let ghost ixs = tx.instructions@;
    let mut i: usize = 0;
    assert(ixs.skip(0) =~= ixs);
    while i < tx.instructions.len() && !same_text(tx.instructions[i].program_id.as_str(), program_id)
        invariant
            ixs == tx.instructions@,
            i <= ixs.len(),
            first_program(ixs, program_id@) == match first_program(ixs.skip(i as int), program_id@) {
                Some(k) => Some((k + i) as nat),
                None => None::<nat>,
            },
        decreases ixs.len() - i,
    {
        assert(ixs.skip(i as int)[0] == ixs[i as int]);
        assert(ixs.skip(i as int).drop_first() =~= ixs.skip(i + 1));
        i = i + 1;
    }
    if i == tx.instructions.len() {
        assert(ixs.skip(i as int) =~= Seq::<RawInstruction>::empty());
        return Err(TemplateError::ProgramNotFound);
    }
    assert(ixs.skip(i as int)[0] == ixs[i as int]);
    let no_params: Vec<String> = Vec::new();
    assert(texts(no_params@) =~= Seq::<Seq<char>>::empty());
    let bytes = match pack_data(&tx.instructions[i].data, &no_params) {
        Ok(b) => b,
        Err(e) => {
            return Err(e);
        },
    };
    let value = match unpack_data(bytes.as_slice(), format, 0) {
        Ok(v) => v,
        Err(e) => {
            return Err(e);
        },
    };
    let old_ix = tx.instructions.remove(i);
    let new_ix = RawInstruction {
        program_id: old_ix.program_id,
        data: value,
        accounts: old_ix.accounts,
        extra: old_ix.extra,
    };
    tx.instructions.insert(i, new_ix);
    assert forall|k: int| 0 <= k < ixs.len() && k != i implies #[trigger] tx.instructions@[k] == ixs[k] by {
        if k < i {
            assert(tx.instructions@[k] == ixs.remove(i as int)[k]);
        } else {
            assert(tx.instructions@[k] == ixs.remove(i as int)[k - 1]);
        }
    }
    Ok(())
}

} // verus!
