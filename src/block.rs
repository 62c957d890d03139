//! Block summaries: each transaction of a block with its instructions, its
//! accounts' flags and names, its logs and its accounts' balance changes.
use vstd::prelude::*;
use crate::decompile::{native_program, normalize_data, normalized_data, parse_native_program, texts_of, AccountInfo, DecodedInstruction};
use crate::json::{entry, entries_view, field, items_view, str_field, Json, JsonValue};
use crate::text::{decimal, i128_text, same_text, signed_decimal, u64_text};

verus! {

/// A transaction of a block, as the network layer decodes it.
pub struct BlockTransaction {
    pub signature: String,
    pub accounts: Vec<AccountInfo>,
    pub instructions: Vec<DecodedInstruction>,
    pub pre_balances: Vec<u64>,
    pub post_balances: Vec<u64>,
    pub logs: Vec<String>,
}

/// Whether a value of parsed instruction info names `pk`: the text itself, an
/// array holding it, or an object whose `pubkey`, `wallet` or `owner` is it.
pub open spec fn names_account(v: Json, pk: Seq<char>) -> bool {
    match v {
        Json::Str(s) => s == pk,
        Json::Array(items) => items.contains(Json::Str(pk)),
        Json::Object(_) => str_field(v, "pubkey"@) == Some(pk) || str_field(v, "wallet"@) == Some(pk)
            || str_field(v, "owner"@) == Some(pk),
        _ => false,
    }
}

/// The key of the first entry that names `pk`.
pub open spec fn first_name(entries: Seq<(Seq<char>, Json)>, pk: Seq<char>) -> Option<Seq<char>>
    decreases entries.len(),
{
    if entries.len() == 0 {
        None
    } else if names_account(entries[0].1, pk) {
        Some(entries[0].0)
    } else {
        first_name(entries.drop_first(), pk)
    }
}

/// The name under which parsed instruction info refers to an account.
pub open spec fn account_name(pk: Seq<char>, parsed: Json) -> Option<Seq<char>> {
    match parsed {
        Json::Object(e) => first_name(e, pk),
        _ => None,
    }
}

/// The flags of the last account with key `pk`; neither flag where none has it.
pub open spec fn flags_of(infos: Seq<AccountInfo>, pk: Seq<char>) -> (bool, bool)
    decreases infos.len(),
{
    if infos.len() == 0 {
        (false, false)
    } else if infos.last().pubkey@ == pk {
        (infos.last().signer, infos.last().writable)
    } else {
        flags_of(infos.drop_last(), pk)
    }
}

/// The key that an account reference names: an index into the accounts, or a key.
pub open spec fn referenced_key(acc: Json, infos: Seq<AccountInfo>) -> Seq<char> {
    match acc {
        Json::UInt(i) => if i < infos.len() {
            infos[i as int].pubkey@
        } else {
            Seq::empty()
        },
        Json::Str(s) => s,
        _ => Seq::empty(),
    }
}

/// An account of an instruction in a block summary.
pub open spec fn account_summary(acc: Json, infos: Seq<AccountInfo>, parsed: Option<Json>) -> Json {
    let pk = referenced_key(acc, infos);
    let flags = flags_of(infos, pk);
    let base = seq![
        ("pubkey"@, Json::Str(pk)),
        ("isSigner"@, Json::Bool(flags.0)),
        ("isWritable"@, Json::Bool(flags.1)),
    ];
    match parsed {
        Some(p) => match account_name(pk, p) {
            Some(n) => Json::Object(base.push(("name"@, Json::Str(n)))),
            None => Json::Object(base),
        },
        None => Json::Object(base),
    }
}

/// The program id, the parsed form and the account references of an instruction.
pub open spec fn block_parts(ix: DecodedInstruction, infos: Seq<AccountInfo>) -> (
    Seq<char>,
    Option<Json>,
    Seq<Json>,
) {
    match ix {
        DecodedInstruction::Compiled { program_id_index, account_indices, data } => (
            if (program_id_index as int) < infos.len() {
                infos[program_id_index as int].pubkey@
            } else {
                Seq::empty()
            },
            None,
            account_indices@.map_values(|i: u8| Json::UInt(i as nat)),
        ),
        DecodedInstruction::Parsed { program_id, parsed } => (program_id@, Some(parsed@), Seq::empty()),
        DecodedInstruction::PartiallyDecoded { program_id, accounts, data } => (
            program_id@,
            None,
            texts_of(accounts@).map_values(|s: Seq<char>| Json::Str(s)),
        ),
    }
}

/// The data of an instruction in a block summary, before normalization.
pub open spec fn block_data(ix: DecodedInstruction, pid: Seq<char>, parsed: Option<Json>) -> Json {
    match parsed {
        Some(p) => match native_program(pid, p).1 {
            Some(d) => d,
            None => match field(p, "info"@) {
                Some(i) => i,
                None => p,
            },
        },
        None => match ix {
            DecodedInstruction::Compiled { data, .. } => Json::Str(data@),
            _ => Json::Null,
        },
    }
}

/// An instruction in a block summary.
pub open spec fn instruction_summary(ix: DecodedInstruction, infos: Seq<AccountInfo>) -> Json {
    let parts = block_parts(ix, infos);
    let native = match parts.1 {
        Some(p) => native_program(parts.0, p).0,
        None => Seq::empty(),
    };
    let refs = if parts.2.len() > 0 {
        parts.2
    } else {
        native.map_values(|s: Seq<char>| Json::Str(s))
    };
    Json::Object(
        seq![
            ("program"@, Json::Str(parts.0)),
            ("data"@, normalized_data(block_data(ix, parts.0, parts.1))),
            (
                "accounts"@,
                Json::Array(Seq::new(refs.len(), |k: int| account_summary(refs[k], infos, parts.1))),
            ),
        ],
    )
}

/// An integer as JSON: a number where `JsonValue` holds it, else its decimal text.
pub open spec fn int_json(d: int) -> Json {
    if d >= 0 && d <= u64::MAX {
        Json::UInt(d as nat)
    } else if i64::MIN <= d < 0 {
        Json::NegInt(d)
    } else {
        Json::Decimal(signed_decimal(d))
    }
}

/// A balance of the list, or null past its end.
pub open spec fn balance_at(b: Seq<u64>, i: int) -> Json {
    if 0 <= i < b.len() {
        Json::UInt(b[i] as nat)
    } else {
        Json::Null
    }
}

/// The change of an account's balance, or zero where either balance is missing.
pub open spec fn balance_change(pre: Seq<u64>, post: Seq<u64>, i: int) -> int {
    if 0 <= i < pre.len() && i < post.len() {
        post[i] - pre[i]
    } else {
        0
    }
}

/// An account of a transaction in a block summary, with its balances.
pub open spec fn account_balance_summary(tx: BlockTransaction, i: int) -> Json {
    let info = tx.accounts@[i];
    Json::Object(
        seq![
            ("pubkey"@, Json::Str(info.pubkey@)),
            ("isSigner"@, Json::Bool(info.signer)),
            ("isWritable"@, Json::Bool(info.writable)),
            ("preBalance"@, balance_at(tx.pre_balances@, i)),
            ("postBalance"@, balance_at(tx.post_balances@, i)),
            ("balanceChange"@, int_json(balance_change(tx.pre_balances@, tx.post_balances@, i))),
        ],
    )
}

/// A transaction in a block summary.
pub open spec fn transaction_summary(tx: BlockTransaction) -> Json {
    Json::Object(
        seq![
            ("signature"@, Json::Str(tx.signature@)),
            (
                "ixs"@,
                Json::Array(
                    Seq::new(
                        tx.instructions@.len(),
                        |k: int| instruction_summary(tx.instructions@[k], tx.accounts@),
                    ),
                ),
            ),
            (
                "meta"@,
                Json::Object(
                    seq![
                        (
                            "logs"@,
                            Json::Array(
                                Seq::new(tx.logs@.len(), |k: int| Json::Str(tx.logs@[k]@)),
                            ),
                        ),
                        (
                            "accounts"@,
                            Json::Array(
                                Seq::new(
                                    tx.accounts@.len(),
                                    |k: int| account_balance_summary(tx, k),
                                ),
                            ),
                        ),
                    ],
                ),
            ),
        ],
    )
}

/// A block summary: its slot as text, and its transactions.
pub open spec fn block_summary(slot: u64, txs: Seq<BlockTransaction>) -> Json {
    Json::Object(
        seq![
            ("slot"@, Json::Str(decimal(slot as nat))),
            ("txs"@, Json::Array(Seq::new(txs.len(), |k: int| transaction_summary(txs[k])))),
        ],
    )
}

/// Whether a value of parsed instruction info names `pk`.
fn names(v: &JsonValue, pk: &str) -> (r: bool)
    ensures
        r == names_account(v@, pk@),
{
    match v {
        JsonValue::Str(s) => same_text(s.as_str(), pk),
        JsonValue::Array(items) => {
            let ghost l = items_view(items@);
            let mut i: usize = 0;
            while i < items.len()
                invariant
                    l == items_view(items@),
                    v@ == Json::Array(l),
                    i <= items@.len(),
                    forall|k: int| 0 <= k < i ==> l[k] != Json::Str(pk@),
                decreases items@.len() - i,
            {
                assert(l[i as int] == items@[i as int]@);
                match &items[i] {
                    JsonValue::Str(s) => {
                        if same_text(s.as_str(), pk) {
                            assert(l[i as int] == Json::Str(pk@));
                            return true;
                        }
                    },
                    _ => {},
                }
                i = i + 1;
            }
            assert(!l.contains(Json::Str(pk@)));
            false
        },
        JsonValue::Object(_) => {
            let a = match v.get_str("pubkey") {
                Some(s) => same_text(s.as_str(), pk),
                None => false,
            };
            let b = match v.get_str("wallet") {
                Some(s) => same_text(s.as_str(), pk),
                None => false,
            };
            let c = match v.get_str("owner") {
                Some(s) => same_text(s.as_str(), pk),
                None => false,
            };
            a || b || c
        },
        _ => false,
    }
}

/// The name under which parsed instruction info refers to the account `pubkey`.
pub fn find_account_name(pubkey: &str, parsed_info: &JsonValue) -> (r: Option<String>)
    ensures
        match r {
            Some(n) => account_name(pubkey@, parsed_info@) == Some(n@),
            None => account_name(pubkey@, parsed_info@) is None,
        },
{
    match parsed_info {
        JsonValue::Object(entries) => {
            let ghost e = entries_view(entries@);
            let mut i: usize = 0;
            assert(e.skip(0) =~= e);
            while i < entries.len()
                invariant
                    e == entries_view(entries@),
                    parsed_info@ == Json::Object(e),
                    i <= entries@.len(),
                    first_name(e, pubkey@) == first_name(e.skip(i as int), pubkey@),
                decreases entries@.len() - i,
            {
                assert(e.skip(i as int)[0] == (entries@[i as int].0@, entries@[i as int].1@));
                if names(&entries[i].1, pubkey) {
                    return Some(entries[i].0.clone());
                }
                assert(e.skip(i as int).drop_first() =~= e.skip(i + 1));
                i = i + 1;
            }
            None
        },
        _ => None,
    }
}

/// The flags of the last account with key `pk`.
fn flags(infos: &Vec<AccountInfo>, pk: &str) -> (r: (bool, bool))
    ensures
        r == flags_of(infos@, pk@),
{
    let mut i: usize = infos.len();
    assert(infos@.subrange(0, i as int) =~= infos@);
    while i > 0
        invariant
            i <= infos@.len(),
            flags_of(infos@, pk@) == flags_of(infos@.subrange(0, i as int), pk@),
        decreases i,
    {
        let ghost q = infos@.subrange(0, i as int);
        assert(q.drop_last() =~= infos@.subrange(0, i - 1));
        if same_text(infos[i - 1].pubkey.as_str(), pk) {
            return (infos[i - 1].signer, infos[i - 1].writable);
        }
        i = i - 1;
    }
    (false, false)
}

proof fn lemma_flags_full(infos: Seq<AccountInfo>, pk: Seq<char>)
    ensures
        flags_of(infos, pk) == flags_of(infos.subrange(0, infos.len() as int), pk),
{
    assert(infos.subrange(0, infos.len() as int) =~= infos);
}

/// The accounts of an instruction in a block summary, with their flags and, where
/// the parsed instruction refers to them, their names.
pub fn normalize_ix_accounts(
    accounts: &Vec<JsonValue>,
    infos: &Vec<AccountInfo>,
    parsed: Option<&JsonValue>,
) -> (r: Vec<JsonValue>)
    ensures
        items_view(r@) == Seq::new(
            accounts@.len(),
            |k: int|
                account_summary(
                    accounts@[k]@,
                    infos@,
                    match parsed {
                        Some(p) => Some(p@),
                        None => None,
                    },
                ),
        ),
{
    let ghost pv = match parsed {
        Some(p) => Some(p@),
        None => None::<Json>,
    };
    let mut out: Vec<JsonValue> = Vec::new();
    let mut i: usize = 0;
    while i < accounts.len()
        invariant
            pv == match parsed {
                Some(p) => Some(p@),
                None => None::<Json>,
            },
            i <= accounts@.len(),
            out@.len() == i,
            forall|k: int| 0 <= k < i ==> (#[trigger] out@[k])@ == account_summary(accounts@[k]@, infos@, pv),
        decreases accounts@.len() - i,
    {
        let pk: String = match &accounts[i] {
            JsonValue::UInt(n) => if (*n as u128) < (infos.len() as u128) {
                infos[*n as usize].pubkey.clone()
            } else {
                String::new()
            },
            JsonValue::Str(s) => s.clone(),
            _ => String::new(),
        };
        assert(pk@ == referenced_key(accounts@[i as int]@, infos@));
        proof {
            lemma_flags_full(infos@, pk@);
        }
        let (sg, wr) = flags(infos, pk.as_str());
        let name = match parsed {
            Some(p) => find_account_name(pk.as_str(), p),
            None => None,
        };
        let mut fields = vec![
            entry("pubkey", JsonValue::Str(pk.clone())),
            entry("isSigner", JsonValue::Bool(sg)),
            entry("isWritable", JsonValue::Bool(wr)),
        ];
        let ghost base = entries_view(fields@);
        match name {
            Some(n) => {
                fields.push(entry("name", JsonValue::Str(n)));
                assert(entries_view(fields@) =~= base.push(("name"@, Json::Str(n@))));
            },
            None => {},
        }
        proof {
            assert(base =~= seq![
                ("pubkey"@, Json::Str(pk@)),
                ("isSigner"@, Json::Bool(sg)),
                ("isWritable"@, Json::Bool(wr)),
            ]);
            assert(entries_view(fields@) == account_summary(accounts@[i as int]@, infos@, pv)->Object_0);
        }
        out.push(JsonValue::Object(fields));
        i = i + 1;
    }
    assert(items_view(out@) =~= Seq::new(accounts@.len(), |k: int| account_summary(accounts@[k]@, infos@, pv)));
    out
}

/// An instruction in a block summary.
pub fn instruction_summary_json(ix: &DecodedInstruction, infos: &Vec<AccountInfo>) -> (r: JsonValue)
    ensures
        r@ == instruction_summary(*ix, infos@),
{
    let ghost parts = block_parts(*ix, infos@);
    let (program_id, parsed, refs): (String, Option<&JsonValue>, Vec<JsonValue>) = match ix {
        DecodedInstruction::Compiled { program_id_index, account_indices, data } => {
            let k = *program_id_index as usize;
            let pid = if k < infos.len() {
                infos[k].pubkey.clone()
            } else {
                String::new()
            };
            let mut refs: Vec<JsonValue> = Vec::new();
            let mut i: usize = 0;
            while i < account_indices.len()
                invariant
                    i <= account_indices@.len(),
                    refs@.len() == i,
                    forall|m: int| 0 <= m < i ==> (#[trigger] refs@[m])@ == Json::UInt(account_indices@[m] as nat),
                decreases account_indices@.len() - i,
            {
                refs.push(JsonValue::UInt(account_indices[i] as u64));
                i = i + 1;
            }
            assert(items_view(refs@) =~= parts.2);
            (pid, None, refs)
        },
        DecodedInstruction::Parsed { program_id, parsed } => {
            let refs: Vec<JsonValue> = Vec::new();
            assert(items_view(refs@) =~= parts.2);
            (program_id.clone(), Some(parsed), refs)
        },
        DecodedInstruction::PartiallyDecoded { program_id, accounts, data } => {
            let mut refs: Vec<JsonValue> = Vec::new();
            let mut i: usize = 0;
            while i < accounts.len()
                invariant
                    i <= accounts@.len(),
                    refs@.len() == i,
                    forall|m: int| 0 <= m < i ==> (#[trigger] refs@[m])@ == Json::Str(accounts@[m]@),
                decreases accounts@.len() - i,
            {
                refs.push(JsonValue::Str(accounts[i].clone()));
                i = i + 1;
            }
            assert(items_view(refs@) =~= parts.2);
            (program_id.clone(), None, refs)
        },
    };
    let ghost pv = match parsed {
        Some(p) => Some(p@),
        None => None::<Json>,
    };
    assert(program_id@ == parts.0 && pv == parts.1 && items_view(refs@) == parts.2);
    let (native_accounts, native_data) = match parsed {
        Some(p) => parse_native_program(program_id.as_str(), p),
        None => {
            let empty: Vec<String> = Vec::new();
            assert(texts_of(empty@) =~= Seq::<Seq<char>>::empty());
            (empty, None)
        },
    };
    let data = match native_data {
        Some(d) => d,
        None => match parsed {
            Some(p) => match p.get_field("info") {
                Some(i) => i.duplicate(),
                None => p.duplicate(),
            },
            None => match ix {
                DecodedInstruction::Compiled { data, .. } => JsonValue::Str(data.clone()),
                _ => JsonValue::Null,
            },
        },
    };
    assert(data@ == block_data(*ix, parts.0, parts.1));
    let refs = if refs.len() > 0 {
        refs
    } else {
        let mut out: Vec<JsonValue> = Vec::new();
        let mut i: usize = 0;
        while i < native_accounts.len()
            invariant
                i <= native_accounts@.len(),
                out@.len() == i,
                forall|m: int| 0 <= m < i ==> (#[trigger] out@[m])@ == Json::Str(native_accounts@[m]@),
            decreases native_accounts@.len() - i,
        {
            out.push(JsonValue::Str(native_accounts[i].clone()));
            i = i + 1;
        }
        assert(items_view(out@) =~= texts_of(native_accounts@).map_values(|s: Seq<char>| Json::Str(s)));
        out
    };
    let ghost rv = items_view(refs@);
    let accounts = normalize_ix_accounts(&refs, infos, parsed);
    assert(items_view(accounts@) =~= Seq::new(rv.len(), |k: int| account_summary(rv[k], infos@, pv)));
    let fields = vec![
        entry("program", JsonValue::Str(program_id)),
        entry("data", normalize_data(data)),
        entry("accounts", JsonValue::Array(accounts)),
    ];
    assert(entries_view(fields@) =~= instruction_summary(*ix, infos@)->Object_0);
    JsonValue::Object(fields)
}

/// A balance of the list, or null past its end.
fn balance_json(b: &Vec<u64>, i: usize) -> (r: JsonValue)
    ensures
        r@ == balance_at(b@, i as int),
{
    if i < b.len() {
        JsonValue::UInt(b[i])
    } else {
        JsonValue::Null
    }
}

/// An integer as JSON.
fn int_value(d: i128) -> (r: JsonValue)
    ensures
        r@ == int_json(d as int),
{
    if d >= 0 && d <= 0xffff_ffff_ffff_ffff {
        JsonValue::UInt(d as u64)
    } else if d < 0 && d >= -0x8000_0000_0000_0000 {
        JsonValue::NegInt(d as i64)
    } else {
        JsonValue::Decimal(i128_text(d))
    }
}

/// A transaction in a block summary.
pub fn transaction_summary_json(tx: &BlockTransaction) -> (r: JsonValue)
    ensures
        r@ == transaction_summary(*tx),
{
    let mut ixs: Vec<JsonValue> = Vec::new();
    let mut i: usize = 0;
    while i < tx.instructions.len()
        invariant
            i <= tx.instructions@.len(),
            ixs@.len() == i,
            forall|m: int| 0 <= m < i ==> (#[trigger] ixs@[m])@ == instruction_summary(tx.instructions@[m], tx.accounts@),
        decreases tx.instructions@.len() - i,
    {
        ixs.push(instruction_summary_json(&tx.instructions[i], &tx.accounts));
        i = i + 1;
    }
    let mut logs: Vec<JsonValue> = Vec::new();
    let mut j: usize = 0;
    while j < tx.logs.len()
        invariant
            j <= tx.logs@.len(),
            logs@.len() == j,
            forall|m: int| 0 <= m < j ==> (#[trigger] logs@[m])@ == Json::Str(tx.logs@[m]@),
        decreases tx.logs@.len() - j,
    {
        logs.push(JsonValue::Str(tx.logs[j].clone()));
        j = j + 1;
    }
    let mut accounts: Vec<JsonValue> = Vec::new();
    let mut k: usize = 0;
    while k < tx.accounts.len()
        invariant
            k <= tx.accounts@.len(),
            accounts@.len() == k,
            forall|m: int| 0 <= m < k ==> (#[trigger] accounts@[m])@ == account_balance_summary(*tx, m),
        decreases tx.accounts@.len() - k,
    {
        let info = &tx.accounts[k];
        let change: i128 = if k < tx.pre_balances.len() && k < tx.post_balances.len() {
            (tx.post_balances[k] as i128) - (tx.pre_balances[k] as i128)
        } else {
            0
        };
        let fields = vec![
            entry("pubkey", JsonValue::Str(info.pubkey.clone())),
            entry("isSigner", JsonValue::Bool(info.signer)),
            entry("isWritable", JsonValue::Bool(info.writable)),
            entry("preBalance", balance_json(&tx.pre_balances, k)),
            entry("postBalance", balance_json(&tx.post_balances, k)),
            entry("balanceChange", int_value(change)),
        ];
        assert(entries_view(fields@) =~= account_balance_summary(*tx, k as int)->Object_0);
        accounts.push(JsonValue::Object(fields));
        k = k + 1;
    }
    let ghost iv = items_view(ixs@);
    let ghost lv = items_view(logs@);
    let ghost av = items_view(accounts@);
    let meta = vec![entry("logs", JsonValue::Array(logs)), entry("accounts", JsonValue::Array(accounts))];
    let ghost mv = entries_view(meta@);
    let fields = vec![
        entry("signature", JsonValue::Str(tx.signature.clone())),
        entry("ixs", JsonValue::Array(ixs)),
        entry("meta", JsonValue::Object(meta)),
    ];
    proof {
        assert(iv =~= Seq::new(tx.instructions@.len(), |m: int| instruction_summary(tx.instructions@[m], tx.accounts@)));
        assert(lv =~= Seq::new(tx.logs@.len(), |m: int| Json::Str(tx.logs@[m]@)));
        assert(av =~= Seq::new(tx.accounts@.len(), |m: int| account_balance_summary(*tx, m)));
        assert(mv =~= seq![("logs"@, Json::Array(lv)), ("accounts"@, Json::Array(av))]);
        assert(entries_view(fields@) =~= transaction_summary(*tx)->Object_0);
    }
    JsonValue::Object(fields)
}

/// The summary of a block: its slot as text, and each of its transactions.
pub fn parse_block(slot: u64, txs: &Vec<BlockTransaction>) -> (r: JsonValue)
    ensures
        r@ == block_summary(slot, txs@),
{
    let mut out: Vec<JsonValue> = Vec::new();
    let mut i: usize = 0;
    while i < txs.len()
        invariant
            i <= txs@.len(),
            out@.len() == i,
            forall|m: int| 0 <= m < i ==> (#[trigger] out@[m])@ == transaction_summary(txs@[m]),
        decreases txs@.len() - i,
    {
        out.push(transaction_summary_json(&txs[i]));
        i = i + 1;
    }
    let ghost ov = items_view(out@);
    let fields = vec![entry("slot", JsonValue::Str(u64_text(slot))), entry("txs", JsonValue::Array(out))];
    proof {
        assert(ov =~= Seq::new(txs@.len(), |m: int| transaction_summary(txs@[m])));
        assert(entries_view(fields@) =~= block_summary(slot, txs@)->Object_0);
    }
    JsonValue::Object(fields)
}

} // verus!
