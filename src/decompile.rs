//! The decompiler: a decoded transaction back to a JSON transaction template.
use vstd::prelude::*;
use crate::address::{address_text, ata_address, associated_token_program_bytes, associated_token_program_id, decode_address, derive_ata, encode_address, system_program_bytes, system_program_id, text_address};
use crate::encoding::{base58_decoded, base64_decoded, decode_base58, decode_base64, hex_text, prefixed_hex};
use crate::json::{entry, entries_view, field, items_view, json_str, str_field, Json, JsonValue};
use crate::template::transfer_data;
use crate::text::{decimal, join_text, same_text};

verus! {

/// An account of a decoded transaction, with its flags.
pub struct AccountInfo {
    pub pubkey: String,
    pub signer: bool,
    pub writable: bool,
}

/// An instruction of a decoded transaction, as the network layer hands it over.
pub enum DecodedInstruction {
    /// Indices into the transaction's accounts, and base58 data.
    Compiled { program_id_index: u8, account_indices: Vec<u8>, data: String },
    /// A native-program instruction that the network layer has parsed.
    Parsed { program_id: String, parsed: JsonValue },
    /// An instruction with its accounts resolved and its data still encoded.
    PartiallyDecoded { program_id: String, accounts: Vec<String>, data: String },
}

/// An associated token account found among a transaction's accounts.
pub struct AtaMatch {
    pub owner: String,
    pub mint: String,
    pub pubkey: String,
}

/// The flags of the accounts of a raw message: the first `num_signers` sign, and
/// in each group the read-only accounts come last.
pub open spec fn raw_flags(
    idx: int,
    len: int,
    num_signers: int,
    num_readonly_signed: int,
    num_readonly_unsigned: int,
) -> (bool, bool) {
    let signer = idx < num_signers;
    let writable = if signer {
        idx + num_readonly_signed < num_signers
    } else {
        idx + num_readonly_unsigned < len
    };
    (signer, writable)
}

/// The accounts of a raw message with the flags its header gives them.
pub fn accounts_from_raw(
    num_required_signatures: u8,
    num_readonly_signed_accounts: u8,
    num_readonly_unsigned_accounts: u8,
    keys: &Vec<String>,
) -> (r: Vec<AccountInfo>)
    ensures
        r@.len() == keys@.len(),
        forall|i: int|
            0 <= i < keys@.len() ==> (#[trigger] r@[i]).pubkey@ == keys@[i]@ && (r@[i].signer, r@[i].writable)
                == raw_flags(
                i,
                keys@.len() as int,
                num_required_signatures as int,
                num_readonly_signed_accounts as int,
                num_readonly_unsigned_accounts as int,
            ),
{
    let n = keys.len();
    let mut out: Vec<AccountInfo> = Vec::new();
    let mut i: usize = 0;
    while i < n
        invariant
            n == keys@.len(),
            i <= n,
            out@.len() == i,
            forall|j: int|
                0 <= j < i ==> (#[trigger] out@[j]).pubkey@ == keys@[j]@ && (out@[j].signer, out@[j].writable)
                    == raw_flags(
                    j,
                    n as int,
                    num_required_signatures as int,
                    num_readonly_signed_accounts as int,
                    num_readonly_unsigned_accounts as int,
                ),
        decreases n - i,
    {
        let signer = i < num_required_signatures as usize;
        let writable = if signer {
            i + (num_readonly_signed_accounts as usize) < num_required_signatures as usize
        } else {
            (i as u128) + (num_readonly_unsigned_accounts as u128) < (n as u128)
        };
        out.push(AccountInfo { pubkey: keys[i].clone(), signer, writable });
        i = i + 1;
    }
    out
}

/// Whether `s` is among `list`.
pub fn contains_text(list: &Vec<String>, s: &str) -> (r: bool)
    ensures
        r == exists|k: int| 0 <= k < list@.len() && #[trigger] list@[k]@ == s@,
{
    let mut i: usize = 0;
    while i < list.len()
        invariant
            i <= list@.len(),
            forall|k: int| 0 <= k < i ==> #[trigger] list@[k]@ != s@,
        decreases list@.len() - i,
    {
        if same_text(list[i].as_str(), s) {
            return true;
        }
        i = i + 1;
    }
    false
}

pub open spec fn texts_of(list: Seq<String>) -> Seq<Seq<char>> {
    list.map_values(|s: String| s@)
}

/// The associated token account that `owner` and `mint` (both base58 texts) give,
/// as text, where both are addresses and it is itself among `accounts`.
pub open spec fn ata_pair(accounts: Seq<Seq<char>>, owner: Seq<char>, mint: Seq<char>) -> Option<
    Seq<char>,
> {
    match (text_address(owner), text_address(mint)) {
        (Some(o), Some(m)) => match ata_address(o, m) {
            Some(a) => if accounts.contains(address_text(a)) {
                Some(address_text(a))
            } else {
                None
            },
            None => None,
        },
        _ => None,
    }
}

/// The matches for one owner against the first `j` accounts as mints.
pub open spec fn row_matches(accounts: Seq<Seq<char>>, owner: Seq<char>, j: int) -> Seq<
    (Seq<char>, Seq<char>, Seq<char>),
>
    decreases j,
{
    if j <= 0 {
        Seq::empty()
    } else {
        let rest = row_matches(accounts, owner, j - 1);
        match ata_pair(accounts, owner, accounts[j - 1]) {
            Some(a) => rest.push((owner, accounts[j - 1], a)),
            None => rest,
        }
    }
}

/// Every (owner, mint, account) triple of the accounts, owners of the first `i`
/// accounts first, each owner with mints in account order.
pub open spec fn all_matches(accounts: Seq<Seq<char>>, i: int) -> Seq<
    (Seq<char>, Seq<char>, Seq<char>),
>
    decreases i,
{
    if i <= 0 {
        Seq::empty()
    } else {
        all_matches(accounts, i - 1) + row_matches(accounts, accounts[i - 1], accounts.len() as int)
    }
}

pub open spec fn match_view(m: AtaMatch) -> (Seq<char>, Seq<char>, Seq<char>) {
    (m.owner@, m.mint@, m.pubkey@)
}

/// Finds every associated token account among `accounts` whose owner and mint are
/// themselves among `accounts`.
pub fn find_ata_accounts(accounts: &Vec<String>) -> (r: Vec<AtaMatch>)
    ensures
        r@.map_values(|m: AtaMatch| match_view(m)) == all_matches(
            texts_of(accounts@),
            accounts@.len() as int,
        ),
{
    let ghost a = texts_of(accounts@);
    let n = accounts.len();
    let mut out: Vec<AtaMatch> = Vec::new();
    let mut i: usize = 0;
    assert(out@.map_values(|m: AtaMatch| match_view(m)) =~= all_matches(a, 0));
    while i < n
        invariant
            n == accounts@.len(),
            a == texts_of(accounts@),
            a.len() == n,
            i <= n,
            out@.map_values(|m: AtaMatch| match_view(m)) == all_matches(a, i as int),
        decreases n - i,
    {
        let ghost base = out@.map_values(|m: AtaMatch| match_view(m));
        let owner_key = decode_address(accounts[i].as_str());
        let mut j: usize = 0;
        assert(base + row_matches(a, a[i as int], 0) =~= base);
        while j < n
            invariant
                n == accounts@.len(),
                a == texts_of(accounts@),
                a.len() == n,
                i < n,
                j <= n,
                base == all_matches(a, i as int),
                owner_key matches Some(o) ==> text_address(a[i as int]) == Some(o@),
                owner_key is None ==> text_address(a[i as int]) is None,
                out@.map_values(|m: AtaMatch| match_view(m)) == base + row_matches(
                    a,
                    a[i as int],
                    j as int,
                ),
            decreases n - j,
        {
            let ghost before = out@.map_values(|m: AtaMatch| match_view(m));
            assert(a[i as int] == accounts@[i as int]@ && a[j as int] == accounts@[j as int]@);
            let mint_key = decode_address(accounts[j].as_str());
            if let (Some(o), Some(m)) = (owner_key, mint_key) {
                if let Some(x) = derive_ata(&o, &m) {
                    let text = encode_address(&x);
                    if contains_text(accounts, text.as_str()) {
                        proof {
                            let k = choose|k: int| 0 <= k < accounts@.len() && accounts@[k]@ == text@;
                            assert(a[k] == text@);
                        }
                        out.push(
                            AtaMatch {
                                owner: accounts[i].clone(),
                                mint: accounts[j].clone(),
                                pubkey: text,
                            },
                        );
                        assert(out@.map_values(|m: AtaMatch| match_view(m)) =~= before.push(
                            (a[i as int], a[j as int], address_text(x@)),
                        ));
                    } else {
                        assert(!a.contains(address_text(x@)));
                    }
                }
            }
            j = j + 1;
            assert(base + row_matches(a, a[i as int], j as int) =~= out@.map_values(
                |m: AtaMatch| match_view(m),
            ));
        }
        i = i + 1;
        assert(all_matches(a, i as int) =~= base + row_matches(a, a[i - 1], n as int));
    }
    out
}

/// The texts among the values of object entries, in order.
pub open spec fn string_values(entries: Seq<(Seq<char>, Json)>) -> Seq<Seq<char>>
    decreases entries.len(),
{
    if entries.len() == 0 {
        Seq::empty()
    } else {
        let rest = string_values(entries.drop_last());
        match entries.last().1 {
            Json::Str(s) => rest.push(s),
            _ => rest,
        }
    }
}

/// The texts among the values of an `info` object.
pub open spec fn info_strings(info: Option<Json>) -> Seq<Seq<char>> {
    match info {
        Some(Json::Object(e)) => string_values(e),
        _ => Seq::empty(),
    }
}

/// The keys of a parsed associated-token-program instruction, in account order.
pub open spec fn ata_program_keys() -> Seq<Seq<char>> {
    seq!["wallet"@, "account"@, "source"@, "mint"@, "systemProgram"@, "tokenProgram"@]
}

/// The texts held under `keys` by `info`, skipping those absent.
pub open spec fn keyed_strings(info: Json, keys: Seq<Seq<char>>) -> Seq<Seq<char>>
    decreases keys.len(),
{
    if keys.len() == 0 {
        Seq::empty()
    } else {
        let rest = keyed_strings(info, keys.drop_last());
        match str_field(info, keys.last()) {
            Some(s) => rest.push(s),
            None => rest,
        }
    }
}

/// The text held under `key`, or the empty text.
pub open spec fn text_or_empty(info: Json, key: Seq<char>) -> Seq<char> {
    match str_field(info, key) {
        Some(s) => s,
        None => Seq::empty(),
    }
}

/// The accounts and the data that a parsed native-program instruction gives.
pub open spec fn native_program(program_id: Seq<char>, parsed: Json) -> (
    Seq<Seq<char>>,
    Option<Json>,
) {
    let info = field(parsed, "info"@);
    if !(parsed is Object) {
        (Seq::empty(), None)
    } else if program_id == address_text(system_program_bytes()) {
        if str_field(parsed, "type"@) == Some("transfer"@) && info matches Some(Json::Object(_)) {
            let i = info->0;
            (
                seq![text_or_empty(i, "source"@), text_or_empty(i, "destination"@)],
                Some(
                    transfer_data(
                        match field(i, "lamports"@) {
                            Some(l) => l,
                            None => Json::Null,
                        },
                    ),
                ),
            )
        } else {
            (info_strings(info), None)
        }
    } else if program_id == address_text(associated_token_program_bytes()) {
        (
            match info {
                Some(Json::Object(_)) => keyed_strings(info->0, ata_program_keys()),
                _ => Seq::empty(),
            },
            None,
        )
    } else {
        (
            info_strings(info),
            match info {
                Some(Json::Str(_)) | Some(Json::UInt(_)) | Some(Json::NegInt(_)) | Some(
                    Json::Decimal(_),
                ) => info,
                _ => None,
            },
        )
    }
}

/// The texts among the values of an object value.
fn object_strings(v: &JsonValue) -> (r: Vec<String>)
    ensures
        texts_of(r@) == match v@ {
            Json::Object(e) => string_values(e),
            _ => Seq::empty(),
        },
{
    let mut out: Vec<String> = Vec::new();
    match v {
        JsonValue::Object(entries) => {
            let ghost e = entries_view(entries@);
            let mut i: usize = 0;
            assert(texts_of(out@) =~= string_values(e.subrange(0, 0)));
            while i < entries.len()
                invariant
                    e == entries_view(entries@),
                    i <= entries@.len(),
                    texts_of(out@) == string_values(e.subrange(0, i as int)),
                decreases entries@.len() - i,
            {
                let ghost q = e.subrange(0, i + 1);
                assert(q.drop_last() =~= e.subrange(0, i as int));
                assert(q.last() == (entries@[i as int].0@, entries@[i as int].1@));
                match &entries[i].1 {
                    JsonValue::Str(s) => {
                        out.push(s.clone());
                    },
                    _ => {},
                }
                assert(texts_of(out@) =~= string_values(q));
                i = i + 1;
            }
            assert(e.subrange(0, i as int) =~= e);
        },
        _ => {
            assert(texts_of(out@) =~= Seq::<Seq<char>>::empty());
        },
    }
    out
}

/// The accounts and data of a parsed native-program instruction.
pub fn parse_native_program(program_id: &str, parsed: &JsonValue) -> (r: (Vec<String>, Option<JsonValue>))
    ensures
        texts_of(r.0@) == native_program(program_id@, parsed@).0,
        match r.1 {
            Some(d) => native_program(program_id@, parsed@).1 == Some(d@),
            None => native_program(program_id@, parsed@).1 is None,
        },
{
    match parsed {
        JsonValue::Object(_) => {},
        _ => {
            let empty: Vec<String> = Vec::new();
            assert(texts_of(empty@) =~= Seq::<Seq<char>>::empty());
            return (empty, None);
        },
    }
    let info = parsed.get_field("info");
    let system = encode_address(&system_program_id());
    let ata_program = encode_address(&associated_token_program_id());
    if same_text(program_id, system.as_str()) {
        let is_transfer = match parsed.get_str("type") {
            Some(t) => same_text(t.as_str(), "transfer"),
            None => false,
        };
        if is_transfer {
            if let Some(i) = info {
                if let JsonValue::Object(_) = i {
                    let lamports = match i.get_field("lamports") {
                        Some(l) => l.duplicate(),
                        None => JsonValue::Null,
                    };
                    let source = match i.get_str("source") {
                        Some(s) => s.clone(),
                        None => String::new(),
                    };
                    let destination = match i.get_str("destination") {
                        Some(s) => s.clone(),
                        None => String::new(),
                    };
                    let accounts = vec![source, destination];
                    let first_entries = vec![entry("type", json_str("u32")), entry("data", JsonValue::UInt(2))];
                    let ghost lv = lamports@;
                    let second_entries = vec![entry("type", json_str("u64")), entry("data", lamports)];
                    proof {
                        assert(entries_view(second_entries@) =~= seq![("type"@, Json::Str("u64"@)), ("data"@, lv)]);
                    }
                    proof {
                        assert(entries_view(first_entries@) =~= seq![("type"@, Json::Str("u32"@)), ("data"@, Json::UInt(2))]);
                    }
                    let first = JsonValue::Object(first_entries);
                    let second = JsonValue::Object(second_entries);
                    let fields = vec![first, second];
                    let ghost fv = items_view(fields@);
                    proof {
                        assert(fv =~= seq![fields@[0]@, fields@[1]@]);
                    }
                    let outer = vec![
                        entry("type", json_str("object")),
                        entry("data", JsonValue::Array(fields)),
                    ];
                    proof {
                        assert(entries_view(outer@) =~= seq![("type"@, Json::Str("object"@)), ("data"@, Json::Array(fv))]);
                    }
                    let data = JsonValue::Object(outer);
                    proof {
                        assert(texts_of(accounts@) =~= native_program(program_id@, parsed@).0);
                        assert(data@ == transfer_data(lv));
                    }
                    return (accounts, Some(data));
                }
            }
        }
        let accounts = match info {
            Some(i) => object_strings(i),
            None => {
                let empty: Vec<String> = Vec::new();
                assert(texts_of(empty@) =~= Seq::<Seq<char>>::empty());
                empty
            },
        };
        return (accounts, None);
    }
    if same_text(program_id, ata_program.as_str()) {
        let mut accounts: Vec<String> = Vec::new();
        if let Some(i) = info {
            if let JsonValue::Object(_) = i {
                let keys = vec!["wallet", "account", "source", "mint", "systemProgram", "tokenProgram"];
                let mut k: usize = 0;
                assert(keyed_strings(i@, ata_program_keys().subrange(0, 0)) =~= Seq::<Seq<char>>::empty());
                assert(texts_of(accounts@) =~= Seq::<Seq<char>>::empty());
                while k < keys.len()
                    invariant
                        keys@.len() == 6,
                        forall|m: int| 0 <= m < 6 ==> #[trigger] keys@[m]@ == ata_program_keys()[m],
                        k <= 6,
                        texts_of(accounts@) == keyed_strings(i@, ata_program_keys().subrange(0, k as int)),
                    decreases 6 - k,
                {
                    let ghost q = ata_program_keys().subrange(0, k + 1);
                    assert(q.drop_last() =~= ata_program_keys().subrange(0, k as int));
                    assert(q.last() == keys@[k as int]@);
                    match i.get_str(keys[k]) {
                        Some(s) => {
                            accounts.push(s.clone());
                        },
                        None => {},
                    }
                    assert(texts_of(accounts@) =~= keyed_strings(i@, q));
                    k = k + 1;
                }
                assert(ata_program_keys().subrange(0, 6) =~= ata_program_keys());
                return (accounts, None);
            }
        }
        assert(texts_of(accounts@) =~= Seq::<Seq<char>>::empty());
        return (accounts, None);
    }
    let accounts = match info {
        Some(i) => object_strings(i),
        None => {
            let empty: Vec<String> = Vec::new();
            assert(texts_of(empty@) =~= Seq::<Seq<char>>::empty());
            empty
        },
    };
    let data = match info {
        Some(JsonValue::Str(_)) | Some(JsonValue::UInt(_)) | Some(JsonValue::NegInt(_)) | Some(
            JsonValue::Decimal(_),
        ) => Some(info.unwrap().duplicate()),
        _ => None,
    };
    (accounts, data)
}

/// The distinct keys of the signing accounts, in first-seen order.
pub open spec fn signer_keys(infos: Seq<AccountInfo>) -> Seq<Seq<char>>
    decreases infos.len(),
{
    if infos.len() == 0 {
        Seq::empty()
    } else if infos.last().signer && !signer_keys(infos.drop_last()).contains(infos.last().pubkey@) {
        signer_keys(infos.drop_last()).push(infos.last().pubkey@)
    } else {
        signer_keys(infos.drop_last())
    }
}

/// The distinct keys of the writable accounts, in first-seen order.
pub open spec fn writable_keys(infos: Seq<AccountInfo>) -> Seq<Seq<char>>
    decreases infos.len(),
{
    if infos.len() == 0 {
        Seq::empty()
    } else if infos.last().writable && !writable_keys(infos.drop_last()).contains(
        infos.last().pubkey@,
    ) {
        writable_keys(infos.drop_last()).push(infos.last().pubkey@)
    } else {
        writable_keys(infos.drop_last())
    }
}

pub open spec fn account_texts(infos: Seq<AccountInfo>) -> Seq<Seq<char>> {
    infos.map_values(|i: AccountInfo| i.pubkey@)
}

/// The first index at which `k` appears.
pub open spec fn first_position(keys: Seq<Seq<char>>, k: Seq<char>) -> Option<nat>
    decreases keys.len(),
{
    if keys.len() == 0 {
        None
    } else if keys[0] == k {
        Some(0)
    } else {
        match first_position(keys.drop_first(), k) {
            Some(i) => Some(i + 1),
            None => None,
        }
    }
}

/// The parameter reference `$N` for the 0-based position `i`.
pub open spec fn placeholder(i: nat) -> Seq<char> {
    seq!['$'] + decimal(i + 1)
}

/// A signer's placeholder, or the key itself for an account that does not sign.
pub open spec fn signer_text(signers: Seq<Seq<char>>, a: Seq<char>) -> Seq<char> {
    match first_position(signers, a) {
        Some(i) => placeholder(i),
        None => a,
    }
}

/// The owner and mint of the first associated token account found for `a`.
pub open spec fn first_ata(atas: Seq<(Seq<char>, Seq<char>, Seq<char>)>, a: Seq<char>) -> Option<
    (Seq<char>, Seq<char>),
>
    decreases atas.len(),
{
    if atas.len() == 0 {
        None
    } else if atas[0].2 == a {
        Some((atas[0].0, atas[0].1))
    } else {
        first_ata(atas.drop_first(), a)
    }
}

/// How an account appears in a template: an associated-token-account descriptor
/// where it is one, a signer placeholder where it signs, its key otherwise.
pub open spec fn account_descriptor(
    a: Seq<char>,
    atas: Seq<(Seq<char>, Seq<char>, Seq<char>)>,
    signers: Seq<Seq<char>>,
) -> Json {
    match first_ata(atas, a) {
        Some((o, m)) => Json::Object(
            seq![
                ("type"@, Json::Str("ata"@)),
                ("owner"@, Json::Str(signer_text(signers, o))),
                ("mint"@, Json::Str(m)),
            ],
        ),
        None => Json::Str(signer_text(signers, a)),
    }
}

/// An account meta of a template.
pub open spec fn account_entry(
    a: Seq<char>,
    atas: Seq<(Seq<char>, Seq<char>, Seq<char>)>,
    signers: Seq<Seq<char>>,
    writables: Seq<Seq<char>>,
) -> Json {
    Json::Object(
        seq![
            ("pubkey"@, account_descriptor(a, atas, signers)),
            ("is_signer"@, Json::Bool(signers.contains(a))),
            ("is_writable"@, Json::Bool(writables.contains(a))),
        ],
    )
}

/// Text data decoded as base64, or else as base58, and written as `0x` hex where
/// that gives bytes; any other data unchanged.
pub open spec fn normalized_data(d: Json) -> Json {
    match d {
        Json::Str(s) => {
            let bytes = match base64_decoded(s) {
                Some(b) => Some(b),
                None => base58_decoded(s),
            };
            match bytes {
                Some(b) => if b.len() > 0 {
                    Json::Str(seq!['0', 'x'] + hex_text(b))
                } else {
                    d
                },
                None => d,
            }
        },
        _ => d,
    }
}

/// The keys of the accounts at the given indices, skipping indices out of range.
pub open spec fn compiled_accounts(infos: Seq<AccountInfo>, idx: Seq<u8>) -> Seq<Seq<char>>
    decreases idx.len(),
{
    if idx.len() == 0 {
        Seq::empty()
    } else {
        let rest = compiled_accounts(infos, idx.drop_last());
        if (idx.last() as int) < infos.len() {
            rest.push(infos[idx.last() as int].pubkey@)
        } else {
            rest
        }
    }
}

/// The program id, the accounts and the data of an instruction.
pub open spec fn instruction_parts(ix: DecodedInstruction, infos: Seq<AccountInfo>) -> (
    Seq<char>,
    Seq<Seq<char>>,
    Json,
) {
    match ix {
        DecodedInstruction::Compiled { program_id_index, account_indices, data } => (
            if (program_id_index as int) < infos.len() {
                infos[program_id_index as int].pubkey@
            } else {
                Seq::empty()
            },
            compiled_accounts(infos, account_indices@),
            Json::Str(data@),
        ),
        DecodedInstruction::Parsed { program_id, parsed } => {
            let native = native_program(program_id@, parsed@);
            (
                program_id@,
                native.0,
                match native.1 {
                    Some(d) => d,
                    None => match field(parsed@, "info"@) {
                        Some(i) => i,
                        None => parsed@,
                    },
                },
            )
        },
        DecodedInstruction::PartiallyDecoded { program_id, accounts, data } => (
            program_id@,
            texts_of(accounts@),
            Json::Str(data@),
        ),
    }
}

/// The template of one instruction.
pub open spec fn instruction_template(
    ix: DecodedInstruction,
    infos: Seq<AccountInfo>,
    atas: Seq<(Seq<char>, Seq<char>, Seq<char>)>,
    signers: Seq<Seq<char>>,
    writables: Seq<Seq<char>>,
) -> Json {
    let parts = instruction_parts(ix, infos);
    Json::Object(
        seq![
            ("program_id"@, Json::Str(parts.0)),
            ("data"@, normalized_data(parts.2)),
            (
                "accounts"@,
                Json::Array(
                    Seq::new(
                        parts.1.len(),
                        |k: int| account_entry(parts.1[k], atas, signers, writables),
                    ),
                ),
            ),
        ],
    )
}

/// The template of a decoded transaction: its instructions, then one placeholder
/// per signer numbered after the signers' own placeholders.
pub open spec fn decompiled(infos: Seq<AccountInfo>, ixs: Seq<DecodedInstruction>) -> Json {
    let atas = all_matches(account_texts(infos), infos.len() as int);
    let signers = signer_keys(infos);
    let writables = writable_keys(infos);
    Json::Object(
        seq![
            (
                "instructions"@,
                Json::Array(
                    Seq::new(
                        ixs.len(),
                        |k: int| instruction_template(ixs[k], infos, atas, signers, writables),
                    ),
                ),
            ),
            (
                "signers"@,
                Json::Array(
                    Seq::new(
                        signers.len(),
                        |k: int| Json::Str(placeholder((signers.len() + k) as nat)),
                    ),
                ),
            ),
        ],
    )
}

/// The distinct keys of the accounts that sign, or that are writable.
fn keys_where(infos: &Vec<AccountInfo>, signing: bool) -> (r: Vec<String>)
    ensures
        texts_of(r@) == if signing {
            signer_keys(infos@)
        } else {
            writable_keys(infos@)
        },
{
    let mut out: Vec<String> = Vec::new();
    let mut i: usize = 0;
    assert(texts_of(out@) =~= Seq::<Seq<char>>::empty());
    assert(infos@.subrange(0, 0) =~= Seq::<AccountInfo>::empty());
    while i < infos.len()
        invariant
            i <= infos@.len(),
            texts_of(out@) == if signing {
                signer_keys(infos@.subrange(0, i as int))
            } else {
                writable_keys(infos@.subrange(0, i as int))
            },
        decreases infos@.len() - i,
    {
        let ghost q = infos@.subrange(0, i + 1);
        assert(q.drop_last() =~= infos@.subrange(0, i as int));
        assert(q.last() == infos@[i as int]);
        let flag = if signing {
            infos[i].signer
        } else {
            infos[i].writable
        };
        let seen = contains_text(&out, infos[i].pubkey.as_str());
        proof {
            let t = texts_of(out@);
            if seen {
                let k = choose|k: int| 0 <= k < out@.len() && #[trigger] out@[k]@ == infos@[i as int].pubkey@;
                assert(t[k] == infos@[i as int].pubkey@);
            } else {
                assert forall|k: int| 0 <= k < t.len() implies t[k] != infos@[i as int].pubkey@ by {
                    assert(t[k] == out@[k]@);
                }
            }
        }
        if flag && !seen {
            out.push(infos[i].pubkey.clone());
        }
        assert(texts_of(out@) =~= if signing {
            signer_keys(q)
        } else {
            writable_keys(q)
        });
        i = i + 1;
    }
    assert(infos@.subrange(0, i as int) =~= infos@);
    out
}

/// The first index at which `s` appears in `list`.
fn position(list: &Vec<String>, s: &str) -> (r: Option<usize>)
    ensures
        match r {
            Some(i) => first_position(texts_of(list@), s@) == Some(i as nat),
            None => first_position(texts_of(list@), s@) is None,
        },
{
    let ghost t = texts_of(list@);
    let mut i: usize = 0;
    assert(t.skip(0) =~= t);
    while i < list.len()
        invariant
            t == texts_of(list@),
            i <= list@.len(),
            first_position(t, s@) == match first_position(t.skip(i as int), s@) {
                Some(k) => Some((k + i) as nat),
                None => None::<nat>,
            },
        decreases list@.len() - i,
    {
        assert(t.skip(i as int)[0] == list@[i as int]@);
        if same_text(list[i].as_str(), s) {
            return Some(i);
        }
        assert(t.skip(i as int).drop_first() =~= t.skip(i + 1));
        i = i + 1;
    }
    None
}

/// `$` followed by the decimal text of `i + 1`.
fn placeholder_text(i: u128) -> (r: String)
    requires
        i < 0x1_0000_0000_0000_0000_0000,
    ensures
        r@ == placeholder(i as nat),
{
    let digits = crate::text::i128_text((i as i128) + 1);
    proof {
        reveal_strlit("$");
        assert("$"@ =~= seq!['$']);
    }
    join_text("$", digits.as_str())
}

/// A signer's placeholder, or the key itself.
fn signer_or_key(signers: &Vec<String>, a: &String) -> (r: String)
    ensures
        r@ == signer_text(texts_of(signers@), a@),
{
    match position(signers, a.as_str()) {
        Some(i) => placeholder_text(i as u128),
        None => a.clone(),
    }
}

/// The owner and mint of the first associated token account found for `a`.
fn find_ata(atas: &Vec<AtaMatch>, a: &str) -> (r: Option<(String, String)>)
    ensures
        match r {
            Some(p) => first_ata(atas@.map_values(|m: AtaMatch| match_view(m)), a@) == Some(
                (p.0@, p.1@),
            ),
            None => first_ata(atas@.map_values(|m: AtaMatch| match_view(m)), a@) is None,
        },
{
    let ghost t = atas@.map_values(|m: AtaMatch| match_view(m));
    let mut i: usize = 0;
    assert(t.skip(0) =~= t);
    while i < atas.len()
        invariant
            t == atas@.map_values(|m: AtaMatch| match_view(m)),
            i <= atas@.len(),
            first_ata(t, a@) == first_ata(t.skip(i as int), a@),
        decreases atas@.len() - i,
    {
        assert(t.skip(i as int)[0] == match_view(atas@[i as int]));
        if same_text(atas[i].pubkey.as_str(), a) {
            return Some((atas[i].owner.clone(), atas[i].mint.clone()));
        }
        assert(t.skip(i as int).drop_first() =~= t.skip(i + 1));
        i = i + 1;
    }
    None
}

/// Data with text decoded and written as `0x` hex where it decodes to bytes.
pub fn normalize_data(d: JsonValue) -> (r: JsonValue)
    ensures
        r@ == normalized_data(d@),
{
    let bytes = match &d {
        JsonValue::Str(s) => match decode_base64(s.as_str()) {
            Some(b) => Some(b),
            None => decode_base58(s.as_str()),
        },
        _ => None,
    };
    match bytes {
        Some(b) => if b.len() > 0 {
            JsonValue::Str(prefixed_hex(b.as_slice()))
        } else {
            d
        },
        None => d,
    }
}

/// The account metas of an instruction template.
fn account_entries(
    accounts: &Vec<String>,
    atas: &Vec<AtaMatch>,
    signers: &Vec<String>,
    writables: &Vec<String>,
) -> (r: Vec<JsonValue>)
    ensures
        items_view(r@) == Seq::new(
            accounts@.len(),
            |k: int|
                account_entry(
                    accounts@[k]@,
                    atas@.map_values(|m: AtaMatch| match_view(m)),
                    texts_of(signers@),
                    texts_of(writables@),
                ),
        ),
{
    let ghost at = atas@.map_values(|m: AtaMatch| match_view(m));
    let ghost st = texts_of(signers@);
    let ghost wt = texts_of(writables@);
    let mut out: Vec<JsonValue> = Vec::new();
    let mut i: usize = 0;
    while i < accounts.len()
        invariant
            at == atas@.map_values(|m: AtaMatch| match_view(m)),
            st == texts_of(signers@),
            wt == texts_of(writables@),
            i <= accounts@.len(),
            out@.len() == i,
            forall|k: int| 0 <= k < i ==> (#[trigger] out@[k])@ == account_entry(accounts@[k]@, at, st, wt),
        decreases accounts@.len() - i,
    {
        let a = &accounts[i];
        let descriptor = match find_ata(atas, a.as_str()) {
            Some((owner, mint)) => {
                let fields = vec![
                    entry("type", json_str("ata")),
                    entry("owner", JsonValue::Str(signer_or_key(signers, &owner))),
                    entry("mint", JsonValue::Str(mint)),
                ];
                proof {
                    assert(entries_view(fields@) =~= account_descriptor(a@, at, st)->Object_0);
                }
                JsonValue::Object(fields)
            },
            None => JsonValue::Str(signer_or_key(signers, a)),
        };
        let is_signer = contains_text(signers, a.as_str());
        let is_writable = contains_text(writables, a.as_str());
        proof {
            if is_signer {
                let k = choose|k: int| 0 <= k < signers@.len() && #[trigger] signers@[k]@ == a@;
                assert(st[k] == a@);
            } else {
                assert forall|k: int| 0 <= k < st.len() implies st[k] != a@ by {
                    assert(st[k] == signers@[k]@);
                }
            }
            if is_writable {
                let k = choose|k: int| 0 <= k < writables@.len() && #[trigger] writables@[k]@ == a@;
                assert(wt[k] == a@);
            } else {
                assert forall|k: int| 0 <= k < wt.len() implies wt[k] != a@ by {
                    assert(wt[k] == writables@[k]@);
                }
            }
        }
        let ghost dv = descriptor@;
        let fields = vec![
            entry("pubkey", descriptor),
            entry("is_signer", JsonValue::Bool(is_signer)),
            entry("is_writable", JsonValue::Bool(is_writable)),
        ];
        proof {
            assert(entries_view(fields@) =~= account_entry(a@, at, st, wt)->Object_0);
        }
        out.push(JsonValue::Object(fields));
        i = i + 1;
    }
    assert(items_view(out@) =~= Seq::new(
        accounts@.len(),
        |k: int| account_entry(accounts@[k]@, at, st, wt),
    ));
    out
}

/// A copy of a list of texts.
fn copy_texts(v: &Vec<String>) -> (r: Vec<String>)
    ensures
        texts_of(r@) == texts_of(v@),
{
    let mut out: Vec<String> = Vec::new();
    let mut i: usize = 0;
    while i < v.len()
        invariant
            i <= v@.len(),
            out@.len() == i,
            forall|k: int| 0 <= k < i ==> (#[trigger] out@[k])@ == v@[k]@,
        decreases v@.len() - i,
    {
        out.push(v[i].clone());
        i = i + 1;
    }
    assert(texts_of(out@) =~= texts_of(v@));
    out
}

/// The keys of the accounts at the given indices, skipping indices out of range.
fn compiled_keys(infos: &Vec<AccountInfo>, idx: &Vec<u8>) -> (r: Vec<String>)
    ensures
        texts_of(r@) == compiled_accounts(infos@, idx@),
{
    let mut out: Vec<String> = Vec::new();
    let mut i: usize = 0;
    assert(texts_of(out@) =~= compiled_accounts(infos@, idx@.subrange(0, 0)));
    while i < idx.len()
        invariant
            i <= idx@.len(),
            texts_of(out@) == compiled_accounts(infos@, idx@.subrange(0, i as int)),
        decreases idx@.len() - i,
    {
        let ghost q = idx@.subrange(0, i + 1);
        assert(q.drop_last() =~= idx@.subrange(0, i as int));
        assert(q.last() == idx@[i as int]);
        let k = idx[i] as usize;
        if k < infos.len() {
            out.push(infos[k].pubkey.clone());
        }
        assert(texts_of(out@) =~= compiled_accounts(infos@, q));
        i = i + 1;
    }
    assert(idx@.subrange(0, i as int) =~= idx@);
    out
}

/// The template of one instruction.
fn instruction_json(
    ix: &DecodedInstruction,
    infos: &Vec<AccountInfo>,
    atas: &Vec<AtaMatch>,
    signers: &Vec<String>,
    writables: &Vec<String>,
) -> (r: JsonValue)
    ensures
        r@ == instruction_template(
            *ix,
            infos@,
            atas@.map_values(|m: AtaMatch| match_view(m)),
            texts_of(signers@),
            texts_of(writables@),
        ),
{
    let (program_id, accounts, data) = match ix {
        DecodedInstruction::Compiled { program_id_index, account_indices, data } => {
            let k = *program_id_index as usize;
            let pid = if k < infos.len() {
                infos[k].pubkey.clone()
            } else {
                String::new()
            };
            (pid, compiled_keys(infos, account_indices), JsonValue::Str(data.clone()))
        },
        DecodedInstruction::Parsed { program_id, parsed } => {
            let (accounts, native) = parse_native_program(program_id.as_str(), parsed);
            let data = match native {
                Some(d) => d,
                None => match parsed.get_field("info") {
                    Some(i) => i.duplicate(),
                    None => parsed.duplicate(),
                },
            };
            (program_id.clone(), accounts, data)
        },
        DecodedInstruction::PartiallyDecoded { program_id, accounts, data } => {
            (program_id.clone(), copy_texts(accounts), JsonValue::Str(data.clone()))
        },
    };
    let ghost parts = instruction_parts(*ix, infos@);
    assert(program_id@ == parts.0 && texts_of(accounts@) == parts.1 && data@ == parts.2);
    let entries = account_entries(&accounts, atas, signers, writables);
    let ghost ev = items_view(entries@);
    assert(ev =~= Seq::new(
        parts.1.len(),
        |k: int|
            account_entry(
                parts.1[k],
                atas@.map_values(|m: AtaMatch| match_view(m)),
                texts_of(signers@),
                texts_of(writables@),
            ),
    ));
    let fields = vec![
        entry("program_id", JsonValue::Str(program_id)),
        entry("data", normalize_data(data)),
        entry("accounts", JsonValue::Array(entries)),
    ];
    proof {
        assert(entries_view(fields@) =~= instruction_template(
            *ix,
            infos@,
            atas@.map_values(|m: AtaMatch| match_view(m)),
            texts_of(signers@),
            texts_of(writables@),
        )->Object_0);
    }
    JsonValue::Object(fields)
}

/// The template of a decoded transaction: each instruction with its program id, its
/// data and its account metas, where signers become placeholders `$1`, `$2`, ...
/// and associated token accounts become descriptors; then one trailing signer
/// placeholder per signer.
pub fn parse_tx_to_json(accounts: &Vec<AccountInfo>, instructions: &Vec<DecodedInstruction>) -> (r:
    JsonValue)
    ensures
        r@ == decompiled(accounts@, instructions@),
{
    let signers = keys_where(accounts, true);
    let writables = keys_where(accounts, false);
    let mut keys: Vec<String> = Vec::new();
    let mut i: usize = 0;
    while i < accounts.len()
        invariant
            i <= accounts@.len(),
            keys@.len() == i,
            forall|k: int| 0 <= k < i ==> (#[trigger] keys@[k])@ == accounts@[k].pubkey@,
        decreases accounts@.len() - i,
    {
        keys.push(accounts[i].pubkey.clone());
        i = i + 1;
    }
    assert(texts_of(keys@) =~= account_texts(accounts@));
    let atas = find_ata_accounts(&keys);
    let ghost at = atas@.map_values(|m: AtaMatch| match_view(m));
    let mut out: Vec<JsonValue> = Vec::new();
    let mut j: usize = 0;
    while j < instructions.len()
        invariant
            at == atas@.map_values(|m: AtaMatch| match_view(m)),
            j <= instructions@.len(),
            out@.len() == j,
            forall|k: int|
                0 <= k < j ==> (#[trigger] out@[k])@ == instruction_template(
                    instructions@[k],
                    accounts@,
                    at,
                    texts_of(signers@),
                    texts_of(writables@),
                ),
        decreases instructions@.len() - j,
    {
        out.push(instruction_json(&instructions[j], accounts, &atas, &signers, &writables));
        j = j + 1;
    }
    let n = signers.len();
    let mut placeholders: Vec<JsonValue> = Vec::new();
    let mut k: usize = 0;
    while k < n
        invariant
            n == signers@.len(),
            k <= n,
            placeholders@.len() == k,
            forall|m: int|
                0 <= m < k ==> (#[trigger] placeholders@[m])@ == Json::Str(
                    placeholder((n + m) as nat),
                ),
        decreases n - k,
    {
        let text = placeholder_text((n as u128) + (k as u128));
        placeholders.push(JsonValue::Str(text));
        k = k + 1;
    }
    let ghost iv = items_view(out@);
    let ghost pv = items_view(placeholders@);
    let fields = vec![
        entry("instructions", JsonValue::Array(out)),
        entry("signers", JsonValue::Array(placeholders)),
    ];
    proof {
        assert(texts_of(signers@).len() == n);
        assert(keys@.len() == accounts@.len());
        assert(at == all_matches(account_texts(accounts@), accounts@.len() as int));
        assert(iv =~= Seq::new(
            instructions@.len(),
            |k: int|
                instruction_template(
                    instructions@[k],
                    accounts@,
                    at,
                    signer_keys(accounts@),
                    writable_keys(accounts@),
                ),
        ));
        assert(pv =~= Seq::new(
            signer_keys(accounts@).len(),
            |k: int| Json::Str(placeholder((signer_keys(accounts@).len() + k) as nat)),
        ));
        assert(entries_view(fields@) =~= decompiled(accounts@, instructions@)->Object_0);
    }
    JsonValue::Object(fields)
}

proof fn lemma_row_matches(accounts: Seq<Seq<char>>, owner: Seq<char>, j: int)
    requires
        0 <= j <= accounts.len(),
    ensures
        forall|k: int|
            0 <= k < row_matches(accounts, owner, j).len() ==> {
                let e = #[trigger] row_matches(accounts, owner, j)[k];
                e.0 == owner && accounts.contains(e.1) && ata_pair(accounts, owner, e.1) == Some(e.2)
            },
        forall|m: int|
            0 <= m < j && ata_pair(accounts, owner, accounts[m]) is Some ==> row_matches(
                accounts,
                owner,
                j,
            ).contains((owner, accounts[m], ata_pair(accounts, owner, accounts[m])->0)),
    decreases j,
{
    if j > 0 {
        lemma_row_matches(accounts, owner, j - 1);
        let rest = row_matches(accounts, owner, j - 1);
        let r = row_matches(accounts, owner, j);
        assert(accounts[j - 1] == accounts[j - 1]);
        assert(accounts.contains(accounts[j - 1]));
        assert forall|m: int|
            0 <= m < j && ata_pair(accounts, owner, accounts[m]) is Some implies r.contains(
                (owner, accounts[m], ata_pair(accounts, owner, accounts[m])->0),
            ) by {
            if m < j - 1 {
                let t = (owner, accounts[m], ata_pair(accounts, owner, accounts[m])->0);
                let idx = choose|idx: int| 0 <= idx < rest.len() && rest[idx] == t;
                assert(r[idx] == t);
            } else {
                assert(r[r.len() - 1] == (owner, accounts[m], ata_pair(accounts, owner, accounts[m])->0));
            }
        }
    }
}

proof fn lemma_all_matches(accounts: Seq<Seq<char>>, i: int)
    requires
        0 <= i <= accounts.len(),
    ensures
        forall|k: int|
            0 <= k < all_matches(accounts, i).len() ==> {
                let e = #[trigger] all_matches(accounts, i)[k];
                accounts.contains(e.0) && accounts.contains(e.1) && ata_pair(accounts, e.0, e.1)
                    == Some(e.2)
            },
        forall|o: int, m: int|
            0 <= o < i && 0 <= m < accounts.len() && #[trigger] ata_pair(accounts, accounts[o], accounts[m])
                is Some ==> all_matches(accounts, i).contains(
                (accounts[o], accounts[m], ata_pair(accounts, accounts[o], accounts[m])->0),
            ),
    decreases i,
{
    if i > 0 {
        lemma_all_matches(accounts, i - 1);
        let owner = accounts[i - 1];
        lemma_row_matches(accounts, owner, accounts.len() as int);
        let a = all_matches(accounts, i - 1);
        let r = row_matches(accounts, owner, accounts.len() as int);
        let all = all_matches(accounts, i);
        assert(all == a + r);
        assert(accounts.contains(owner));
        assert forall|k: int| 0 <= k < all.len() implies {
            let e = #[trigger] all[k];
            accounts.contains(e.0) && accounts.contains(e.1) && ata_pair(accounts, e.0, e.1) == Some(e.2)
        } by {
            if k < a.len() {
                assert(all[k] == a[k]);
            } else {
                assert(all[k] == r[k - a.len()]);
            }
        }
        assert forall|o: int, m: int|
            0 <= o < i && 0 <= m < accounts.len() && #[trigger] ata_pair(accounts, accounts[o], accounts[m])
                is Some implies all.contains(
                (accounts[o], accounts[m], ata_pair(accounts, accounts[o], accounts[m])->0),
            ) by {
            let t = (accounts[o], accounts[m], ata_pair(accounts, accounts[o], accounts[m])->0);
            if o < i - 1 {
                let idx = choose|idx: int| 0 <= idx < a.len() && a[idx] == t;
                assert(all[idx] == t);
            } else {
                let idx = choose|idx: int| 0 <= idx < r.len() && r[idx] == t;
                assert(all[a.len() + idx] == t);
            }
        }
    }
}

proof fn lemma_first_ata(atas: Seq<(Seq<char>, Seq<char>, Seq<char>)>, a: Seq<char>)
    ensures
        first_ata(atas, a) matches Some(p) ==> atas.contains((p.0, p.1, a)),
        (exists|k: int| 0 <= k < atas.len() && (#[trigger] atas[k]).2 == a) ==> first_ata(atas, a) is Some,
    decreases atas.len(),
{
    if atas.len() > 0 {
        lemma_first_ata(atas.drop_first(), a);
        if atas[0].2 != a {
            if let Some(p) = first_ata(atas, a) {
                let idx = choose|idx: int| 0 <= idx < atas.drop_first().len() && atas.drop_first()[idx] == (p.0, p.1, a);
                assert(atas[idx + 1] == (p.0, p.1, a));
            }
            if exists|k: int| 0 <= k < atas.len() && (#[trigger] atas[k]).2 == a {
                let k = choose|k: int| 0 <= k < atas.len() && (#[trigger] atas[k]).2 == a;
                assert(atas.drop_first()[k - 1].2 == a);
            }
        } else {
            assert(atas[0] == (atas[0].0, atas[0].1, a));
        }
    }
}

/// Associated accounts in the decompiler: where the accounts of a transaction hold a
/// wallet `w`, a mint `m` and their associated token account `a`, and no other
/// pair of its accounts gives `a`, every occurrence of `a` in the template is the
/// descriptor `{"type": "ata", "owner": w, "mint": m}`, with `w` written as its
/// signer placeholder where `w` signs.
pub proof fn lemma_decompiled_ata(infos: Seq<AccountInfo>, w: int, m: int)
    requires
        0 <= w < infos.len(),
        0 <= m < infos.len(),
        ata_pair(account_texts(infos), infos[w].pubkey@, infos[m].pubkey@) is Some,
        forall|o: int, n: int|
            0 <= o < infos.len() && 0 <= n < infos.len() && #[trigger] ata_pair(
                account_texts(infos),
                infos[o].pubkey@,
                infos[n].pubkey@,
            ) == ata_pair(account_texts(infos), infos[w].pubkey@, infos[m].pubkey@) ==> infos[o].pubkey@
                == infos[w].pubkey@ && infos[n].pubkey@ == infos[m].pubkey@,
    ensures
        account_descriptor(
            ata_pair(account_texts(infos), infos[w].pubkey@, infos[m].pubkey@)->0,
            all_matches(account_texts(infos), infos.len() as int),
            signer_keys(infos),
        ) == Json::Object(
            seq![
                ("type"@, Json::Str("ata"@)),
                ("owner"@, Json::Str(signer_text(signer_keys(infos), infos[w].pubkey@))),
                ("mint"@, Json::Str(infos[m].pubkey@)),
            ],
        ),
{
    let accts = account_texts(infos);
    let a = ata_pair(accts, infos[w].pubkey@, infos[m].pubkey@)->0;
    let atas = all_matches(accts, infos.len() as int);
    assert(accts[w] == infos[w].pubkey@ && accts[m] == infos[m].pubkey@);
    lemma_all_matches(accts, infos.len() as int);
    let t = (accts[w], accts[m], a);
    assert(atas.contains(t));
    let idx = choose|idx: int| 0 <= idx < atas.len() && atas[idx] == t;
    assert(atas[idx].2 == a);
    lemma_first_ata(atas, a);
    let p = first_ata(atas, a)->0;
    let k = choose|k: int| 0 <= k < atas.len() && atas[k] == (p.0, p.1, a);
    let e = atas[k];
    assert(accts.contains(e.0) && accts.contains(e.1) && ata_pair(accts, e.0, e.1) == Some(e.2));
    let o = choose|o: int| 0 <= o < accts.len() && accts[o] == e.0;
    let n = choose|n: int| 0 <= n < accts.len() && accts[n] == e.1;
    assert(accts[o] == infos[o].pubkey@ && accts[n] == infos[n].pubkey@);
    assert(ata_pair(accts, infos[o].pubkey@, infos[n].pubkey@) == ata_pair(accts, infos[w].pubkey@, infos[m].pubkey@));
}

} // verus!
