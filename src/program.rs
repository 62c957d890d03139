//! Reading program accounts: the ELF image in program data, and the program-data
//! address of an upgradeable program.
use vstd::prelude::*;
use crate::encoding::{base64_text, encode_base64, le_value, read_le};
use crate::json::{entry, entries_view, items_view, json_str, Json, JsonValue};
use crate::text::{chars_of, same_text, string_of};

verus! {

/// The bytes `0x7f 'E' 'L' 'F'` that begin an ELF image.
pub open spec fn is_elf_magic(s: Seq<u8>) -> bool {
    s.len() == 4 && s[0] == 0x7f && s[1] == 0x45 && s[2] == 0x4c && s[3] == 0x46
}

/// Whether the ELF magic starts at `i`.
pub open spec fn magic_at(data: Seq<u8>, i: int) -> bool {
    0 <= i && i + 4 <= data.len() && is_elf_magic(data.subrange(i, i + 4))
}

/// The program image in account data: everything from the first ELF magic on.
pub fn extract_elf_bytes(data: &[u8]) -> (r: Option<Vec<u8>>)
    ensures
        match r {
            Some(image) => exists|i: int|
                magic_at(data@, i) && (forall|j: int| 0 <= j < i ==> !magic_at(data@, j))
                    && image@ == data@.skip(i),
            None => forall|j: int| !magic_at(data@, j),
        },
{
    let n = data.len();
    let mut i: usize = 0;
    while n >= 4 && i <= n - 4
        invariant
            n == data@.len(),
            forall|j: int| 0 <= j < i ==> !magic_at(data@, j),
        decreases n - i,
    {
        if data[i] == 0x7f && data[i + 1] == 0x45 && data[i + 2] == 0x4c && data[i + 3] == 0x46 {
            let mut out: Vec<u8> = Vec::new();
            let mut k: usize = i;
            while k < n
                invariant
                    n == data@.len(),
                    i <= k <= n,
                    out@ == data@.subrange(i as int, k as int),
                decreases n - k,
            {
                out.push(data[k]);
                assert(data@.subrange(i as int, k + 1) =~= data@.subrange(i as int, k as int).push(
                    data@[k as int],
                ));
                k = k + 1;
            }
            assert(out@ =~= data@.skip(i as int));
            assert(magic_at(data@, i as int));
            return Some(out);
        }
        assert(!is_elf_magic(data@.subrange(i as int, i + 4)));
        i = i + 1;
    }
    assert forall|j: int| !magic_at(data@, j) by {
        if 0 <= j && j + 4 <= data@.len() {
            assert(j < i || n < 4);
        }
    }
    None
}

/// The program-data address in the account of an upgradeable program: a `u32`
/// tag 2, then 32 bytes.
pub fn try_get_upgradeable_program_data_address(data: &[u8]) -> (r: Option<[u8; 32]>)
    ensures
        match r {
            Some(a) => data@.len() >= 36 && le_value(data@.subrange(0, 4)) == 2 && a@
                == data@.subrange(4, 36),
            None => data@.len() < 36 || le_value(data@.subrange(0, 4)) != 2,
        },
{
    if data.len() < 36 {
        return None;
    }
    let tag = read_le(data, 0, 4);
    if tag != 2 {
        return None;
    }
    let mut a = [0u8; 32];
    let mut i: usize = 0;
    while i < 32
        invariant
            data@.len() >= 36,
            i <= 32,
            a@.len() == 32,
            forall|j: int| 0 <= j < i ==> a@[j] == data@[4 + j],
        decreases 32 - i,
    {
        a[i] = data[4 + i];
        i = i + 1;
    }
    assert(a@ =~= data@.subrange(4, 36));
    Some(a)
}

/// Adds a non-empty account key to a list of distinct keys, once.
pub fn add_account(set: &mut Vec<String>, account: &str)
    ensures
        (account@.len() == 0 || exists|k: int| 0 <= k < old(set)@.len() && #[trigger] old(set)@[k]@ == account@)
            ==> final(set)@ == old(set)@,
        !(account@.len() == 0 || exists|k: int| 0 <= k < old(set)@.len() && #[trigger] old(set)@[k]@ == account@)
            ==> final(set)@.len() == old(set)@.len() + 1 && final(set)@.subrange(0, old(set)@.len() as int)
            == old(set)@ && final(set)@.last()@ == account@,
{
    if account.unicode_len() == 0 {
        return;
    }
    let mut i: usize = 0;
    while i < set.len()
        invariant
            set@ == old(set)@,
            i <= set@.len(),
            forall|k: int| 0 <= k < i ==> #[trigger] set@[k]@ != account@,
        decreases set@.len() - i,
    {
        if same_text(set[i].as_str(), account) {
            return;
        }
        i = i + 1;
    }
    set.push(string_of(&chars_of(account)));
    assert(set@.subrange(0, old(set)@.len() as int) =~= old(set)@);
}

/// The JSON form of a fetched account: its key and its fields, with the data in
/// base64.
pub open spec fn account_json(
    pubkey: Seq<char>,
    lamports: u64,
    data: Seq<u8>,
    owner: Seq<char>,
    executable: bool,
    rent_epoch: u64,
) -> Json {
    Json::Object(
        seq![
            ("pubkey"@, Json::Str(pubkey)),
            (
                "account"@,
                Json::Object(
                    seq![
                        ("lamports"@, Json::UInt(lamports as nat)),
                        ("data"@, Json::Array(seq![Json::Str(base64_text(data)), Json::Str("base64"@)])),
                        ("owner"@, Json::Str(owner)),
                        ("executable"@, Json::Bool(executable)),
                        ("rentEpoch"@, Json::UInt(rent_epoch as nat)),
                        ("space"@, Json::UInt(data.len())),
                    ],
                ),
            ),
        ],
    )
}

/// The JSON form of a fetched account, as the dump of an account stores it.
pub fn serialize_account_info(
    pubkey: &str,
    lamports: u64,
    data: &Vec<u8>,
    owner: &str,
    executable: bool,
    rent_epoch: u64,
) -> (r: JsonValue)
    ensures
        r@ == account_json(pubkey@, lamports, data@, owner@, executable, rent_epoch),
{
    let encoded = vec![JsonValue::Str(encode_base64(data.as_slice())), json_str("base64")];
    let ghost ev = items_view(encoded@);
    let space = data.len() as u64;
    let account = vec![
        entry("lamports", JsonValue::UInt(lamports)),
        entry("data", JsonValue::Array(encoded)),
        entry("owner", json_str(owner)),
        entry("executable", JsonValue::Bool(executable)),
        entry("rentEpoch", JsonValue::UInt(rent_epoch)),
        entry("space", JsonValue::UInt(space)),
    ];
    let ghost av = entries_view(account@);
    let fields = vec![entry("pubkey", json_str(pubkey)), entry("account", JsonValue::Object(account))];
    proof {
        assert(ev =~= seq![Json::Str(base64_text(data@)), Json::Str("base64"@)]);
        assert(av =~= account_json(pubkey@, lamports, data@, owner@, executable, rent_epoch)->Object_0[1].1->Object_0);
        assert(entries_view(fields@) =~= account_json(pubkey@, lamports, data@, owner@, executable, rent_epoch)->Object_0);
    }
    JsonValue::Object(fields)
}

} // verus!
