//! Address descriptors: literal base58 addresses, parameter references, well-known
//! program tags and associated-token-account descriptors, resolved to 32 bytes.
use vstd::prelude::*;
use crate::error::TemplateError;
use crate::json::{lookup, str_field, Json, JsonValue};
use crate::pack::lemma_lookup_smaller;
use crate::params::{param_for, resolve_text, texts};
use crate::text::same_text;

verus! {

/// What `Pubkey::from_str` gives for a text: the 32 bytes it denotes in base58, if any.
pub uninterp spec fn text_address(s: Seq<char>) -> Option<Seq<u8>>;

/// What `Pubkey`'s `Display` gives for 32 bytes: their base58 text.
pub uninterp spec fn address_text(b: Seq<u8>) -> Seq<char>;

/// What `Pubkey::try_find_program_address` gives for seeds under a program id.
pub uninterp spec fn program_address(seeds: Seq<Seq<u8>>, program: Seq<u8>) -> Option<Seq<u8>>;

/// Relies on `Pubkey::from_str` of solana-sdk: a base58 text of exactly 32 bytes.
#[verifier::external_body]
pub(crate) fn decode_address(s: &str) -> (r: Option<[u8; 32]>)
    ensures
        match r {
            Some(b) => text_address(s@) == Some(b@),
            None => text_address(s@) is None,
        },
{
    <solana_sdk::pubkey::Pubkey as std::str::FromStr>::from_str(s).ok().map(|p| p.to_bytes())
}

/// Relies on the `Display` of solana-sdk's `Pubkey`: the base58 text of the 32 bytes,
/// which `Pubkey::from_str` decodes back to the same bytes.
#[verifier::external_body]
pub(crate) fn encode_address(b: &[u8; 32]) -> (r: String)
    ensures
        r@ == address_text(b@),
        text_address(r@) == Some(b@),
{
    solana_sdk::pubkey::Pubkey::new_from_array(*b).to_string()
}

/// Relies on `Pubkey::try_find_program_address` of solana-sdk: the program-derived
/// address of the seeds under the program id, found with the first viable bump seed.
#[verifier::external_body]
pub(crate) fn find_program_address(seeds: &Vec<Vec<u8>>, program: &[u8; 32]) -> (r: Option<[u8; 32]>)
    ensures
        match r {
            Some(a) => program_address(seeds@.map_values(|s: Vec<u8>| s@), program@) == Some(a@),
            None => program_address(seeds@.map_values(|s: Vec<u8>| s@), program@) is None,
        },
{
    let refs: Vec<&[u8]> = seeds.iter().map(|s| s.as_slice()).collect();
    let program = solana_sdk::pubkey::Pubkey::new_from_array(*program);
    solana_sdk::pubkey::Pubkey::try_find_program_address(&refs, &program).map(|(a, _)| a.to_bytes())
}

pub open spec fn system_program_bytes() -> Seq<u8> {
    Seq::new(32, |i: int| 0u8)
}

pub open spec fn compute_budget_program_bytes() -> Seq<u8> {
    seq![
        3u8, 6, 70, 111, 229, 33, 23, 50, 255, 236, 173, 186, 114, 195, 155, 231,
        188, 140, 229, 187, 197, 247, 18, 107, 44, 67, 155, 58, 64, 0, 0, 0,
    ]
}

pub open spec fn token_program_bytes() -> Seq<u8> {
    seq![
        6u8, 221, 246, 225, 215, 101, 161, 147, 217, 203, 225, 70, 206, 235, 121, 172,
        28, 180, 133, 237, 95, 91, 55, 145, 58, 140, 245, 133, 126, 255, 0, 169,
    ]
}

pub open spec fn associated_token_program_bytes() -> Seq<u8> {
    seq![
        140u8, 151, 37, 143, 78, 36, 137, 241, 187, 61, 16, 41, 20, 142, 13, 131,
        11, 90, 19, 153, 218, 255, 16, 132, 4, 142, 123, 216, 219, 233, 248, 89,
    ]
}

/// The system program, `11111111111111111111111111111111`.
pub fn system_program_id() -> (r: [u8; 32])
    ensures
        r@ == system_program_bytes(),
{
    let r = [0u8; 32];
    assert(r@ =~= system_program_bytes());
    r
}

/// The compute budget program, `ComputeBudget111111111111111111111111111111`.
pub fn compute_budget_program_id() -> (r: [u8; 32])
    ensures
        r@ == compute_budget_program_bytes(),
{
    let r: [u8; 32] = [
        3, 6, 70, 111, 229, 33, 23, 50, 255, 236, 173, 186, 114, 195, 155, 231,
        188, 140, 229, 187, 197, 247, 18, 107, 44, 67, 155, 58, 64, 0, 0, 0,
    ];
    assert(r@ =~= compute_budget_program_bytes());
    r
}

/// The token program, `TokenkegQfeZyiNwAJbNbGKPFXCWuBvf9Ss623VQ5DA`.
pub fn token_program_id() -> (r: [u8; 32])
    ensures
        r@ == token_program_bytes(),
{
    let r: [u8; 32] = [
        6, 221, 246, 225, 215, 101, 161, 147, 217, 203, 225, 70, 206, 235, 121, 172,
        28, 180, 133, 237, 95, 91, 55, 145, 58, 140, 245, 133, 126, 255, 0, 169,
    ];
    assert(r@ =~= token_program_bytes());
    r
}

/// The associated token account program, `ATokenGPvbdGVxr1b2hvZbsiqW5xWH25efTNsLJA8knL`.
pub fn associated_token_program_id() -> (r: [u8; 32])
    ensures
        r@ == associated_token_program_bytes(),
{
    let r: [u8; 32] = [
        140, 151, 37, 143, 78, 36, 137, 241, 187, 61, 16, 41, 20, 142, 13, 131,
        11, 90, 19, 153, 218, 255, 16, 132, 4, 142, 123, 216, 219, 233, 248, 89,
    ];
    assert(r@ =~= associated_token_program_bytes());
    r
}

/// The address that a well-known program tag names.
pub open spec fn tag_address(tag: Seq<char>) -> Option<Seq<u8>> {
    if tag == "system_program"@ {
        Some(system_program_bytes())
    } else if tag == "token_program"@ {
        Some(token_program_bytes())
    } else if tag == "associated_token_program"@ {
        Some(associated_token_program_bytes())
    } else if tag == "compute_budget_program"@ {
        Some(compute_budget_program_bytes())
    } else {
        None
    }
}

/// The associated token account of an owner for a mint: the address derived from
/// the seeds `[owner, token program, mint]` under the associated token program.
pub open spec fn ata_address(owner: Seq<u8>, mint: Seq<u8>) -> Option<Seq<u8>> {
    program_address(seq![owner, token_program_bytes(), mint], associated_token_program_bytes())
}

/// The address that a string descriptor names once parameters are substituted.
pub open spec fn text_descriptor(s: Seq<char>, params: Seq<Seq<char>>) -> Result<
    Seq<u8>,
    TemplateError,
> {
    let t = match param_for(s, params) {
        Some(p) => p,
        None => s,
    };
    match tag_address(t) {
        Some(a) => Ok(a),
        None => match text_address(t) {
            Some(a) => Ok(a),
            None => Err(TemplateError::InvalidAddress),
        },
    }
}

#[via_fn]
proof fn descriptor_address_decreases(d: Json, params: Seq<Seq<char>>) {
    if let Json::Object(entries) = d {
        assert(decreases_to!(d => d->Object_0));
        lemma_lookup_smaller(entries, "owner"@);
        lemma_lookup_smaller(entries, "mint"@);
    }
}

/// The address that a descriptor names, or why it names none.
pub open spec fn descriptor_address(d: Json, params: Seq<Seq<char>>) -> Result<
    Seq<u8>,
    TemplateError,
>
    decreases d via descriptor_address_decreases
{
    match d {
        Json::Str(s) => text_descriptor(s, params),
        Json::Object(entries) => match str_field(d, "type"@) {
            None => Err(TemplateError::UnsupportedDescriptor),
            Some(kind) => if kind == "ata"@ {
                match (lookup(entries, "owner"@), lookup(entries, "mint"@)) {
                    (Some(o), Some(m)) => match (
                        descriptor_address(o, params),
                        descriptor_address(m, params),
                    ) {
                        (Ok(ob), Ok(mb)) => match ata_address(ob, mb) {
                            Some(a) => Ok(a),
                            None => Err(TemplateError::InvalidAddress),
                        },
                        _ => Err(TemplateError::InvalidAddress),
                    },
                    _ => Err(TemplateError::UnsupportedDescriptor),
                }
            } else {
                match tag_address(kind) {
                    Some(a) => Ok(a),
                    None => Err(TemplateError::UnsupportedDescriptor),
                }
            },
        },
        _ => Err(TemplateError::UnsupportedDescriptor),
    }
}

/// The address that a well-known program tag names.
pub fn tag_program_id(tag: &str) -> (r: Option<[u8; 32]>)
    ensures
        match r {
            Some(a) => tag_address(tag@) == Some(a@),
            None => tag_address(tag@) is None,
        },
{
    if same_text(tag, "system_program") {
        Some(system_program_id())
    } else if same_text(tag, "token_program") {
        Some(token_program_id())
    } else if same_text(tag, "associated_token_program") {
        Some(associated_token_program_id())
    } else if same_text(tag, "compute_budget_program") {
        Some(compute_budget_program_id())
    } else {
        None
    }
}

/// The 32 bytes of an address as a vector.
pub fn address_bytes(a: &[u8; 32]) -> (r: Vec<u8>)
    ensures
        r@ == a@,
{
    let mut out: Vec<u8> = Vec::new();
    let mut i: usize = 0;
    while i < 32
        invariant
            i <= 32,
            a@.len() == 32,
            out@ == a@.subrange(0, i as int),
        decreases 32 - i,
    {
        out.push(a[i]);
        assert(a@.subrange(0, i + 1) =~= a@.subrange(0, i as int).push(a@[i as int]));
        i = i + 1;
    }
    assert(a@.subrange(0, 32) =~= a@);
    out
}

/// The associated token account of `owner` for `mint`.
pub fn derive_ata(owner: &[u8; 32], mint: &[u8; 32]) -> (r: Option<[u8; 32]>)
    ensures
        match r {
            Some(a) => ata_address(owner@, mint@) == Some(a@),
            None => ata_address(owner@, mint@) is None,
        },
{
    let token = token_program_id();
    let program = associated_token_program_id();
    let seeds: Vec<Vec<u8>> = vec![address_bytes(owner), address_bytes(&token), address_bytes(mint)];
    assert(seeds@.map_values(|s: Vec<u8>| s@) =~= seq![owner@, token_program_bytes(), mint@]);
    find_program_address(&seeds, &program)
}

/// Resolves an address descriptor to the 32 bytes it names.
pub fn parse_pubkey(value: &JsonValue, params: &Vec<String>) -> (r: Result<[u8; 32], TemplateError>)
    ensures
        match r {
            Ok(a) => descriptor_address(value@, texts(params@)) == Ok::<Seq<u8>, TemplateError>(a@),
            Err(e) => descriptor_address(value@, texts(params@)) == Err::<Seq<u8>, TemplateError>(e),
        },
    decreases value@,
{
    match value {
        JsonValue::Str(s) => {
            let t = resolve_text(s.as_str(), params);
            match tag_program_id(t.as_str()) {
                Some(a) => Ok(a),
                None => match decode_address(t.as_str()) {
                    Some(a) => Ok(a),
                    None => Err(TemplateError::InvalidAddress),
                },
            }
        },
        JsonValue::Object(_) => {
            let kind = match value.get_str("type") {
                Some(k) => k,
                None => {
                    return Err(TemplateError::UnsupportedDescriptor);
                },
            };
            if same_text(kind.as_str(), "ata") {
                let owner = value.get_field("owner");
                let mint = value.get_field("mint");
                if owner.is_none() || mint.is_none() {
                    return Err(TemplateError::UnsupportedDescriptor);
                }
                let owner = owner.unwrap();
                let mint = mint.unwrap();
                proof {
                    let j = value@;
                    lemma_lookup_smaller(j->Object_0, "owner"@);
                    lemma_lookup_smaller(j->Object_0, "mint"@);
                    assert(decreases_to!(j => j->Object_0));
                }
                let o = parse_pubkey(owner, params);
                let m = parse_pubkey(mint, params);
                match (o, m) {
                    (Ok(ob), Ok(mb)) => match derive_ata(&ob, &mb) {
                        Some(a) => Ok(a),
                        None => Err(TemplateError::InvalidAddress),
                    },
                    _ => Err(TemplateError::InvalidAddress),
                }
            } else {
                match tag_program_id(kind.as_str()) {
                    Some(a) => Ok(a),
                    None => Err(TemplateError::UnsupportedDescriptor),
                }
            }
        },
        _ => Err(TemplateError::UnsupportedDescriptor),
    }
}

} // verus!
