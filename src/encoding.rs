//! Byte encodings: little-endian integers, hex, base64, base58 and UTF-8 text.
use vstd::prelude::*;
use base64::Engine;
use vstd::arithmetic::div_mod::lemma_mod_breakdown;
use crate::text::{chars_of, push_char};

verus! {

pub open spec fn pow256(n: nat) -> nat
    decreases n,
{
    if n == 0 {
        1
    } else {
        256 * pow256((n - 1) as nat)
    }
}

/// The unsigned number that bytes denote, least significant byte first.
pub open spec fn le_value(s: Seq<u8>) -> nat
    decreases s.len(),
{
    if s.len() == 0 {
        0
    } else {
        s[0] as nat + 256 * le_value(s.drop_first())
    }
}

/// The `w` low bytes of `n`, least significant first.
pub open spec fn le_bytes(n: nat, w: nat) -> Seq<u8>
    decreases w,
{
    if w == 0 {
        Seq::empty()
    } else {
        seq![(n % 256) as u8] + le_bytes(n / 256, (w - 1) as nat)
    }
}

pub proof fn lemma_pow256_positive(n: nat)
    ensures
        pow256(n) >= 1,
    decreases n,
{
    if n > 0 {
        lemma_pow256_positive((n - 1) as nat);
    }
}

pub proof fn lemma_le_bytes_len(n: nat, w: nat)
    ensures
        le_bytes(n, w).len() == w,
    decreases w,
{
    if w > 0 {
        lemma_le_bytes_len(n / 256, (w - 1) as nat);
    }
}

pub proof fn lemma_le_value_bound(s: Seq<u8>)
    ensures
        le_value(s) < pow256(s.len()),
    decreases s.len(),
{
    if s.len() > 0 {
        lemma_le_value_bound(s.drop_first());
        let rest = le_value(s.drop_first());
        assert(rest + 1 <= pow256((s.len() - 1) as nat));
        assert(s[0] as nat + 256 * rest < 256 * (rest + 1)) by (nonlinear_arith)
            requires
                s[0] < 256,
        ;
        assert(256 * (rest + 1) <= 256 * pow256((s.len() - 1) as nat)) by (nonlinear_arith)
            requires
                rest + 1 <= pow256((s.len() - 1) as nat),
        ;
    }
}

/// Encoding to `w` bytes and reading them back gives `n` modulo `256^w`.
pub proof fn lemma_le_round_trip(n: nat, w: nat)
    ensures
        le_value(le_bytes(n, w)) == n % pow256(w),
    decreases w,
{
    lemma_le_bytes_len(n, w);
    if w == 0 {
        assert(n % 1 == 0);
    } else {
        let w1 = (w - 1) as nat;
        lemma_le_round_trip(n / 256, w1);
        let s = le_bytes(n, w);
        assert(s.drop_first() =~= le_bytes(n / 256, w1));
        lemma_pow256_positive(w1);
        lemma_mod_breakdown(n as int, 256, pow256(w1) as int);
        assert(s[0] as nat == n % 256);
    }
}

/// Reads `w` bytes at `offset` as a little-endian number.
pub fn read_le(buffer: &[u8], offset: usize, w: usize) -> (r: u64)
    requires
        w <= 8,
        offset + w <= buffer@.len(),
    ensures
        r as nat == le_value(buffer@.subrange(offset as int, offset + w)),
{
    let ghost s = buffer@.subrange(offset as int, offset + w);
    let len = buffer.len();
    let mut acc: u64 = 0;
    let mut i: usize = w;
    assert(s.subrange(w as int, w as int) =~= Seq::<u8>::empty());
    while i > 0
        invariant
            len == buffer@.len(),
            w <= 8,
            offset + w <= buffer@.len(),
            s == buffer@.subrange(offset as int, offset + w),
            i <= w,
            acc as nat == le_value(s.subrange(i as int, w as int)),
            (acc as nat) < pow256((w - i) as nat),
        decreases i,
    {
        let ghost tail = s.subrange(i as int, w as int);
        let ghost next = s.subrange(i - 1, w as int);
        assert(next.drop_first() =~= tail);
        proof {
            lemma_pow_bound((w - i) as nat);
            lemma_le_value_bound(next);
            assert(next.len() == (w - i) + 1);
        }
        assert(acc * 256 + buffer[offset + i - 1] < pow256((w - i + 1) as nat)) by (nonlinear_arith)
            requires
                acc < pow256((w - i) as nat),
                buffer[offset + i - 1] < 256,
                pow256((w - i + 1) as nat) == 256 * pow256((w - i) as nat),
        ;
        assert(pow256((w - i + 1) as nat) <= pow256(8)) by {
            lemma_pow_mono((w - i + 1) as nat, 8);
        }
        assert(pow256(8) == 0x1_0000_0000_0000_0000) by {
            reveal_with_fuel(pow256, 9);
        }
        acc = acc * 256 + buffer[offset + i - 1] as u64;
        i = i - 1;
    }
    assert(s.subrange(0, w as int) =~= s);
    acc
}

proof fn lemma_pow_bound(n: nat)
    ensures
        pow256(n + 1) == 256 * pow256(n),
{
}

proof fn lemma_pow_mono(a: nat, b: nat)
    requires
        a <= b,
    ensures
        pow256(a) <= pow256(b),
    decreases b,
{
    if a < b {
        lemma_pow_mono(a, (b - 1) as nat);
        lemma_pow256_positive((b - 1) as nat);
    }
}

/// The `w` low bytes of `n`, least significant first.
pub fn write_le(n: u64, w: usize) -> (r: Vec<u8>)
    requires
        w <= 8,
    ensures
        r@ == le_bytes(n as nat, w as nat),
{
    let mut out: Vec<u8> = Vec::new();
    let mut x: u64 = n;
    let mut i: usize = 0;
    while i < w
        invariant
            i <= w,
            out@ + le_bytes(x as nat, (w - i) as nat) == le_bytes(n as nat, w as nat),
        decreases w - i,
    {
        let ghost before = le_bytes(x as nat, (w - i) as nat);
        assert(before == seq![(x as nat % 256) as u8] + le_bytes(x as nat / 256, (w - i - 1) as nat));
        out.push((x % 256) as u8);
        x = x / 256;
        i = i + 1;
        assert(out@ + le_bytes(x as nat, (w - i) as nat) =~= le_bytes(n as nat, w as nat));
    }
    assert(out@ + Seq::<u8>::empty() =~= out@);
    out
}

pub open spec fn is_hex_digit(c: char) -> bool {
    ('0' <= c && c <= '9') || ('a' <= c && c <= 'f') || ('A' <= c && c <= 'F')
}

pub open spec fn hex_digit_value(c: char) -> nat {
    if '0' <= c && c <= '9' {
        ((c as u32) - ('0' as u32)) as nat
    } else if 'a' <= c && c <= 'f' {
        ((c as u32) - ('a' as u32) + 10) as nat
    } else {
        ((c as u32) - ('A' as u32) + 10) as nat
    }
}

/// The bytes that a text of hex digit pairs denotes; `None` for an odd length or a
/// character that is not a hex digit.
pub open spec fn hex_decoded(s: Seq<char>) -> Option<Seq<u8>> {
    if s.len() % 2 == 0 && forall|i: int| 0 <= i < s.len() ==> is_hex_digit(#[trigger] s[i]) {
        Some(
            Seq::new(
                s.len() / 2,
                |i: int| (hex_digit_value(s[2 * i]) * 16 + hex_digit_value(s[2 * i + 1])) as u8,
            ),
        )
    } else {
        None
    }
}

pub open spec fn lower_hex_char(d: nat) -> char {
    if d < 10 {
        ((d + ('0' as u32)) as u32) as char
    } else {
        ((d - 10 + ('a' as u32)) as u32) as char
    }
}

/// Two lowercase hex digits for each byte.
pub open spec fn hex_text(b: Seq<u8>) -> Seq<char> {
    Seq::new(
        2 * b.len(),
        |i: int|
            if i % 2 == 0 {
                lower_hex_char(b[i / 2] as nat / 16)
            } else {
                lower_hex_char(b[i / 2] as nat % 16)
            },
    )
}

/// Relies on `hex::decode`: an even number of hex digits, either case, two per byte.
#[verifier::external_body]
pub(crate) fn decode_hex(s: &str) -> (r: Option<Vec<u8>>)
    ensures
        match r {
            Some(b) => hex_decoded(s@) == Some(b@),
            None => hex_decoded(s@) is None,
        },
{
    hex::decode(s).ok()
}

/// Relies on `hex::encode`: two lowercase hex digits for each byte.
#[verifier::external_body]
pub(crate) fn encode_hex(b: &[u8]) -> (r: String)
    ensures
        r@ == hex_text(b@),
{
    hex::encode(b)
}

/// What base64's standard engine decodes a text to, if it is valid base64.
pub uninterp spec fn base64_decoded(s: Seq<char>) -> Option<Seq<u8>>;

/// What base64's standard engine encodes bytes to.
pub uninterp spec fn base64_text(b: Seq<u8>) -> Seq<char>;

/// What `bs58::decode` gives for a text, if it is valid base58.
pub uninterp spec fn base58_decoded(s: Seq<char>) -> Option<Seq<u8>>;

/// What `String::from_utf8_lossy` gives for bytes.
pub uninterp spec fn utf8_lossy(b: Seq<u8>) -> Seq<char>;

/// Relies on base64's `STANDARD` engine `decode`: padded standard-alphabet base64.
#[verifier::external_body]
pub(crate) fn decode_base64(s: &str) -> (r: Option<Vec<u8>>)
    ensures
        match r {
            Some(b) => base64_decoded(s@) == Some(b@),
            None => base64_decoded(s@) is None,
        },
{
    base64::engine::general_purpose::STANDARD.decode(s).ok()
}

/// Relies on base64's `STANDARD` engine `encode`: padded standard-alphabet base64.
#[verifier::external_body]
pub(crate) fn encode_base64(b: &[u8]) -> (r: String)
    ensures
        r@ == base64_text(b@),
        b@.len() == 0 ==> r@.len() == 0,
{
    base64::engine::general_purpose::STANDARD.encode(b)
}

/// Relies on `bs58::decode(..).into_vec()`: the bytes of a base58 text.
#[verifier::external_body]
pub(crate) fn decode_base58(s: &str) -> (r: Option<Vec<u8>>)
    ensures
        match r {
            Some(b) => base58_decoded(s@) == Some(b@),
            None => base58_decoded(s@) is None,
        },
{
    bs58::decode(s).into_vec().ok()
}

/// Relies on `String::from_utf8_lossy`: the text of the bytes, with U+FFFD for
/// each invalid sequence.
#[verifier::external_body]
pub(crate) fn lossy_text(b: &[u8]) -> (r: String)
    ensures
        r@ == utf8_lossy(b@),
{
    String::from_utf8_lossy(b).to_string()
}

/// `0x` followed by two lowercase hex digits per byte.
pub fn prefixed_hex(b: &[u8]) -> (r: String)
    ensures
        r@ == seq!['0', 'x'] + hex_text(b@),
{
    let h = encode_hex(b);
    let hs = chars_of(h.as_str());
    let mut out = String::new();
    push_char(&mut out, '0');
    push_char(&mut out, 'x');
    let mut i: usize = 0;
    while i < hs.len()
        invariant
            i <= hs@.len(),
            hs@ == hex_text(b@),
            out@ == seq!['0', 'x'] + hs@.subrange(0, i as int),
        decreases hs@.len() - i,
    {
        push_char(&mut out, hs[i]);
        assert(hs@.subrange(0, i + 1) =~= hs@.subrange(0, i as int).push(hs@[i as int]));
        i = i + 1;
    }
    assert(hs@.subrange(0, hs@.len() as int) =~= hs@);
    out
}

} // verus!
