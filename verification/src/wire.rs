//! Little-endian integers on the wire and the rolling XOR obfuscation.

use vstd::prelude::*;

verus! {

/// The value of the four bytes of `b` starting at `at`, least significant first.
pub open spec fn le_u32(b: Seq<u8>, at: int) -> int {
    b[at] as int + 0x100 * (b[at + 1] as int) + 0x1_0000 * (b[at + 2] as int) + 0x100_0000 * (b[at
        + 3] as int)
}

/// The value of the eight bytes of `b` starting at `at`, least significant first.
pub open spec fn le_u64(b: Seq<u8>, at: int) -> int {
    le_u32(b, at) + 0x1_0000_0000 * le_u32(b, at + 4)
}

/// The four bytes that encode `v`, least significant first.
#[verifier::opaque]
pub open spec fn u32_bytes(v: u32) -> Seq<u8> {
    seq![
        (v as int % 0x100) as u8,
        (v as int / 0x100 % 0x100) as u8,
        (v as int / 0x1_0000 % 0x100) as u8,
        (v as int / 0x100_0000 % 0x100) as u8,
    ]
}

/// The eight bytes that encode `v`, least significant first.
#[verifier::opaque]
pub open spec fn u64_bytes(v: u64) -> Seq<u8> {
    u32_bytes((v as int % 0x1_0000_0000) as u32) + u32_bytes((v as int / 0x1_0000_0000) as u32)
}

/// Decoding what `u32_bytes` produced gives the value back.
pub proof fn lemma_u32_roundtrip(v: u32)
    ensures
        u32_bytes(v).len() == 4,
        le_u32(u32_bytes(v), 0) == v,
{
    reveal(u32_bytes);
}

/// Encoding what `le_u32` read gives the same four bytes.
pub proof fn lemma_u32_bytes_of_le(b: Seq<u8>, at: int)
    requires
        0 <= at,
        at + 4 <= b.len(),
    ensures
        0 <= le_u32(b, at) <= u32::MAX,
        u32_bytes(le_u32(b, at) as u32) == b.subrange(at, at + 4),
{
    reveal(u32_bytes);
    let b0 = b[at] as int;
    let b1 = b[at + 1] as int;
    let b2 = b[at + 2] as int;
    let b3 = b[at + 3] as int;
    let v = le_u32(b, at);
    lemma_split(b0, 0x100, b1 + 0x100 * b2 + 0x1_0000 * b3);
    lemma_split(b0 + 0x100 * b1, 0x1_0000, b2 + 0x100 * b3);
    lemma_split(b0 + 0x100 * b1 + 0x1_0000 * b2, 0x100_0000, b3);
    lemma_split(b1, 0x100, b2 + 0x100 * b3);
    lemma_split(b2, 0x100, b3);
    assert(v / 0x100 == b1 + 0x100 * b2 + 0x1_0000 * b3);
    assert(v / 0x1_0000 == b2 + 0x100 * b3);
    assert(v / 0x100_0000 == b3);
    assert(u32_bytes(v as u32) =~= b.subrange(at, at + 4));
}

/// Division and remainder of `lo + m * q` by `m`, where `lo` is a remainder.
proof fn lemma_split(lo: int, m: int, q: int)
    requires
        0 <= lo < m,
        0 <= q,
    ensures
        (lo + m * q) % m == lo,
        (lo + m * q) / m == q,
{
    assert(m * q == q * m) by (nonlinear_arith);
    vstd::arithmetic::div_mod::lemma_fundamental_div_mod_converse(lo + m * q, m, q, lo);
}

/// Decoding what `u64_bytes` produced gives the value back.
pub proof fn lemma_u64_roundtrip(v: u64)
    ensures
        u64_bytes(v).len() == 8,
        le_u64(u64_bytes(v), 0) == v,
{
    reveal(u64_bytes);
    let lo = (v as int % 0x1_0000_0000) as u32;
    let hi = (v as int / 0x1_0000_0000) as u32;
    lemma_u32_roundtrip(lo);
    lemma_u32_roundtrip(hi);
    let s = u64_bytes(v);
    assert(le_u32(s, 0) == le_u32(u32_bytes(lo), 0));
    assert(le_u32(s, 4) == le_u32(u32_bytes(hi), 0));
}

/// Encoding what `le_u64` read gives the same eight bytes.
pub proof fn lemma_u64_bytes_of_le(b: Seq<u8>, at: int)
    requires
        0 <= at,
        at + 8 <= b.len(),
    ensures
        0 <= le_u64(b, at) <= u64::MAX,
        u64_bytes(le_u64(b, at) as u64) == b.subrange(at, at + 8),
{
    reveal(u64_bytes);
    lemma_u32_bytes_of_le(b, at);
    lemma_u32_bytes_of_le(b, at + 4);
    let v = le_u64(b, at);
    lemma_split(le_u32(b, at), 0x1_0000_0000, le_u32(b, at + 4));
    assert(u64_bytes(v as u64) =~= b.subrange(at, at + 4) + b.subrange(at + 4, at + 8));
    assert(b.subrange(at, at + 4) + b.subrange(at + 4, at + 8) =~= b.subrange(at, at + 8));
}

/// Appending is associative.
pub proof fn lemma_append_assoc<T>(a: Seq<T>, b: Seq<T>, c: Seq<T>)
    ensures
        (a + b) + c == a + (b + c),
{
    assert((a + b) + c =~= a + (b + c));
}

/// Reads a little-endian `u32` at `pos`, or `None` where fewer than four bytes are left.
pub fn read_u32(data: &[u8], pos: usize) -> (r: Option<u32>)
    ensures
        pos + 4 <= data@.len() ==> r == Some(le_u32(data@, pos as int) as u32),
        pos + 4 > data@.len() ==> r is None,
        r matches Some(v) ==> v == le_u32(data@, pos as int),
{
    if data.len() < 4 || pos > data.len() - 4 {
        return None;
    }
    let b0: u32 = data[pos] as u32;
    let b1: u32 = data[pos + 1] as u32;
    let b2: u32 = data[pos + 2] as u32;
    let b3: u32 = data[pos + 3] as u32;
    Some(b0 + 0x100 * b1 + 0x1_0000 * b2 + 0x100_0000 * b3)
}

/// Reads a little-endian `u64` at `pos`, or `None` where fewer than eight bytes are left.
pub fn read_u64(data: &[u8], pos: usize) -> (r: Option<u64>)
    ensures
        pos + 8 <= data@.len() ==> r == Some(le_u64(data@, pos as int) as u64),
        pos + 8 > data@.len() ==> r is None,
        r matches Some(v) ==> v == le_u64(data@, pos as int),
{
    if data.len() < 8 || pos > data.len() - 8 {
        return None;
    }
    let lo = read_u32(data, pos);
    let hi = read_u32(data, pos + 4);
    match (lo, hi) {
        (Some(lo), Some(hi)) => Some(lo as u64 + 0x1_0000_0000 * (hi as u64)),
        _ => None,
    }
}

/// Appends the little-endian encoding of `v`.
pub fn push_u32(out: &mut Vec<u8>, v: u32)
    ensures
        final(out)@ == old(out)@ + u32_bytes(v),
{
    reveal(u32_bytes);
    out.push((v % 0x100) as u8);
    out.push((v / 0x100 % 0x100) as u8);
    out.push((v / 0x1_0000 % 0x100) as u8);
    out.push((v / 0x100_0000 % 0x100) as u8);
    assert(out@ =~= old(out)@ + u32_bytes(v));
}

/// Appends the little-endian encoding of `v`.
pub fn push_u64(out: &mut Vec<u8>, v: u64)
    ensures
        final(out)@ == old(out)@ + u64_bytes(v),
{
    reveal(u64_bytes);
    push_u32(out, (v % 0x1_0000_0000) as u32);
    push_u32(out, (v / 0x1_0000_0000) as u32);
    assert(out@ =~= old(out)@ + u64_bytes(v));
}

/// The byte of the fixed obfuscation key that meets position `i` of a payload.
pub open spec fn key_byte(i: int) -> u8 {
    let k = i % 8;
    if k == 0 {
        0xdc
    } else if k == 1 {
        0x45
    } else if k == 2 {
        0xa6
    } else if k == 3 {
        0x9c
    } else if k == 4 {
        0xd3
    } else if k == 5 {
        0x72
    } else if k == 6 {
        0x4c
    } else {
        0xab
    }
}

/// `s` with every byte XORed against the key, the key repeating every eight bytes.
pub open spec fn scrambled(s: Seq<u8>) -> Seq<u8> {
    Seq::new(s.len(), |i: int| s[i] ^ key_byte(i))
}

/// Scrambling twice gives the input back, so one routine serves both directions.
pub proof fn law_scramble_involutive(s: Seq<u8>)
    ensures
        scrambled(s).len() == s.len(),
        scrambled(scrambled(s)) == s,
{
    assert forall|i: int| 0 <= i < s.len() implies #[trigger] scrambled(scrambled(s))[i] == s[i] by {
        let a = s[i];
        let k = key_byte(i);
        assert((a ^ k) ^ k == a) by (bit_vector);
    }
    assert(scrambled(scrambled(s)) =~= s);
}

fn key_at(i: usize) -> (k: u8)
    ensures
        k == key_byte(i as int),
{
    let r = i % 8;
    if r == 0 {
        0xdc
    } else if r == 1 {
        0x45
    } else if r == 2 {
        0xa6
    } else if r == 3 {
        0x9c
    } else if r == 4 {
        0xd3
    } else if r == 5 {
        0x72
    } else if r == 6 {
        0x4c
    } else {
        0xab
    }
}

/// Scrambles (or, being its own inverse, descrambles) a payload.
pub fn scramble(data: &[u8]) -> (out: Vec<u8>)
    ensures
        out@ == scrambled(data@),
{
    let mut out: Vec<u8> = Vec::new();
    let mut i: usize = 0;
    while i < data.len()
        invariant
            i <= data@.len(),
            out@.len() == i,
            forall|j: int| 0 <= j < i ==> out@[j] == data@[j] ^ key_byte(j),
        decreases data@.len() - i,
    {
        out.push(data[i] ^ key_at(i));
        i += 1;
    }
    assert(out@ =~= scrambled(data@));
    out
}

} // verus!
