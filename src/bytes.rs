use vstd::prelude::*;

verus! {

/// Little-endian bytes of a 16-bit value.
pub open spec fn le16(x: u16) -> Seq<u8> {
    seq![(x % 256) as u8, (x / 256) as u8]
}

/// Little-endian bytes of a 32-bit value.
pub open spec fn le32(x: u32) -> Seq<u8> {
    le16((x % 0x1_0000) as u16) + le16((x / 0x1_0000) as u16)
}

/// Little-endian bytes of a 64-bit value.
pub open spec fn le64(x: u64) -> Seq<u8> {
    le32((x % 0x1_0000_0000) as u32) + le32((x / 0x1_0000_0000) as u32)
}

/// The unsigned image of a signed 32-bit value, shifted so that the order is kept.
pub open spec fn biased(x: i32) -> u32 {
    (x as int + 0x8000_0000) as u32
}

pub proof fn lemma_split(x: nat, b: nat)
    requires
        b > 0,
    ensures
        x == x % b + (x / b) * b,
        x % b < b,
{
    assert(x == x % b + (x / b) * b && x % b < b) by (nonlinear_arith)
        requires b > 0;
}

pub proof fn lemma_join(lo: nat, hi: nat, b: nat)
    requires
        b > 0,
        lo < b,
    ensures
        (lo + hi * b) % b == lo,
        (lo + hi * b) / b == hi,
{
    assert((lo + hi * b) % b == lo && (lo + hi * b) / b == hi) by (nonlinear_arith)
        requires b > 0, lo < b;
}

pub proof fn lemma_le16_injective(x: u16, y: u16)
    requires
        le16(x) == le16(y),
    ensures
        x == y,
{
    assert(le16(x)[0] == le16(y)[0] && le16(x)[1] == le16(y)[1]);
    lemma_split(x as nat, 256);
    lemma_split(y as nat, 256);
}

pub proof fn lemma_le32_injective(x: u32, y: u32)
    requires
        le32(x) == le32(y),
    ensures
        x == y,
{
    let a = le16((x % 0x1_0000) as u16);
    let b = le16((y % 0x1_0000) as u16);
    assert(le32(x).subrange(0, 2) =~= a);
    assert(le32(y).subrange(0, 2) =~= b);
    assert(le32(x).subrange(2, 4) =~= le16((x / 0x1_0000) as u16));
    assert(le32(y).subrange(2, 4) =~= le16((y / 0x1_0000) as u16));
    lemma_le16_injective((x % 0x1_0000) as u16, (y % 0x1_0000) as u16);
    lemma_le16_injective((x / 0x1_0000) as u16, (y / 0x1_0000) as u16);
    lemma_split(x as nat, 0x1_0000);
    lemma_split(y as nat, 0x1_0000);
}

pub proof fn lemma_le64_injective(x: u64, y: u64)
    requires
        le64(x) == le64(y),
    ensures
        x == y,
{
    assert(le64(x).subrange(0, 4) =~= le32((x % 0x1_0000_0000) as u32));
    assert(le64(y).subrange(0, 4) =~= le32((y % 0x1_0000_0000) as u32));
    assert(le64(x).subrange(4, 8) =~= le32((x / 0x1_0000_0000) as u32));
    assert(le64(y).subrange(4, 8) =~= le32((y / 0x1_0000_0000) as u32));
    lemma_le32_injective((x % 0x1_0000_0000) as u32, (y % 0x1_0000_0000) as u32);
    lemma_le32_injective((x / 0x1_0000_0000) as u32, (y / 0x1_0000_0000) as u32);
    lemma_split(x as nat, 0x1_0000_0000);
    lemma_split(y as nat, 0x1_0000_0000);
}

pub fn push_u16(out: &mut Vec<u8>, x: u16)
    ensures
        final(out)@ == old(out)@ + le16(x),
{
    out.push((x % 256) as u8);
    out.push((x / 256) as u8);
    assert(final(out)@ =~= old(out)@ + le16(x));
}

pub fn push_u32(out: &mut Vec<u8>, x: u32)
    ensures
        final(out)@ == old(out)@ + le32(x),
{
    push_u16(out, (x % 0x1_0000) as u16);
    push_u16(out, (x / 0x1_0000) as u16);
    assert(final(out)@ =~= old(out)@ + le32(x));
}

pub fn push_u64(out: &mut Vec<u8>, x: u64)
    ensures
        final(out)@ == old(out)@ + le64(x),
{
    push_u32(out, (x % 0x1_0000_0000) as u32);
    push_u32(out, (x / 0x1_0000_0000) as u32);
    assert(final(out)@ =~= old(out)@ + le64(x));
}

pub fn get_u16(b: &Vec<u8>, pos: usize) -> (r: u16)
    requires
        pos + 2 <= b.len(),
    ensures
        le16(r) == b@.subrange(pos as int, pos + 2),
{
    let lo = b[pos];
    let hi = b[pos + 1];
    let r = lo as u16 + (hi as u16) * 256;
    proof {
        lemma_join(lo as nat, hi as nat, 256);
    }
    assert(le16(r) =~= b@.subrange(pos as int, pos + 2));
    r
}

pub fn get_u32(b: &Vec<u8>, pos: usize) -> (r: u32)
    requires
        pos + 4 <= b.len(),
    ensures
        le32(r) == b@.subrange(pos as int, pos + 4),
{
    let lo = get_u16(b, pos);
    let hi = get_u16(b, pos + 2);
    let r = lo as u32 + (hi as u32) * 0x1_0000;
    proof {
        lemma_join(lo as nat, hi as nat, 0x1_0000);
    }
    assert(le32(r) =~= b@.subrange(pos as int, pos + 4));
    r
}

pub fn get_u64(b: &Vec<u8>, pos: usize) -> (r: u64)
    requires
        pos + 8 <= b.len(),
    ensures
        le64(r) == b@.subrange(pos as int, pos + 8),
{
    let lo = get_u32(b, pos);
    let hi = get_u32(b, pos + 4);
    let r = lo as u64 + (hi as u64) * 0x1_0000_0000;
    proof {
        lemma_join(lo as nat, hi as nat, 0x1_0000_0000);
    }
    assert(le64(r) =~= b@.subrange(pos as int, pos + 8));
    r
}

pub fn bias(x: i32) -> (r: u32)
    ensures
        r == biased(x),
{
    (x as i64 + 0x8000_0000) as u32
}

pub fn unbias(u: u32) -> (r: i32)
    ensures
        biased(r) == u,
{
    (u as i64 - 0x8000_0000) as i32
}

} // verus!
