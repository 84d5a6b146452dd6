use vstd::prelude::*;

verus! {

/// Little-endian bytes of a 16-bit value.
pub open spec fn u16_le(v: u16) -> Seq<u8> {
    seq![(v % 256) as u8, (v / 256) as u8]
}

/// Little-endian bytes of a 32-bit value.
pub open spec fn u32_le(v: u32) -> Seq<u8> {
    seq![(v % 256) as u8, ((v / 256) % 256) as u8, ((v / 65536) % 256) as u8, (v / 16777216) as u8]
}

/// Little-endian bytes of a 64-bit value.
pub open spec fn u64_le(v: u64) -> Seq<u8> {
    u32_le((v % 4294967296) as u32) + u32_le((v / 4294967296) as u32)
}

/// The 16-bit value of two little-endian bytes.
pub open spec fn le_u16(b: Seq<u8>) -> u16 {
    (b[0] + 256 * b[1]) as u16
}

/// The 32-bit value of four little-endian bytes.
pub open spec fn le_u32(b: Seq<u8>) -> u32 {
    (b[0] + 256 * b[1] + 65536 * b[2] + 16777216 * b[3]) as u32
}

/// The 64-bit value of eight little-endian bytes.
pub open spec fn le_u64(b: Seq<u8>) -> u64 {
    (le_u32(b.subrange(0, 4)) + 4294967296 * le_u32(b.subrange(4, 8))) as u64
}

pub proof fn lemma_u16_roundtrip(v: u16)
    ensures
        le_u16(u16_le(v)) == v,
        u16_le(v).len() == 2,
{
    assert((v % 256) + 256 * (v / 256) == v) by (nonlinear_arith);
}

pub proof fn lemma_u32_roundtrip(v: u32)
    ensures
        le_u32(u32_le(v)) == v,
        u32_le(v).len() == 4,
{
    assert((v % 256) + 256 * ((v / 256) % 256) + 65536 * ((v / 65536) % 256) + 16777216 * (v / 16777216) == v) by (nonlinear_arith);
    assert(v / 16777216 < 256) by (nonlinear_arith);
}

pub proof fn lemma_u64_roundtrip(v: u64)
    ensures
        le_u64(u64_le(v)) == v,
        u64_le(v).len() == 8,
{
    let lo = (v % 4294967296) as u32;
    let hi = (v / 4294967296) as u32;
    assert(v / 4294967296 < 4294967296) by (nonlinear_arith);
    lemma_u32_roundtrip(lo);
    lemma_u32_roundtrip(hi);
    assert(u64_le(v).subrange(0, 4) =~= u32_le(lo));
    assert(u64_le(v).subrange(4, 8) =~= u32_le(hi));
    assert(lo + 4294967296 * hi == v) by (nonlinear_arith)
        requires lo == v % 4294967296, hi == v / 4294967296;
}

/// Appends the little-endian bytes of a 16-bit value.
pub fn put_u16(out: &mut Vec<u8>, v: u16)
    ensures
        final(out)@ == old(out)@ + u16_le(v),
{
    out.push((v % 256) as u8);
    out.push((v / 256) as u8);
    assert(final(out)@ =~= old(out)@ + u16_le(v));
}

/// Appends the little-endian bytes of a 32-bit value.
pub fn put_u32(out: &mut Vec<u8>, v: u32)
    ensures
        final(out)@ == old(out)@ + u32_le(v),
{
    out.push((v % 256) as u8);
    out.push(((v / 256) % 256) as u8);
    out.push(((v / 65536) % 256) as u8);
    out.push((v / 16777216) as u8);
    assert(final(out)@ =~= old(out)@ + u32_le(v));
}

/// Appends the little-endian bytes of a 64-bit value.
pub fn put_u64(out: &mut Vec<u8>, v: u64)
    ensures
        final(out)@ == old(out)@ + u64_le(v),
{
    put_u32(out, (v % 4294967296) as u32);
    put_u32(out, (v / 4294967296) as u32);
    assert(final(out)@ =~= old(out)@ + u64_le(v));
}

/// Appends bytes.
pub fn put_bytes(out: &mut Vec<u8>, b: &[u8])
    ensures
        final(out)@ == old(out)@ + b@,
{
    let mut i: usize = 0;
    while i < b.len()
        invariant
            i <= b@.len(),
            out@ == old(out)@ + b@.subrange(0, i as int),
        decreases b@.len() - i,
    {
        out.push(b[i]);
        assert(b@.subrange(0, i + 1) =~= b@.subrange(0, i as int).push(b@[i as int]));
        i = i + 1;
    }
    assert(b@.subrange(0, b@.len() as int) =~= b@);
}

/// Reads two little-endian bytes at `pos`.
pub fn get_u16(b: &[u8], pos: usize) -> (r: u16)
    requires
        pos + 2 <= b@.len(),
    ensures
        r == le_u16(b@.subrange(pos as int, pos + 2)),
{
    (b[pos] as u16) + 256 * (b[pos + 1] as u16)
}

/// Reads four little-endian bytes at `pos`.
pub fn get_u32(b: &[u8], pos: usize) -> (r: u32)
    requires
        pos + 4 <= b@.len(),
    ensures
        r == le_u32(b@.subrange(pos as int, pos + 4)),
{
    (b[pos] as u32) + 256 * (b[pos + 1] as u32) + 65536 * (b[pos + 2] as u32) + 16777216 * (b[pos + 3] as u32)
}

/// Reads eight little-endian bytes at `pos`.
pub fn get_u64(b: &[u8], pos: usize) -> (r: u64)
    requires
        pos + 8 <= b@.len(),
    ensures
        r == le_u64(b@.subrange(pos as int, pos + 8)),
{
    let _n = b.len();
    let lo = get_u32(b, pos);
    let hi = get_u32(b, pos + 4);
    assert(b@.subrange(pos as int, pos + 8).subrange(0, 4) =~= b@.subrange(pos as int, pos + 4));
    assert(b@.subrange(pos as int, pos + 8).subrange(4, 8) =~= b@.subrange(pos + 4, pos + 8));
    (lo as u64) + 4294967296 * (hi as u64)
}

/// The 16-bit value of two big-endian bytes.
pub open spec fn be_u16(b: Seq<u8>) -> u16 {
    (256 * b[0] + b[1]) as u16
}

/// The 32-bit value of four big-endian bytes.
pub open spec fn be_u32(b: Seq<u8>) -> u32 {
    (16777216 * b[0] + 65536 * b[1] + 256 * b[2] + b[3]) as u32
}

/// The 64-bit value of eight big-endian bytes.
pub open spec fn be_u64(b: Seq<u8>) -> u64 {
    (4294967296 * be_u32(b.subrange(0, 4)) + be_u32(b.subrange(4, 8))) as u64
}

/// Reads two big-endian bytes at `pos`.
pub fn get_be_u16(b: &[u8], pos: usize) -> (r: u16)
    requires
        pos + 2 <= b@.len(),
    ensures
        r == be_u16(b@.subrange(pos as int, pos + 2)),
{
    256 * (b[pos] as u16) + (b[pos + 1] as u16)
}

/// Reads four big-endian bytes at `pos`.
pub fn get_be_u32(b: &[u8], pos: usize) -> (r: u32)
    requires
        pos + 4 <= b@.len(),
    ensures
        r == be_u32(b@.subrange(pos as int, pos + 4)),
{
    16777216 * (b[pos] as u32) + 65536 * (b[pos + 1] as u32) + 256 * (b[pos + 2] as u32) + (b[pos + 3] as u32)
}

/// Reads eight big-endian bytes at `pos`.
pub fn get_be_u64(b: &[u8], pos: usize) -> (r: u64)
    requires
        pos + 8 <= b@.len(),
    ensures
        r == be_u64(b@.subrange(pos as int, pos + 8)),
{
    let _n = b.len();
    let hi = get_be_u32(b, pos);
    let lo = get_be_u32(b, pos + 4);
    assert(b@.subrange(pos as int, pos + 8).subrange(0, 4) =~= b@.subrange(pos as int, pos + 4));
    assert(b@.subrange(pos as int, pos + 8).subrange(4, 8) =~= b@.subrange(pos + 4, pos + 8));
    4294967296 * (hi as u64) + (lo as u64)
}

/// The number that bytes spell with the most significant byte first.
pub open spec fn be_nat(b: Seq<u8>) -> nat
    decreases b.len(),
{
    if b.len() == 0 { 0 } else { 256 * be_nat(b.drop_last()) + b.last() as nat }
}

/// The number that bytes spell with the least significant byte first.
pub open spec fn le_nat(b: Seq<u8>) -> nat
    decreases b.len(),
{
    if b.len() == 0 { 0 } else { b[0] as nat + 256 * le_nat(b.drop_first()) }
}

/// What bytes spell in the given order.
pub open spec fn bytes_nat(b: Seq<u8>, little: bool) -> nat {
    if little { le_nat(b) } else { be_nat(b) }
}

proof fn lemma_nat1(b: Seq<u8>)
    requires
        b.len() == 1,
    ensures
        be_nat(b) == b[0],
        le_nat(b) == b[0],
{
    assert(be_nat(b.drop_last()) == 0);
    assert(le_nat(b.drop_first()) == 0);
}

pub proof fn lemma_nat2(b: Seq<u8>)
    requires
        b.len() == 2,
    ensures
        be_nat(b) == 256 * b[0] + b[1],
        le_nat(b) == b[0] + 256 * b[1],
        be_nat(b) == be_u16(b),
        le_nat(b) == le_u16(b),
{
    lemma_nat1(b.drop_last());
    lemma_nat1(b.drop_first());
}

pub proof fn lemma_nat4(b: Seq<u8>)
    requires
        b.len() == 4,
    ensures
        be_nat(b) == 16777216 * b[0] + 65536 * b[1] + 256 * b[2] + b[3],
        le_nat(b) == b[0] + 256 * b[1] + 65536 * b[2] + 16777216 * b[3],
        be_nat(b) == be_u32(b),
        le_nat(b) == le_u32(b),
{
    let b3 = b.drop_last();
    let b2 = b3.drop_last();
    lemma_nat2(b2);
    assert(b2[0] == b[0] && b2[1] == b[1] && b3[2] == b[2]);
    assert(be_nat(b3) == 65536 * b[0] + 256 * b[1] + b[2]);
    let c1 = b.drop_first();
    let c2 = c1.drop_first();
    lemma_nat2(c2);
    assert(c1[0] == b[1] && c2[0] == b[2] && c2[1] == b[3]);
    assert(le_nat(c1) == b[1] + 256 * b[2] + 65536 * b[3]);
}

proof fn lemma_be_split(b: Seq<u8>, n: int)
    requires
        0 <= n <= b.len(),
    ensures
        be_nat(b) == be_nat(b.subrange(0, n)) * pow256((b.len() - n) as nat) + be_nat(b.subrange(n, b.len() as int)),
    decreases b.len() - n,
{
    if n == b.len() {
        assert(b.subrange(0, n) =~= b);
        assert(b.subrange(n, b.len() as int).len() == 0);
        assert(be_nat(b.subrange(n, b.len() as int)) == 0);
        assert(pow256(0) == 1);
        assert(be_nat(b.subrange(0, n)) * pow256(0) == be_nat(b)) by (nonlinear_arith)
            requires pow256(0) == 1, b.subrange(0, n) == b;
    } else {
        let c = b.drop_last();
        lemma_be_split(c, n);
        let x = be_nat(b.subrange(0, n));
        let p = pow256((b.len() - 1 - n) as nat);
        let tail = b.subrange(n, b.len() as int);
        let ctail = c.subrange(n, c.len() as int);
        assert(c.subrange(0, n) =~= b.subrange(0, n));
        assert(tail.drop_last() =~= ctail);
        assert(tail.last() == b.last());
        assert(be_nat(c) == x * p + be_nat(ctail));
        assert(be_nat(tail) == 256 * be_nat(ctail) + b.last());
        assert(be_nat(b) == 256 * be_nat(c) + b.last());
        assert(pow256((b.len() - n) as nat) == 256 * p);
        assert(256 * (x * p) == x * (256 * p)) by (nonlinear_arith);
        let q = pow256((b.len() - n) as nat);
        assert(x * q == 256 * (x * p)) by (nonlinear_arith)
            requires q == 256 * p;
    }
}

proof fn lemma_le_split(b: Seq<u8>, n: int)
    requires
        0 <= n <= b.len(),
    ensures
        le_nat(b) == le_nat(b.subrange(0, n)) + pow256(n as nat) * le_nat(b.subrange(n, b.len() as int)),
    decreases n,
{
    if n == 0 {
        assert(b.subrange(0, b.len() as int) =~= b);
        assert(b.subrange(0, 0).len() == 0);
        assert(le_nat(b.subrange(0, 0)) == 0);
        assert(pow256(0) == 1);
        let z = le_nat(b.subrange(0, b.len() as int));
        assert(1 * z == z);
    } else {
        let c = b.drop_first();
        lemma_le_split(c, n - 1);
        let head = b.subrange(0, n);
        let y = le_nat(b.subrange(n, b.len() as int));
        let p = pow256((n - 1) as nat);
        assert(c.subrange(0, n - 1) =~= head.drop_first());
        assert(c.subrange(n - 1, c.len() as int) =~= b.subrange(n, b.len() as int));
        assert(head[0] == b[0]);
        assert(le_nat(c) == le_nat(head.drop_first()) + p * y);
        assert(le_nat(head) == b[0] + 256 * le_nat(head.drop_first()));
        assert(le_nat(b) == b[0] + 256 * le_nat(c));
        assert(pow256(n as nat) == 256 * p);
        let q = pow256(n as nat);
        assert(q * y == 256 * (p * y)) by (nonlinear_arith)
            requires q == 256 * p;
    }
}

/// 256 to the power `n`.
pub open spec fn pow256(n: nat) -> nat
    decreases n,
{
    if n == 0 { 1 } else { 256 * pow256((n - 1) as nat) }
}

pub proof fn lemma_nat8(b: Seq<u8>)
    requires
        b.len() == 8,
    ensures
        be_nat(b) == be_u64(b),
        le_nat(b) == le_u64(b),
        be_nat(b) < 18446744073709551616,
        le_nat(b) < 18446744073709551616,
{
    lemma_be_split(b, 4);
    lemma_le_split(b, 4);
    lemma_nat4(b.subrange(0, 4));
    lemma_nat4(b.subrange(4, 8));
    reveal_with_fuel(pow256, 5);
    let q = pow256(4);
    assert(q == 4294967296);
    let hi = be_nat(b.subrange(0, 4));
    let lo = le_nat(b.subrange(4, 8));
    assert(hi * q == 4294967296 * hi) by (nonlinear_arith) requires q == 4294967296;
    let q2 = pow256((4 as int) as nat);
    assert(q2 == 4294967296);
    assert(q2 * lo == 4294967296 * lo) by (nonlinear_arith) requires q2 == 4294967296;
    let l0 = le_nat(b.subrange(0, 4));
    assert(le_nat(b) == l0 + q2 * lo);
    assert(le_nat(b) == l0 + 4294967296 * lo);
    assert(l0 == le_u32(b.subrange(0, 4)));
    assert(lo == le_u32(b.subrange(4, 8)));
    assert(l0 < 4294967296 && lo < 4294967296);
    assert(4294967296 * lo <= 4294967296 * 4294967295) by (nonlinear_arith) requires lo < 4294967296;
    assert(le_nat(b) < 18446744073709551616);
    assert(le_nat(b) == le_u64(b));
}

} // verus!
