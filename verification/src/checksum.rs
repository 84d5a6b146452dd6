use vstd::prelude::*;

verus! {

/// One bit of the reflected CRC-32 register shifted out, with the reflected
/// polynomial 0xEDB88320 folded in where the bit was set.
pub open spec fn crc_shift(c: u32) -> u32 {
    if c & 1 == 1 { (c >> 1u32) ^ 0xEDB8_8320u32 } else { c >> 1u32 }
}

/// The register after `n` bit steps.
pub open spec fn crc_shifts(c: u32, n: nat) -> u32
    decreases n,
{
    if n == 0 { c } else { crc_shift(crc_shifts(c, (n - 1) as nat)) }
}

/// The CRC-32 register after the bytes of `data`, from all ones.
pub open spec fn crc_register(data: Seq<u8>) -> u32
    decreases data.len(),
{
    if data.len() == 0 {
        0xFFFF_FFFFu32
    } else {
        crc_shifts(crc_register(data.drop_last()) ^ (data.last() as u32), 8)
    }
}

/// The CRC-32 (ISO-HDLC) value of `data`: reflected input and output,
/// polynomial 0x04C11DB7, initial value and final xor all ones.
pub open spec fn crc32_of(data: Seq<u8>) -> u32 {
    crc_register(data) ^ 0xFFFF_FFFFu32
}

/// The two Adler-32 sums after the bytes of `data`: one plus the bytes, and
/// the sum of those running sums, both modulo 65521.
pub open spec fn adler_sums(data: Seq<u8>) -> (nat, nat)
    decreases data.len(),
{
    if data.len() == 0 {
        (1, 0)
    } else {
        let (a, b) = adler_sums(data.drop_last());
        let a2 = (a + data.last() as nat) % 65521;
        (a2, (b + a2) % 65521)
    }
}

/// The Adler-32 value of `data`: the second sum above the first.
pub open spec fn adler32_of(data: Seq<u8>) -> u32 {
    (adler_sums(data).1 * 65536 + adler_sums(data).0) as u32
}

/// Sum of all bytes, as an unbounded integer.
pub open spec fn byte_sum(data: Seq<u8>) -> nat
    decreases data.len(),
{
    if data.len() == 0 {
        0
    } else {
        byte_sum(data.drop_last()) + data.last() as nat
    }
}

/// Calls `crc::Crc::<u32>::checksum` with the CRC_32_ISO_HDLC algorithm.
/// The contract states the CRC-32/ISO-HDLC algorithm of that catalogue entry.
#[verifier::external_body]
pub fn crc32(data: &[u8]) -> (r: u32)
    ensures
        r == crc32_of(data@),
{
    let engine = crc::Crc::<u32>::new(&crc::CRC_32_ISO_HDLC);
    let mut digest = engine.digest();
    digest.update(data);
    digest.finalize()
}

/// Calls `adler::adler32_slice`; the contract states the Adler-32 algorithm.
#[verifier::external_body]
pub fn adler32(data: &[u8]) -> (r: u32)
    ensures
        r == adler32_of(data@),
{
    adler::adler32_slice(data)
}

/// The wrapping-free byte sum; the sum must fit in a `u32`.
pub fn simple_sum(data: &[u8]) -> (r: u32)
    requires
        byte_sum(data@) <= u32::MAX,
    ensures
        r == byte_sum(data@),
{
    let mut acc: u32 = 0;
    let mut i: usize = 0;
    while i < data.len()
        invariant
            i <= data@.len(),
            acc == byte_sum(data@.subrange(0, i as int)),
            byte_sum(data@) <= u32::MAX,
        decreases data@.len() - i,
    {
        proof {
            lemma_byte_sum_prefix_mono(data@, (i + 1) as int);
            assert(data@.subrange(0, (i + 1) as int).drop_last() =~= data@.subrange(0, i as int));
        }
        acc = acc + data[i] as u32;
        i = i + 1;
    }
    assert(data@.subrange(0, data@.len() as int) =~= data@);
    acc
}

proof fn lemma_byte_sum_prefix_mono(s: Seq<u8>, k: int)
    requires
        0 <= k <= s.len(),
    ensures
        byte_sum(s.subrange(0, k)) <= byte_sum(s),
    decreases s.len() - k,
{
    if k < s.len() {
        lemma_byte_sum_prefix_mono(s, k + 1);
        assert(s.subrange(0, k + 1).drop_last() =~= s.subrange(0, k));
    } else {
        assert(s.subrange(0, k) =~= s);
    }
}

} // verus!
