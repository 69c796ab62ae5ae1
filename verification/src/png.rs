//! A PNG writer that needs no compressor.
//!
//! A PNG's pixel data is a zlib stream, and zlib permits **stored** blocks
//! ("here are N literal bytes"): a complete, standard encoding that every
//! reader accepts and that needs no Huffman coding and no match finder. The
//! files are ordinary PNGs, only larger than they could be.
use vstd::prelude::*;

verus! {

/// The CRC-32 polynomial, bit-reversed, as PNG and zlib use it.
pub const CRC_POLY: u32 = 0xEDB8_8320;

/// One bit of the CRC register's update: shift right, and fold the
/// polynomial back in if a one fell off the end.
pub open spec fn crc_shift(crc: u32) -> u32 {
    if crc & 1 != 0 {
        (crc >> 1) ^ CRC_POLY
    } else {
        crc >> 1
    }
}

/// `n` shifts of the CRC register.
pub open spec fn crc_shifts(crc: u32, n: nat) -> u32
    decreases n,
{
    if n == 0 {
        crc
    } else {
        crc_shift(crc_shifts(crc, (n - 1) as nat))
    }
}

/// The CRC register after one more byte.
pub open spec fn crc_byte(crc: u32, byte: u8) -> u32 {
    crc_shifts(crc ^ (byte as u32), 8)
}

/// The CRC register after `bytes`, starting from `seed`.
pub open spec fn crc_spec(seed: u32, bytes: Seq<u8>) -> u32
    decreases bytes.len(),
{
    if bytes.len() == 0 {
        seed
    } else {
        crc_byte(crc_spec(seed, bytes.drop_last()), bytes.last())
    }
}

/// CRC-32 as PNG specifies it, computed a byte at a time from `seed`.
///
/// Feed `0xFFFF_FFFF` as the seed and complement the result for the checksum
/// itself; the register in between can be carried from one call to the next.
pub fn crc32(seed: u32, bytes: &[u8]) -> (crc: u32)
    ensures
        crc == crc_spec(seed, bytes@),
{
    let mut crc = seed;
    let mut i: usize = 0;
    while i < bytes.len()
        invariant
            i <= bytes.len(),
            crc == crc_spec(seed, bytes@.take(i as int)),
        decreases bytes.len() - i,
    {
        let byte = bytes[i];
        let ghost start = crc ^ (byte as u32);
        crc = crc ^ (byte as u32);
        let mut k: usize = 0;
        while k < 8
            invariant
                k <= 8,
                crc == crc_shifts(start, k as nat),
            decreases 8 - k,
        {
            let carry = crc & 1;
            crc = crc >> 1;
            if carry != 0 {
                crc = crc ^ CRC_POLY;
            }
            k = k + 1;
        }
        proof {
            let prefix = bytes@.take(i as int + 1);
            assert(prefix.drop_last() =~= bytes@.take(i as int));
            assert(prefix.last() == byte);
        }
        i = i + 1;
    }
    proof {
        assert(bytes@.take(i as int) =~= bytes@);
    }
    crc
}

/// The CRC register can be carried across a split: checksumming `a` and then
/// `b` from where `a` left off is checksumming `a + b`.
pub proof fn lemma_crc_incremental(seed: u32, a: Seq<u8>, b: Seq<u8>)
    ensures
        crc_spec(crc_spec(seed, a), b) == crc_spec(seed, a + b),
    decreases b.len(),
{
    if b.len() == 0 {
        assert(a + b =~= a);
    } else {
        lemma_crc_incremental(seed, a, b.drop_last());
        assert((a + b).drop_last() =~= a + b.drop_last());
        assert((a + b).last() == b.last());
    }
}

/// The modulus of both Adler-32 sums: the largest prime below 2^16.
pub const ADLER_MOD: u32 = 65521;

/// The sum of `bytes`.
pub open spec fn byte_sum(bytes: Seq<u8>) -> nat
    decreases bytes.len(),
{
    if bytes.len() == 0 {
        0
    } else {
        byte_sum(bytes.drop_last()) + bytes.last() as nat
    }
}

/// The sum, over every prefix of `bytes` (the empty one excluded), of one
/// plus that prefix's byte sum.
pub open spec fn prefix_sums(bytes: Seq<u8>) -> nat
    decreases bytes.len(),
{
    if bytes.len() == 0 {
        0
    } else {
        prefix_sums(bytes.drop_last()) + 1 + byte_sum(bytes)
    }
}

/// Adler-32's low half: one plus the sum of the bytes, modulo 65521.
pub open spec fn adler_low(bytes: Seq<u8>) -> nat {
    (1 + byte_sum(bytes)) % (ADLER_MOD as nat)
}

/// Adler-32's high half: the sum of every value the low half took along the
/// way, modulo 65521.
pub open spec fn adler_high(bytes: Seq<u8>) -> nat {
    prefix_sums(bytes) % (ADLER_MOD as nat)
}

/// Adler-32 of `bytes`: the high half in the upper 16 bits, the low half in
/// the lower.
pub open spec fn adler_spec(bytes: Seq<u8>) -> u32 {
    (adler_high(bytes) * 0x10000 + adler_low(bytes)) as u32
}

/// Adler-32, the checksum a zlib stream ends with.
pub fn adler32(bytes: &[u8]) -> (sum: u32)
    ensures
        sum == adler_spec(bytes@),
        sum as nat == adler_high(bytes@) * 0x10000 + adler_low(bytes@),
{
    let mut a: u32 = 1;
    let mut b: u32 = 0;
    let mut i: usize = 0;
    while i < bytes.len()
        invariant
            i <= bytes.len(),
            a == adler_low(bytes@.take(i as int)),
            b == adler_high(bytes@.take(i as int)),
        decreases bytes.len() - i,
    {
        let byte = bytes[i];
        let ghost prev = bytes@.take(i as int);
        let ghost next = bytes@.take(i as int + 1);
        proof {
            assert(next.drop_last() =~= prev);
            assert(next.last() == byte);
            vstd::arithmetic::div_mod::lemma_add_mod_noop_right(
                byte as int,
                1 + byte_sum(prev) as int,
                ADLER_MOD as int,
            );
            vstd::arithmetic::div_mod::lemma_add_mod_noop_right(
                b as int,
                1 + byte_sum(next) as int,
                ADLER_MOD as int,
            );
            vstd::arithmetic::div_mod::lemma_add_mod_noop_right(
                1 + byte_sum(next) as int,
                prefix_sums(prev) as int,
                ADLER_MOD as int,
            );
        }
        a = (a + byte as u32) % ADLER_MOD;
        b = (b + a) % ADLER_MOD;
        i = i + 1;
    }
    proof {
        assert(bytes@.take(i as int) =~= bytes@);
        assert((b << 16) | a == b * 0x10000 + a) by (bit_vector)
            requires
                a < 65521,
                b < 65521,
        ;
    }
    (b << 16) | a
}

/// Adler-32 of the ASCII text `Wikipedia` is `0x11E60398`: a low sum of 920
/// (one plus the bytes) and a high sum of 4582 (the low sum after each byte,
/// added up).
pub proof fn lemma_adler_check_value()
    ensures
        adler_spec(seq![0x57u8, 0x69, 0x6B, 0x69, 0x70, 0x65, 0x64, 0x69, 0x61]) == 0x11E6_0398u32,
{
    let w = seq![0x57u8, 0x69, 0x6B, 0x69, 0x70, 0x65, 0x64, 0x69, 0x61];
    reveal_with_fuel(byte_sum, 10);
    reveal_with_fuel(prefix_sums, 10);
    assert(w.drop_last() =~= w.take(8));
    assert(w.take(8).drop_last() =~= w.take(7));
    assert(w.take(7).drop_last() =~= w.take(6));
    assert(w.take(6).drop_last() =~= w.take(5));
    assert(w.take(5).drop_last() =~= w.take(4));
    assert(w.take(4).drop_last() =~= w.take(3));
    assert(w.take(3).drop_last() =~= w.take(2));
    assert(w.take(2).drop_last() =~= w.take(1));
    assert(w.take(1).drop_last() =~= w.take(0));
    assert(byte_sum(w) == 919);
    assert(prefix_sums(w) == 4582);
    assert(adler_low(w) == 920);
    assert(adler_high(w) == 4582);
}

/// Both halves of Adler-32 stay below the modulus, so each fits its 16 bits.
pub proof fn lemma_adler_halves_in_range(bytes: Seq<u8>)
    ensures
        adler_low(bytes) < ADLER_MOD,
        adler_high(bytes) < ADLER_MOD,
        adler_spec(bytes) as nat == adler_high(bytes) * 0x10000 + adler_low(bytes),
{
}

/// `x` as four big-endian bytes.
pub open spec fn be32(x: u32) -> Seq<u8> {
    seq![(x >> 24) as u8, (x >> 16) as u8, (x >> 8) as u8, x as u8]
}

/// `x` as two little-endian bytes.
pub open spec fn le16(x: u16) -> Seq<u8> {
    seq![x as u8, (x >> 8) as u8]
}

/// Append `x` to `out` as four big-endian bytes.
pub fn push_be32(out: &mut Vec<u8>, x: u32)
    ensures
        final(out)@ == old(out)@ + be32(x),
{
    out.push((x >> 24) as u8);
    out.push((x >> 16) as u8);
    out.push((x >> 8) as u8);
    out.push(x as u8);
    assert(final(out)@ =~= old(out)@ + be32(x));
}

/// Append `bytes[start..end]` to `out`.
pub fn push_range(out: &mut Vec<u8>, bytes: &[u8], start: usize, end: usize)
    requires
        start <= end <= bytes.len(),
    ensures
        final(out)@ == old(out)@ + bytes@.subrange(start as int, end as int),
{
    let ghost before = out@;
    let mut i = start;
    while i < end
        invariant
            start <= i <= end <= bytes.len(),
            out@ == before + bytes@.subrange(start as int, i as int),
        decreases end - i,
    {
        out.push(bytes[i]);
        assert(bytes@.subrange(start as int, i + 1) =~= bytes@.subrange(start as int, i as int).push(
            bytes@[i as int],
        ));
        i = i + 1;
    }
}

/// The most bytes one stored block can carry: its length field is 16 bits.
pub const MAX_STORED_BLOCK: usize = 0xFFFF;

/// One stored deflate block: the final-block flag (with block type 0), the
/// length, its one's complement, then the bytes themselves.
pub open spec fn stored_block(data: Seq<u8>, last: bool) -> Seq<u8> {
    seq![if last { 1u8 } else { 0u8 }] + le16(data.len() as u16) + le16(!(data.len() as u16)) + data
}

/// `data` cut into stored blocks of at most [`MAX_STORED_BLOCK`] bytes, the
/// last one flagged final. Empty data is still one (empty, final) block.
pub open spec fn stored_blocks(data: Seq<u8>) -> Seq<u8>
    decreases data.len(),
{
    if data.len() <= MAX_STORED_BLOCK {
        stored_block(data, true)
    } else {
        stored_block(data.take(MAX_STORED_BLOCK as int), false) + stored_blocks(
            data.skip(MAX_STORED_BLOCK as int),
        )
    }
}

/// A zlib stream of stored blocks: the header for deflate with a 32 KiB
/// window and no compression, the blocks, and the Adler-32 of the data.
pub open spec fn zlib_stored_spec(data: Seq<u8>) -> Seq<u8> {
    seq![0x78u8, 0x01u8] + stored_blocks(data) + be32(adler_spec(data))
}

/// Append one stored block carrying `data[start..end]`.
fn push_stored_block(out: &mut Vec<u8>, data: &[u8], start: usize, end: usize, last: bool)
    requires
        start <= end <= data.len(),
        end - start <= MAX_STORED_BLOCK,
    ensures
        final(out)@ == old(out)@ + stored_block(
            data@.subrange(start as int, end as int),
            last,
        ),
{
    let len = (end - start) as u16;
    let not_len = !len;
    out.push(if last { 1u8 } else { 0u8 });
    out.push(len as u8);
    out.push((len >> 8) as u8);
    out.push(not_len as u8);
    out.push((not_len >> 8) as u8);
    let ghost header = out@;
    push_range(out, data, start, end);
    proof {
        let block = data@.subrange(start as int, end as int);
        assert(block.len() as u16 == len);
        assert(header =~= old(out)@ + (seq![if last { 1u8 } else { 0u8 }] + le16(len) + le16(
            not_len,
        )));
        assert(final(out)@ =~= old(out)@ + stored_block(block, last));
    }
}

/// Wrap `data` in a zlib stream made entirely of stored deflate blocks.
pub fn zlib_stored(data: &[u8]) -> (out: Vec<u8>)
    ensures
        out@ == zlib_stored_spec(data@),
{
    let mut out: Vec<u8> = Vec::new();
    out.push(0x78);
    out.push(0x01);
    let ghost header = out@;
    if data.len() == 0 {
        push_stored_block(&mut out, data, 0, 0, true);
        proof {
            assert(data@.subrange(0, 0) =~= data@);
        }
    } else {
        let mut start: usize = 0;
        assert(data@.skip(0) =~= data@);
        while start < data.len()
            invariant
                start <= data.len(),
                data.len() > 0,
                header == seq![0x78u8, 0x01u8],
                start < data.len() ==> header + stored_blocks(data@) == out@ + stored_blocks(
                    data@.skip(start as int),
                ),
                start == data.len() ==> out@ == header + stored_blocks(data@),
            decreases data.len() - start,
        {
            let ghost before = out@;
            let ghost rest = data@.skip(start as int);
            if data.len() - start <= MAX_STORED_BLOCK {
                push_stored_block(&mut out, data, start, data.len(), true);
                proof {
                    assert(data@.subrange(start as int, data.len() as int) =~= rest);
                }
                start = data.len();
            } else {
                let end = start + MAX_STORED_BLOCK;
                push_stored_block(&mut out, data, start, end, false);
                proof {
                    assert(data@.subrange(start as int, end as int) =~= rest.take(
                        MAX_STORED_BLOCK as int,
                    ));
                    assert(rest.skip(MAX_STORED_BLOCK as int) =~= data@.skip(end as int));
                    let block = stored_block(rest.take(MAX_STORED_BLOCK as int), false);
                    assert(before + stored_blocks(rest) =~= (before + block) + stored_blocks(
                        data@.skip(end as int),
                    ));
                }
                start = end;
            }
        }
    }
    let sum = adler32(data);
    push_be32(&mut out, sum);
    out
}

/// The data a run of stored deflate blocks carries, read the way an inflater
/// reads it; `None` where the bytes are not such a run ending in a final block.
pub open spec fn read_stored(bytes: Seq<u8>) -> Option<Seq<u8>>
    decreases bytes.len(),
{
    if bytes.len() < 5 {
        None
    } else {
        let len = bytes[1] as nat + 256 * (bytes[2] as nat);
        let nlen = bytes[3] as nat + 256 * (bytes[4] as nat);
        if len + nlen != 0xFFFF || bytes.len() < 5 + len {
            None
        } else if bytes[0] == 1 {
            if bytes.len() == 5 + len {
                Some(bytes.subrange(5, 5 + len as int))
            } else {
                None
            }
        } else if bytes[0] == 0 {
            match read_stored(bytes.skip(5 + len as int)) {
                Some(rest) => Some(bytes.subrange(5, 5 + len as int) + rest),
                None => None,
            }
        } else {
            None
        }
    }
}

/// A 16-bit length and its complement, read back from their bytes.
proof fn lemma_le16(x: u16)
    ensures
        (x as u8) as int + 256 * ((x >> 8) as u8) as int == x as int,
        (!x) as int == 0xFFFF - x as int,
        ((!x) as u8) as int + 256 * (((!x) >> 8) as u8) as int == (!x) as int,
{
    assert((x as u8) as int + 256 * ((x >> 8) as u8) as int == x as int) by (bit_vector);
    assert((!x) as int == 0xFFFF - x as int) by (bit_vector);
    assert(((!x) as u8) as int + 256 * (((!x) >> 8) as u8) as int == (!x) as int) by (bit_vector);
}

/// The header of one stored block reads back as its length and complement.
proof fn lemma_stored_block_header(data: Seq<u8>, last: bool)
    requires
        data.len() <= MAX_STORED_BLOCK,
    ensures
        stored_block(data, last).len() == 5 + data.len(),
        stored_block(data, last)[0] == (if last { 1u8 } else { 0u8 }),
        stored_block(data, last)[1] as nat + 256 * (stored_block(data, last)[2] as nat)
            == data.len(),
        stored_block(data, last)[3] as nat + 256 * (stored_block(data, last)[4] as nat) + data.len()
            == 0xFFFF,
        stored_block(data, last).subrange(5, 5 + data.len() as int) == data,
{
    let len = data.len() as u16;
    lemma_le16(len);
    assert(stored_block(data, last).subrange(5, 5 + data.len() as int) =~= data);
}

/// Stored blocks read back as exactly the data they were made from.
pub proof fn lemma_stored_blocks_read_back(data: Seq<u8>)
    ensures
        read_stored(stored_blocks(data)) == Some(data),
    decreases data.len(),
{
    if data.len() <= MAX_STORED_BLOCK {
        lemma_stored_block_header(data, true);
    } else {
        let head = data.take(MAX_STORED_BLOCK as int);
        let tail = data.skip(MAX_STORED_BLOCK as int);
        let block = stored_block(head, false);
        let bytes = stored_blocks(data);
        lemma_stored_block_header(head, false);
        lemma_stored_blocks_read_back(tail);
        assert(bytes == block + stored_blocks(tail));
        assert(bytes[0] == block[0]);
        assert(bytes[1] == block[1]);
        assert(bytes[2] == block[2]);
        assert(bytes[3] == block[3]);
        assert(bytes[4] == block[4]);
        assert(bytes.skip(5 + MAX_STORED_BLOCK as int) =~= stored_blocks(tail));
        assert(bytes.subrange(5, 5 + MAX_STORED_BLOCK as int) =~= block.subrange(
            5,
            5 + MAX_STORED_BLOCK as int,
        ));
        assert(head + tail =~= data);
    }
}

/// The stream `zlib_stored` makes is well formed: a valid zlib header (its
/// check bits make the first two bytes a multiple of 31), stored blocks that
/// read back as the data, and the data's Adler-32 at the end.
pub proof fn lemma_zlib_stored_reads_back(data: Seq<u8>)
    ensures
        zlib_stored_spec(data).len() >= 11,
        zlib_stored_spec(data)[0] == 0x78,
        zlib_stored_spec(data)[1] == 0x01,
        (zlib_stored_spec(data)[0] as nat * 256 + zlib_stored_spec(data)[1] as nat) % 31 == 0,
        read_stored(zlib_stored_spec(data).subrange(2, zlib_stored_spec(data).len() - 4))
            == Some(data),
        zlib_stored_spec(data).subrange(
            zlib_stored_spec(data).len() - 4,
            zlib_stored_spec(data).len() as int,
        ) == be32(adler_spec(data)),
{
    let z = zlib_stored_spec(data);
    let blocks = stored_blocks(data);
    lemma_stored_blocks_read_back(data);
    lemma_stored_blocks_len(data);
    assert(z.subrange(2, z.len() - 4) =~= blocks);
    assert(z.subrange(z.len() - 4, z.len() as int) =~= be32(adler_spec(data)));
}

/// Stored blocks are at least one block header long.
proof fn lemma_stored_blocks_len(data: Seq<u8>)
    ensures
        stored_blocks(data).len() >= 5,
    decreases data.len(),
{
    if data.len() > MAX_STORED_BLOCK {
        lemma_stored_blocks_len(data.skip(MAX_STORED_BLOCK as int));
    }
}

/// One PNG chunk: the body's length, big-endian, the four-byte type, the
/// body, and the CRC-32 of type and body.
pub open spec fn chunk_spec(kind: Seq<u8>, body: Seq<u8>) -> Seq<u8> {
    be32(body.len() as u32) + kind + body + be32(!crc_spec(0xFFFF_FFFF, kind + body))
}

/// Eight shifts of the CRC register, written out.
pub open spec fn shift8(x: u32) -> u32 {
    crc_shift(crc_shift(crc_shift(crc_shift(crc_shift(crc_shift(crc_shift(crc_shift(x))))))))
}

/// The catalogued check value of CRC-32: the checksum of the ASCII digits
/// `123456789` is `0xCBF43926`. It pins the polynomial, the bit order and the
/// complements all at once.
pub proof fn lemma_crc_check_value()
    ensures
        !crc_spec(0xFFFF_FFFF, seq![0x31u8, 0x32, 0x33, 0x34, 0x35, 0x36, 0x37, 0x38, 0x39]) == 0xCBF4_3926u32,
{
    assert forall|x: u32| #[trigger] crc_shifts(x, 8) == shift8(x) by {
        reveal_with_fuel(crc_shifts, 9);
    }
    assert(shift8(0xFFFFFFFFu32 ^ (0x31u8 as u32)) == 0x7C231048u32) by (bit_vector);
    assert(shift8(0x7C231048u32 ^ (0x32u8 as u32)) == 0xB0ACBB32u32) by (bit_vector);
    assert(shift8(0xB0ACBB32u32 ^ (0x33u8 as u32)) == 0x77B79C2Du32) by (bit_vector);
    assert(shift8(0x77B79C2Du32 ^ (0x34u8 as u32)) == 0x641C1F5Cu32) by (bit_vector);
    assert(shift8(0x641C1F5Cu32 ^ (0x35u8 as u32)) == 0x340AC5E3u32) by (bit_vector);
    assert(shift8(0x340AC5E3u32 ^ (0x36u8 as u32)) == 0xF68D2C9Eu32) by (bit_vector);
    assert(shift8(0xF68D2C9Eu32 ^ (0x37u8 as u32)) == 0xAFFC9660u32) by (bit_vector);
    assert(shift8(0xAFFC9660u32 ^ (0x38u8 as u32)) == 0x651F2550u32) by (bit_vector);
    assert(shift8(0x651F2550u32 ^ (0x39u8 as u32)) == 0x340BC6D9u32) by (bit_vector);
    let digits = seq![0x31u8, 0x32, 0x33, 0x34, 0x35, 0x36, 0x37, 0x38, 0x39];
    reveal_with_fuel(crc_spec, 10);
    assert(digits.take(1).drop_last() =~= digits.take(0));
    assert(digits.take(2).drop_last() =~= digits.take(1));
    assert(digits.take(3).drop_last() =~= digits.take(2));
    assert(digits.take(4).drop_last() =~= digits.take(3));
    assert(digits.take(5).drop_last() =~= digits.take(4));
    assert(digits.take(6).drop_last() =~= digits.take(5));
    assert(digits.take(7).drop_last() =~= digits.take(6));
    assert(digits.take(8).drop_last() =~= digits.take(7));
    assert(digits.drop_last() =~= digits.take(8));
    assert(crc_spec(0xFFFF_FFFF, digits.take(1)) == 0x7C231048u32);
    assert(crc_spec(0xFFFF_FFFF, digits.take(2)) == 0xB0ACBB32u32);
    assert(crc_spec(0xFFFF_FFFF, digits.take(3)) == 0x77B79C2Du32);
    assert(crc_spec(0xFFFF_FFFF, digits.take(4)) == 0x641C1F5Cu32);
    assert(crc_spec(0xFFFF_FFFF, digits.take(5)) == 0x340AC5E3u32);
    assert(crc_spec(0xFFFF_FFFF, digits.take(6)) == 0xF68D2C9Eu32);
    assert(crc_spec(0xFFFF_FFFF, digits.take(7)) == 0xAFFC9660u32);
    assert(crc_spec(0xFFFF_FFFF, digits.take(8)) == 0x651F2550u32);
    assert(crc_spec(0xFFFF_FFFF, digits) == 0x340BC6D9u32);
    assert(!0x340BC6D9u32 == 0xCBF4_3926u32) by (bit_vector);
}

/// Four bytes read as a big-endian number.
pub open spec fn be32_value(b: Seq<u8>) -> int {
    b[0] as int * 0x100_0000 + b[1] as int * 0x1_0000 + b[2] as int * 0x100 + b[3] as int
}

/// Writing a number big-endian and reading it back gives the number.
pub proof fn lemma_be32_reads_back(x: u32)
    ensures
        be32(x).len() == 4,
        be32_value(be32(x)) == x,
{
    let b0 = (x >> 24) as u8;
    let b1 = (x >> 16) as u8;
    let b2 = (x >> 8) as u8;
    let b3 = x as u8;
    assert(b0 as int * 0x100_0000 + b1 as int * 0x1_0000 + b2 as int * 0x100 + b3 as int == x as int) by (bit_vector)
        requires
            b0 == (x >> 24) as u8,
            b1 == (x >> 16) as u8,
            b2 == (x >> 8) as u8,
            b3 == x as u8,
    ;
}

/// What a PNG reader checks of a chunk `c`: its first four bytes give the
/// body's length, the chunk is exactly that body plus twelve bytes, and its
/// last four bytes are the complemented CRC-32 of everything between the
/// length and themselves, the type and the body.
pub open spec fn chunk_checks(c: Seq<u8>) -> bool {
    &&& c.len() >= 12
    &&& c.len() == be32_value(c.subrange(0, 4)) + 12
    &&& be32_value(c.subrange(c.len() as int - 4, c.len() as int)) == !crc_spec(0xFFFF_FFFF, c.subrange(4, c.len() as int - 4))
}

/// A chunk passes a reader's check, and reads back as its type and body: the
/// stored CRC covers the type and every byte of the body.
pub proof fn lemma_chunk_checks(kind: Seq<u8>, body: Seq<u8>)
    requires
        kind.len() == 4,
        body.len() <= u32::MAX,
    ensures
        chunk_checks(chunk_spec(kind, body)),
        chunk_spec(kind, body).subrange(4, 8) == kind,
        chunk_spec(kind, body).subrange(8, 8 + body.len() as int) == body,
{
    let c = chunk_spec(kind, body);
    let n = body.len();
    let crc = !crc_spec(0xFFFF_FFFF, kind + body);
    lemma_be32_reads_back(n as u32);
    lemma_be32_reads_back(crc);
    assert(c.subrange(0, 4) =~= be32(n as u32));
    assert(c.subrange(c.len() as int - 4, c.len() as int) =~= be32(crc));
    assert(c.subrange(4, c.len() as int - 4) =~= kind + body);
    assert(c.subrange(4, 8) =~= kind);
    assert(c.subrange(8, 8 + n as int) =~= body);
}

/// Append a length-tagged, CRC-checked PNG chunk.
pub fn chunk(out: &mut Vec<u8>, kind: &[u8; 4], body: &[u8])
    ensures
        final(out)@ == old(out)@ + chunk_spec(kind@, body@),
{
    push_be32(out, body.len() as u32);
    let kind_bytes = kind.as_slice();
    push_range(out, kind_bytes, 0, 4);
    push_range(out, body, 0, body.len());
    let mut crc = crc32(0xFFFF_FFFF, kind_bytes);
    crc = crc32(crc, body);
    push_be32(out, !crc);
    proof {
        lemma_crc_incremental(0xFFFF_FFFF, kind@, body@);
        assert(kind_bytes@.subrange(0, 4) =~= kind@);
        assert(body@.subrange(0, body@.len() as int) =~= body@);
        assert(final(out)@ =~= old(out)@ + chunk_spec(kind@, body@));
    }
}

/// The eight bytes every PNG file starts with.
pub open spec fn png_signature() -> Seq<u8> {
    seq![0x89u8, 0x50u8, 0x4Eu8, 0x47u8, 0x0Du8, 0x0Au8, 0x1Au8, 0x0Au8]
}

/// The first `rows` rows of `pixels`, `stride` bytes each, every one preceded
/// by filter type 0 ("none").
pub open spec fn scanlines(pixels: Seq<u8>, stride: nat, rows: nat) -> Seq<u8>
    decreases rows,
{
    if rows == 0 {
        Seq::empty()
    } else {
        scanlines(pixels, stride, (rows - 1) as nat) + seq![0u8] + pixels.subrange(
            (rows - 1) * stride,
            (rows * stride) as int,
        )
    }
}

/// The header chunk's body: width, height, 8 bits a channel, colour type 2
/// (truecolour), deflate, no filtering choice, no interlace.
pub open spec fn ihdr_body(w: u32, h: u32) -> Seq<u8> {
    be32(w) + be32(h) + seq![8u8, 2u8, 0u8, 0u8, 0u8]
}

/// A complete PNG of `w` by `h` RGB pixels.
pub open spec fn png_spec(w: u32, h: u32, pixels: Seq<u8>) -> Seq<u8> {
    png_signature() + chunk_spec(seq![0x49u8, 0x48u8, 0x44u8, 0x52u8], ihdr_body(w, h))
        + chunk_spec(
        seq![0x49u8, 0x44u8, 0x41u8, 0x54u8],
        zlib_stored_spec(scanlines(pixels, w as nat * 3, h as nat)),
    ) + chunk_spec(seq![0x49u8, 0x45u8, 0x4Eu8, 0x44u8], Seq::empty())
}

/// Each row, prefixed by filter type 0.
fn raw_scanlines(pixels: &[u8], stride: usize, rows: usize) -> (raw: Vec<u8>)
    requires
        pixels.len() == stride * rows,
    ensures
        raw@ == scanlines(pixels@, stride as nat, rows as nat),
{
    let mut raw: Vec<u8> = Vec::new();
    let mut row: usize = 0;
    while row < rows
        invariant
            row <= rows,
            pixels.len() == stride * rows,
            raw@ == scanlines(pixels@, stride as nat, row as nat),
        decreases rows - row,
    {
        proof {
            assert((row + 1) * stride <= stride * rows) by (nonlinear_arith)
                requires
                    row + 1 <= rows,
            ;
            assert((row + 1) * stride == row * stride + stride) by (nonlinear_arith);
            assert(0 <= row * stride) by (nonlinear_arith);
        }
        raw.push(0);
        push_range(&mut raw, pixels, row * stride, (row + 1) * stride);
        row = row + 1;
    }
    raw
}

/// Encode `pixels` (RGB, row-major, `w * h * 3` bytes) as a PNG file.
pub fn encode_rgb(w: u32, h: u32, pixels: &[u8]) -> (png: Vec<u8>)
    requires
        pixels.len() == w as int * h as int * 3,
        w as int * 3 <= usize::MAX,
    ensures
        png@ == png_spec(w, h, pixels@),
{
    let mut png: Vec<u8> = Vec::new();
    png.push(0x89);
    png.push(0x50);
    png.push(0x4E);
    png.push(0x47);
    png.push(0x0D);
    png.push(0x0A);
    png.push(0x1A);
    png.push(0x0A);
    let ghost signature = png@;

    let mut ihdr: Vec<u8> = Vec::new();
    push_be32(&mut ihdr, w);
    push_be32(&mut ihdr, h);
    ihdr.push(8);
    ihdr.push(2);
    ihdr.push(0);
    ihdr.push(0);
    ihdr.push(0);
    chunk(&mut png, &[0x49, 0x48, 0x44, 0x52], ihdr.as_slice());
    let ghost after_ihdr = png@;

    let stride = (w as usize) * 3;
    proof {
        assert(pixels.len() == stride * h as int) by (nonlinear_arith)
            requires
                pixels.len() == w as int * h as int * 3,
                stride == w as int * 3,
        ;
    }
    let raw = raw_scanlines(pixels, stride, h as usize);
    let stream = zlib_stored(raw.as_slice());
    chunk(&mut png, &[0x49, 0x44, 0x41, 0x54], stream.as_slice());
    let ghost after_idat = png@;
    let empty: Vec<u8> = Vec::new();
    chunk(&mut png, &[0x49, 0x45, 0x4E, 0x44], empty.as_slice());
    proof {
        assert(signature =~= png_signature());
        assert(ihdr@ =~= ihdr_body(w, h));
        assert(empty@ =~= Seq::<u8>::empty());
        assert(png@ =~= png_spec(w, h, pixels@));
    }
    png
}

} // verus!
