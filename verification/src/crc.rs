use vstd::prelude::*;

verus! {

/// One bit of the reflected CRC-16 with polynomial 0xa001.
pub open spec fn crc_step(c: u16) -> u16 {
    if c & 1 != 0 { (c >> 1) ^ 0xa001u16 } else { c >> 1 }
}

/// `n` bit steps applied to `c`.
pub open spec fn crc_bits(c: u16, n: nat) -> u16
    decreases n,
{
    if n == 0 { c } else { crc_step(crc_bits(c, (n - 1) as nat)) }
}

/// The register after one more byte.
pub open spec fn crc_update(c: u16, b: u8) -> u16 {
    crc_bits(c ^ (b as u16), 8)
}

/// The GridPulse CRC-16 of `s`: starting value 0x6d0f, one update per byte.
pub open spec fn spec_crc16(s: Seq<u8>) -> u16
    decreases s.len(),
{
    if s.len() == 0 { 0x6d0fu16 } else { crc_update(spec_crc16(s.drop_last()), s.last()) }
}

/// The CRC-16 that frames carry over their payload.
pub fn crc16_gridpulse(data: &[u8]) -> (crc: u16)
    ensures
        crc == spec_crc16(data@),
{
    let mut crc: u16 = 0x6d0f;
    let mut i: usize = 0;
    while i < data.len()
        invariant
            i <= data@.len(),
            crc == spec_crc16(data@.subrange(0, i as int)),
        decreases data@.len() - i,
    {
        let byte = data[i];
        let ghost start: u16 = crc ^ (byte as u16);
        crc = crc ^ (byte as u16);
        let mut j: usize = 0;
        while j < 8
            invariant
                j <= 8,
                crc == crc_bits(start, j as nat),
            decreases 8 - j,
        {
            if crc & 1 != 0 {
                crc = (crc >> 1) ^ 0xa001;
            } else {
                crc = crc >> 1;
            }
            j = j + 1;
        }
        proof {
            let s = data@.subrange(0, i + 1);
            assert(s.drop_last() =~= data@.subrange(0, i as int));
            assert(s.last() == byte);
        }
        i = i + 1;
    }
    proof { assert(data@.subrange(0, data@.len() as int) =~= data@); }
    crc
}

/// Rotation of a 32-bit word left by five bits.
pub open spec fn rotl5(x: u32) -> u32 {
    (x << 5u32) | (x >> 27u32)
}

/// The `i`-th byte of a chunk, zero past its end.
pub open spec fn lane_byte(c: Seq<u8>, i: int) -> u8 {
    if 0 <= i < c.len() { c[i] } else { 0 }
}

/// A chunk of at most four bytes read as a little-endian word, zero padded.
pub open spec fn lane(c: Seq<u8>) -> u32 {
    (lane_byte(c, 0) + 256 * lane_byte(c, 1) + 65536 * lane_byte(c, 2) + 16777216 * lane_byte(c, 3)) as u32
}

/// One mixing round of the folded checksum.
pub open spec fn fold_mix(acc: u32, word: u32) -> u32 {
    vstd::wrapping::u32_specs::wrapping_mul(rotl5(acc) ^ word, 0x85eb_ca6bu32)
}

/// The checksum state after folding `s` in chunks of four bytes.
pub open spec fn folded_from(acc: u32, s: Seq<u8>) -> u32
    decreases s.len(),
{
    if s.len() == 0 {
        acc
    } else if s.len() <= 4 {
        fold_mix(acc, lane(s))
    } else {
        folded_from(fold_mix(acc, lane(s.take(4))), s.skip(4))
    }
}

/// The folded checksum: four-byte chunks mixed into 0x9e3779b9.
pub open spec fn spec_folded_checksum(s: Seq<u8>) -> u32 {
    folded_from(0x9e37_79b9u32, s)
}

/// The folded checksum that fingerprints replay input.
pub fn folded_checksum(data: &[u8]) -> (acc: u32)
    ensures
        acc == spec_folded_checksum(data@),
{
    let mut acc: u32 = 0x9e37_79b9;
    let mut i: usize = 0;
    proof { assert(data@.skip(0) =~= data@); }
    while i < data.len()
        invariant
            i <= data@.len(),
            spec_folded_checksum(data@) == folded_from(acc, data@.skip(i as int)),
        decreases data@.len() - i,
    {
        let rest = data.len() - i;
        let n = if rest < 4 { rest } else { 4 };
        let b0: u32 = data[i] as u32;
        let b1: u32 = if n > 1 { data[i + 1] as u32 } else { 0 };
        let b2: u32 = if n > 2 { data[i + 2] as u32 } else { 0 };
        let b3: u32 = if n > 3 { data[i + 3] as u32 } else { 0 };
        let word: u32 = b0 + 256 * b1 + 65536 * b2 + 16777216 * b3;
        proof {
            let s = data@.skip(i as int);
            let c = if s.len() <= 4 { s } else { s.take(4) };
            assert(word == lane(c));
            if s.len() > 4 {
                assert(s.skip(4) =~= data@.skip(i + 4));
            } else {
                assert(data@.skip(i + n) =~= Seq::<u8>::empty());
            }
        }
        let rotated = (acc << 5) | (acc >> 27);
        acc = (rotated ^ word).wrapping_mul(0x85eb_ca6b);
        i = i + n;
    }
    acc
}


/// Eight bit steps written out.
pub open spec fn crc_byte_steps(c: u16) -> u16 {
    crc_step(crc_step(crc_step(crc_step(crc_step(crc_step(crc_step(crc_step(c))))))))
}

proof fn lemma_crc_bits_8(c: u16)
    ensures
        crc_bits(c, 8) == crc_byte_steps(c),
{
    reveal_with_fuel(crc_bits, 9);
}

/// The CRC of data followed by the two little-endian bytes of its own CRC
/// is zero: a receiver can check a frame by running the CRC over the
/// payload and the carried checksum together.
pub proof fn law_crc_residue(s: Seq<u8>)
    ensures
        spec_crc16(s + seq![(spec_crc16(s) % 256) as u8, (spec_crc16(s) / 256) as u8]) == 0,
{
    let c = spec_crc16(s);
    let lo = (c % 256) as u8;
    let hi = (c / 256) as u8;
    let t = s + seq![lo, hi];
    assert(t.drop_last() =~= s.push(lo));
    assert(s.push(lo).drop_last() =~= s);
    assert(spec_crc16(s.push(lo)) == crc_update(c, lo));
    assert(spec_crc16(t) == crc_update(spec_crc16(s.push(lo)), hi));
    let c1 = c ^ (lo as u16);
    lemma_crc_bits_8(c1);
    let c2 = crc_bits(c1, 8) ^ (hi as u16);
    lemma_crc_bits_8(c2);
    let a0: u16 = c ^ (lo as u16);
    let a1: u16 = crc_step(a0);
    let a2: u16 = crc_step(a1);
    let a3: u16 = crc_step(a2);
    let a4: u16 = crc_step(a3);
    let a5: u16 = crc_step(a4);
    let a6: u16 = crc_step(a5);
    let a7: u16 = crc_step(a6);
    let a8: u16 = crc_step(a7);
    let b0: u16 = a8 ^ (hi as u16);
    let b1: u16 = crc_step(b0);
    let b2: u16 = crc_step(b1);
    let b3: u16 = crc_step(b2);
    let b4: u16 = crc_step(b3);
    let b5: u16 = crc_step(b4);
    let b6: u16 = crc_step(b5);
    let b7: u16 = crc_step(b6);
    let b8: u16 = crc_step(b7);
    assert(b8 == 0) by (bit_vector)
        requires
            lo == (c % 256) as u8,
            hi == (c / 256) as u8,
            a0 == c ^ (lo as u16),
            a1 == if a0 & 1 != 0 { (a0 >> 1) ^ 0xa001u16 } else { a0 >> 1 },
            a2 == if a1 & 1 != 0 { (a1 >> 1) ^ 0xa001u16 } else { a1 >> 1 },
            a3 == if a2 & 1 != 0 { (a2 >> 1) ^ 0xa001u16 } else { a2 >> 1 },
            a4 == if a3 & 1 != 0 { (a3 >> 1) ^ 0xa001u16 } else { a3 >> 1 },
            a5 == if a4 & 1 != 0 { (a4 >> 1) ^ 0xa001u16 } else { a4 >> 1 },
            a6 == if a5 & 1 != 0 { (a5 >> 1) ^ 0xa001u16 } else { a5 >> 1 },
            a7 == if a6 & 1 != 0 { (a6 >> 1) ^ 0xa001u16 } else { a6 >> 1 },
            a8 == if a7 & 1 != 0 { (a7 >> 1) ^ 0xa001u16 } else { a7 >> 1 },
            b0 == a8 ^ (hi as u16),
            b1 == if b0 & 1 != 0 { (b0 >> 1) ^ 0xa001u16 } else { b0 >> 1 },
            b2 == if b1 & 1 != 0 { (b1 >> 1) ^ 0xa001u16 } else { b1 >> 1 },
            b3 == if b2 & 1 != 0 { (b2 >> 1) ^ 0xa001u16 } else { b2 >> 1 },
            b4 == if b3 & 1 != 0 { (b3 >> 1) ^ 0xa001u16 } else { b3 >> 1 },
            b5 == if b4 & 1 != 0 { (b4 >> 1) ^ 0xa001u16 } else { b4 >> 1 },
            b6 == if b5 & 1 != 0 { (b5 >> 1) ^ 0xa001u16 } else { b5 >> 1 },
            b7 == if b6 & 1 != 0 { (b6 >> 1) ^ 0xa001u16 } else { b6 >> 1 },
            b8 == if b7 & 1 != 0 { (b7 >> 1) ^ 0xa001u16 } else { b7 >> 1 },
    ;
    assert(a8 == crc_byte_steps(a0));
    assert(b8 == crc_byte_steps(b0));
}

proof fn lemma_fold_padding(acc: u32, s: Seq<u8>)
    requires
        s.len() % 4 != 0,
    ensures
        folded_from(acc, s) == folded_from(acc, s + Seq::new((4 - s.len() % 4) as nat, |i: int| 0u8)),
    decreases s.len(),
{
    let pad = Seq::new((4 - s.len() % 4) as nat, |i: int| 0u8);
    let t = s + pad;
    if s.len() <= 4 {
        assert(t.len() == 4);
        assert(lane(t) == lane(s)) by {
            assert(forall|i: int| 0 <= i < 4 ==> lane_byte(t, i) == lane_byte(s, i));
        }
    } else {
        assert(t.take(4) =~= s.take(4));
        assert(t.skip(4) =~= s.skip(4) + pad);
        assert(s.skip(4).len() % 4 == s.len() % 4);
        lemma_fold_padding(fold_mix(acc, lane(s.take(4))), s.skip(4));
    }
}

/// Padding data with zero bytes up to a multiple of four leaves its
/// folded checksum unchanged: the last chunk is read zero-padded anyway.
pub proof fn law_folded_checksum_padding(s: Seq<u8>)
    requires
        s.len() % 4 != 0,
    ensures
        spec_folded_checksum(s) == spec_folded_checksum(s + Seq::new((4 - s.len() % 4) as nat, |i: int| 0u8)),
{
    lemma_fold_padding(0x9e37_79b9u32, s);
}

} // verus!
