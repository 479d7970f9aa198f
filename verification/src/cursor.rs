use vstd::prelude::*;
use crate::error::GridError;

verus! {

// ---------------------------------------------------------------------
// The reading model: every read is a function of the bytes and the
// position, giving the outcome and the position that follows it.
// ---------------------------------------------------------------------

/// Bytes that remain after position `p` (zero past the end).
pub open spec fn spec_remaining(d: Seq<u8>, p: int) -> int {
    if p <= d.len() { d.len() - p } else { 0 }
}

/// The truncation error a one-byte read reports.
pub open spec fn byte_truncated(d: Seq<u8>, p: int) -> GridError {
    GridError::Truncated { needed: 1, remaining: spec_remaining(d, p) as usize, context: "peek_u8" }
}

/// Reading one byte at `p`: the byte and the next position, or the
/// truncation error with the position unchanged.
pub open spec fn spec_read_u8(d: Seq<u8>, p: int) -> (Result<u8, GridError>, int) {
    if 0 <= p < d.len() {
        (Ok(d[p]), p + 1)
    } else {
        (Err(byte_truncated(d, p)), p)
    }
}

/// Taking `n` bytes at `p`.
pub open spec fn spec_take(d: Seq<u8>, p: int, n: int) -> (Result<Seq<u8>, GridError>, int) {
    if n > spec_remaining(d, p) {
        (Err(GridError::Truncated { needed: n as usize, remaining: spec_remaining(d, p) as usize, context: "cursor take" }), p)
    } else {
        (Ok(d.subrange(p, p + n)), p + n)
    }
}

/// Little-endian value of two bytes.
pub open spec fn le16(s: Seq<u8>) -> u16 {
    (s[0] + 256 * s[1]) as u16
}

/// Little-endian value of four bytes.
pub open spec fn le32(s: Seq<u8>) -> u32 {
    (s[0] + 256 * s[1] + 65536 * s[2] + 16777216 * s[3]) as u32
}

/// Little-endian value of eight bytes.
pub open spec fn le64(s: Seq<u8>) -> u64 {
    (le32(s) + 4294967296 * le32(s.subrange(4, 8))) as u64
}

/// Reading a little-endian `u16` at `p`.
pub open spec fn spec_read_u16(d: Seq<u8>, p: int) -> (Result<u16, GridError>, int) {
    let (r, q) = spec_take(d, p, 2);
    match r {
        Ok(s) => (Ok(le16(s)), q),
        Err(e) => (Err(e), q),
    }
}

/// Reading a little-endian `u32` at `p`.
pub open spec fn spec_read_u32(d: Seq<u8>, p: int) -> (Result<u32, GridError>, int) {
    let (r, q) = spec_take(d, p, 4);
    match r {
        Ok(s) => (Ok(le32(s)), q),
        Err(e) => (Err(e), q),
    }
}

/// Reading a little-endian `u64` at `p`.
pub open spec fn spec_read_u64(d: Seq<u8>, p: int) -> (Result<u64, GridError>, int) {
    let (r, q) = spec_take(d, p, 8);
    match r {
        Ok(s) => (Ok(le64(s)), q),
        Err(e) => (Err(e), q),
    }
}

/// Continues a base-128 varint after `k` bytes have contributed `acc`.
pub open spec fn spec_var_u32_from(d: Seq<u8>, p: int, k: nat, acc: u32) -> (Result<u32, GridError>, int)
    decreases 5 - k,
{
    if k >= 5 {
        (Err(GridError::InvalidLength { declared: 5, available: spec_remaining(d, p) as usize, context: "var_u32" }), p)
    } else {
        let (r, q) = spec_read_u8(d, p);
        match r {
            Err(e) => (Err(e), q),
            Ok(b) => {
                let acc2 = acc | (((b & 0x7f) as u32) << ((7 * k) as u32));
                if b & 0x80 == 0 {
                    (Ok(acc2), q)
                } else {
                    spec_var_u32_from(d, q, k + 1, acc2)
                }
            },
        }
    }
}

/// A little-endian base-128 varint of at most five bytes; bits that do
/// not fit in 32 are dropped.
pub open spec fn spec_read_var_u32(d: Seq<u8>, p: int) -> (Result<u32, GridError>, int) {
    spec_var_u32_from(d, p, 0, 0)
}

/// A varint read stays between where it starts and the end of the data.
pub proof fn lemma_var_u32_bounds(d: Seq<u8>, p: int, k: nat, acc: u32)
    requires
        0 <= p <= d.len(),
    ensures
        p <= spec_var_u32_from(d, p, k, acc).1 <= d.len(),
    decreases 5 - k,
{
    if k < 5 && p < d.len() {
        let b = d[p];
        let acc2 = acc | (((b & 0x7f) as u32) << ((7 * k) as u32));
        lemma_var_u32_bounds(d, p + 1, k + 1, acc2);
    }
}

/// Zig-zag decoding: even values map to the non-negative half, odd
/// values to the negative half.
pub open spec fn zigzag32(raw: u32) -> i32 {
    if raw % 2 == 0 {
        (raw / 2) as i32
    } else {
        (-((raw / 2) as int) - 1) as i32
    }
}

/// Reading a zig-zag encoded varint at `p`.
pub open spec fn spec_read_svar_i32(d: Seq<u8>, p: int) -> (Result<i32, GridError>, int) {
    let (r, q) = spec_read_var_u32(d, p);
    match r {
        Ok(v) => (Ok(zigzag32(v)), q),
        Err(e) => (Err(e), q),
    }
}

/// A forward-only reader over a byte slice.
#[derive(Clone, Copy)]
pub struct ByteCursor<'a> {
    data: &'a [u8],
    pos: usize,
}

impl<'a> ByteCursor<'a> {
    #[verifier::type_invariant]
    spec fn inv(self) -> bool {
        self.pos <= self.data@.len() <= usize::MAX
    }

    /// The bytes under the cursor.
    pub closed spec fn data(self) -> Seq<u8> {
        self.data@
    }

    /// The current read position.
    pub closed spec fn pos(self) -> int {
        self.pos as int
    }

    pub fn new(data: &'a [u8]) -> (c: Self)
        ensures
            c.data() == data@,
            c.pos() == 0,
    {
        // The slice's length is a usize, which the cursor's invariant needs.
        let _len = data.len();
        ByteCursor { data, pos: 0 }
    }

    pub fn len(&self) -> (n: usize)
        ensures
            n == self.data().len(),
    {
        self.data.len()
    }

    pub fn position(&self) -> (p: usize)
        ensures
            p == self.pos(),
            p <= self.data().len(),
    {
        proof { use_type_invariant(self); }
        self.pos
    }

    pub fn remaining(&self) -> (n: usize)
        ensures
            n == spec_remaining(self.data(), self.pos()),
            n == self.data().len() - self.pos(),
    {
        proof { use_type_invariant(self); }
        self.data.len() - self.pos
    }

    pub fn is_empty(&self) -> (b: bool)
        ensures
            b == (spec_remaining(self.data(), self.pos()) == 0),
    {
        self.remaining() == 0
    }

    pub fn seek(&mut self, pos: usize) -> (r: Result<(), GridError>)
        ensures
            final(self).data() == old(self).data(),
            pos <= old(self).data().len() ==> r is Ok && final(self).pos() == pos,
            pos > old(self).data().len() ==> r == Err::<(), GridError>(GridError::InvalidLength {
                declared: pos,
                available: old(self).data().len() as usize,
                context: "cursor seek",
            }) && final(self).pos() == old(self).pos(),
    {
        if pos > self.data.len() {
            return Err(GridError::InvalidLength { declared: pos, available: self.data.len(), context: "cursor seek" });
        }
        self.pos = pos;
        Ok(())
    }

    pub fn peek_u8(&self) -> (r: Result<u8, GridError>)
        ensures
            r == spec_read_u8(self.data(), self.pos()).0,
    {
        proof { use_type_invariant(self); }
        if self.pos < self.data.len() {
            Ok(self.data[self.pos])
        } else {
            Err(GridError::Truncated { needed: 1, remaining: self.data.len() - self.pos, context: "peek_u8" })
        }
    }

    pub fn read_u8(&mut self) -> (r: Result<u8, GridError>)
        ensures
            final(self).data() == old(self).data(),
            (r, final(self).pos()) == spec_read_u8(old(self).data(), old(self).pos()),
    {
        proof { use_type_invariant(&*self); }
        let value = self.peek_u8()?;
        self.pos = self.pos + 1;
        Ok(value)
    }

    pub fn read_i8(&mut self) -> (r: Result<i8, GridError>)
        ensures
            final(self).data() == old(self).data(),
            final(self).pos() == spec_read_u8(old(self).data(), old(self).pos()).1,
            r == (match spec_read_u8(old(self).data(), old(self).pos()).0 {
                Ok(b) => Ok::<i8, GridError>(b as i8),
                Err(e) => Err(e),
            }),
    {
        let b = self.read_u8()?;
        Ok(b as i8)
    }

    pub fn take(&mut self, len: usize) -> (r: Result<&'a [u8], GridError>)
        ensures
            final(self).data() == old(self).data(),
            final(self).pos() == spec_take(old(self).data(), old(self).pos(), len as int).1,
            (match r {
                Ok(s) => spec_take(old(self).data(), old(self).pos(), len as int).0 == Ok::<Seq<u8>, GridError>(s@),
                Err(e) => spec_take(old(self).data(), old(self).pos(), len as int).0 == Err::<Seq<u8>, GridError>(e),
            }),
    {
        proof { use_type_invariant(&*self); }
        if len > self.remaining() {
            return Err(GridError::Truncated { needed: len, remaining: self.remaining(), context: "cursor take" });
        }
        let start = self.pos;
        self.pos = self.pos + len;
        Ok(vstd::slice::slice_subrange(self.data, start, start + len))
    }

    pub fn read_u16_le(&mut self) -> (r: Result<u16, GridError>)
        ensures
            final(self).data() == old(self).data(),
            (r, final(self).pos()) == spec_read_u16(old(self).data(), old(self).pos()),
    {
        let bytes = self.take(2)?;
        let v = bytes[0] as u16 + 256 * (bytes[1] as u16);
        Ok(v)
    }

    pub fn read_i16_le(&mut self) -> (r: Result<i16, GridError>)
        ensures
            final(self).data() == old(self).data(),
            final(self).pos() == spec_read_u16(old(self).data(), old(self).pos()).1,
            r == (match spec_read_u16(old(self).data(), old(self).pos()).0 {
                Ok(v) => Ok::<i16, GridError>(v as i16),
                Err(e) => Err(e),
            }),
    {
        let v = self.read_u16_le()?;
        Ok(v as i16)
    }

    pub fn read_u32_le(&mut self) -> (r: Result<u32, GridError>)
        ensures
            final(self).data() == old(self).data(),
            (r, final(self).pos()) == spec_read_u32(old(self).data(), old(self).pos()),
    {
        let bytes = self.take(4)?;
        let v = bytes[0] as u32 + 256 * (bytes[1] as u32) + 65536 * (bytes[2] as u32)
            + 16777216 * (bytes[3] as u32);
        Ok(v)
    }

    pub fn read_i32_le(&mut self) -> (r: Result<i32, GridError>)
        ensures
            final(self).data() == old(self).data(),
            final(self).pos() == spec_read_u32(old(self).data(), old(self).pos()).1,
            r == (match spec_read_u32(old(self).data(), old(self).pos()).0 {
                Ok(v) => Ok::<i32, GridError>(v as i32),
                Err(e) => Err(e),
            }),
    {
        let v = self.read_u32_le()?;
        Ok(v as i32)
    }

    pub fn read_u64_le(&mut self) -> (r: Result<u64, GridError>)
        ensures
            final(self).data() == old(self).data(),
            (r, final(self).pos()) == spec_read_u64(old(self).data(), old(self).pos()),
    {
        let bytes = self.take(8)?;
        let lo = bytes[0] as u64 + 256 * (bytes[1] as u64) + 65536 * (bytes[2] as u64)
            + 16777216 * (bytes[3] as u64);
        let hi = bytes[4] as u64 + 256 * (bytes[5] as u64) + 65536 * (bytes[6] as u64)
            + 16777216 * (bytes[7] as u64);
        let v = lo + 4294967296 * hi;
        Ok(v)
    }

    pub fn read_var_u32(&mut self) -> (r: Result<u32, GridError>)
        ensures
            final(self).data() == old(self).data(),
            (r, final(self).pos()) == spec_read_var_u32(old(self).data(), old(self).pos()),
    {
        let mut shift: u32 = 0;
        let mut value: u32 = 0;
        let mut k: usize = 0;
        while k < 5
            invariant
                k <= 5,
                shift == 7 * k,
                self.data() == old(self).data(),
                spec_read_var_u32(old(self).data(), old(self).pos())
                    == spec_var_u32_from(self.data(), self.pos(), k as nat, value),
            decreases 5 - k,
        {
            let byte = self.read_u8()?;
            value = value | (((byte & 0x7f) as u32) << shift);
            if byte & 0x80 == 0 {
                return Ok(value);
            }
            shift = shift + 7;
            k = k + 1;
        }
        Err(GridError::InvalidLength { declared: 5, available: self.remaining(), context: "var_u32" })
    }

    pub fn read_svar_i32(&mut self) -> (r: Result<i32, GridError>)
        ensures
            final(self).data() == old(self).data(),
            (r, final(self).pos()) == spec_read_svar_i32(old(self).data(), old(self).pos()),
    {
        let raw = self.read_var_u32()?;
        assert(raw >> 1 == raw / 2 && (raw & 1 == 0) == (raw % 2 == 0)) by (bit_vector);
        let half = (raw >> 1) as i32;
        if raw & 1 == 0 {
            Ok(half)
        } else {
            Ok(-half - 1)
        }
    }

    /// Bytes up to the first `marker` among the next `min(remaining, limit)`
    /// bytes; the cursor moves past the marker.
    pub fn take_until(&mut self, marker: u8, limit: usize) -> (r: Result<&'a [u8], GridError>)
        ensures
            final(self).data() == old(self).data(),
            ({
                let d = old(self).data();
                let p = old(self).pos();
                let max = if limit < spec_remaining(d, p) { limit as int } else { spec_remaining(d, p) };
                match r {
                    Ok(s) => {
                        let o = s@.len() as int;
                        &&& o < max
                        &&& d[p + o] == marker
                        &&& forall|j: int| p <= j < p + o ==> d[j] != marker
                        &&& s@ == d.subrange(p, p + o)
                        &&& final(self).pos() == p + o + 1
                    },
                    Err(e) => {
                        &&& forall|j: int| p <= j < p + max ==> d[j] != marker
                        &&& e == GridError::InvalidLength {
                            declared: limit,
                            available: spec_remaining(d, p) as usize,
                            context: "cursor take_until",
                        }
                        &&& final(self).pos() == p
                    },
                }
            }),
    {
        proof { use_type_invariant(&*self); }
        let start = self.pos;
        let rem = self.remaining();
        let max = if rem < limit { rem } else { limit };
        let mut offset: usize = 0;
        while offset < max
            invariant
                self.data() == old(self).data(),
                self.pos() == old(self).pos(),
                start == self.pos(),
                self.pos <= self.data@.len() <= usize::MAX,
                max <= self.data@.len() - start,
                max == (if limit < self.data@.len() - start { limit as int } else { self.data@.len() - start }),
                offset <= max,
                forall|j: int| start <= j < start + offset ==> self.data@[j] != marker,
            decreases max - offset,
        {
            if self.data[start + offset] == marker {
                self.pos = start + offset + 1;
                return Ok(vstd::slice::slice_subrange(self.data, start, start + offset));
            }
            offset = offset + 1;
        }
        Err(GridError::InvalidLength { declared: limit, available: self.remaining(), context: "cursor take_until" })
    }
}


// ---------------------------------------------------------------------
// The varint encoding that the readers undo
// ---------------------------------------------------------------------

/// The little-endian base-128 encoding of `z`: seven bits per byte, low
/// group first, the high bit set on every byte but the last.
pub open spec fn leb128(z: u32) -> Seq<u8>
    decreases z,
{
    if z < 128 {
        seq![z as u8]
    } else {
        seq![(z % 128 + 128) as u8] + leb128(z / 128)
    }
}

/// Zig-zag encoding: the non-negative half to even values, the negative
/// half to odd values.
pub open spec fn zigzag_encode(n: i32) -> u32 {
    if n >= 0 { (2 * n) as u32 } else { (-2 * n - 1) as u32 }
}

/// 128 to the power `m`.
pub open spec fn pow128(m: nat) -> nat
    decreases m,
{
    if m == 0 { 1 } else { 128 * pow128((m - 1) as nat) }
}

proof fn lemma_leb128_len(z: u32, m: nat)
    requires
        1 <= m,
        z < pow128(m),
    ensures
        1 <= leb128(z).len() <= m,
    decreases m,
{
    if z >= 128 {
        let p = pow128((m - 1) as nat);
        assert(m >= 2) by {
            if m == 1 { assert(pow128(1) == 128 * pow128(0)); }
        }
        assert(z / 128 < p) by (nonlinear_arith)
            requires z < 128 * p, p > 0;
        lemma_leb128_len(z / 128, (m - 1) as nat);
    }
}

proof fn lemma_split_group(z: u32, s: u32, acc: u32)
    requires
        s <= 21,
    ensures
        (acc | ((z % 128) << s)) | ((z / 128) << (s + 7) as u32) == acc | (z << s),
{
    assert((acc | ((z % 128) << s)) | ((z / 128) << (s + 7) as u32) == acc | (z << s)) by (bit_vector)
        requires s <= 21;
}

proof fn lemma_var_u32_decodes(d: Seq<u8>, p: int, k: nat, acc: u32, z: u32)
    requires
        0 <= p,
        p + leb128(z).len() <= d.len(),
        forall|i: int| 0 <= i < leb128(z).len() ==> d[p + i] == #[trigger] leb128(z)[i],
        k + leb128(z).len() <= 5,
    ensures
        spec_var_u32_from(d, p, k, acc) == (Ok::<u32, GridError>(acc | (z << (7 * k) as u32)), p + leb128(z).len()),
    decreases z,
{
    let b = d[p];
    assert(d[p + 0] == leb128(z)[0]);
    if z < 128 {
        let x = z as u8;
        assert(b == x);
        assert(x & 0x7f == x && x & 0x80 == 0) by (bit_vector)
            requires x < 128;
        assert(((x & 0x7f) as u32) == z);
    } else {
        let x = (z % 128) as u8;
        let rest = leb128(z / 128);
        assert(leb128(z) == seq![(z % 128 + 128) as u8] + rest);
        assert(b == (x + 128) as u8);
        assert(((x + 128) as u8) & 0x7f == x && ((x + 128) as u8) & 0x80 != 0) by (bit_vector)
            requires x < 128;
        assert(((b & 0x7f) as u32) == z % 128);
        assert forall|i: int| 0 <= i < rest.len() implies d[(p + 1) + i] == #[trigger] rest[i] by {
            assert(leb128(z)[i + 1] == rest[i]);
        }
        let acc2 = acc | ((z % 128) << (7 * k) as u32);
        lemma_var_u32_decodes(d, p + 1, k + 1, acc2, z / 128);
        assert(7 * k <= 21);
        lemma_split_group(z, (7 * k) as u32, acc);
        assert((7 * (k + 1)) as u32 == ((7 * k) as u32 + 7) as u32);
    }
}

/// The signed varint reader undoes the encoding: the bytes of the zig-zag
/// value of `n`, base-128 encoded, read back as `n` and end where they
/// end.
pub proof fn law_svar_roundtrip(n: i32)
    ensures
        leb128(zigzag_encode(n)).len() <= 5,
        spec_read_svar_i32(leb128(zigzag_encode(n)), 0)
            == (Ok::<i32, GridError>(n), leb128(zigzag_encode(n)).len() as int),
{
    let z = zigzag_encode(n);
    let bytes = leb128(z);
    reveal_with_fuel(pow128, 6);
    lemma_leb128_len(z, 5);
    lemma_var_u32_decodes(bytes, 0, 0, 0, z);
    assert((0u32 | (z << 0u32)) == z) by (bit_vector);
}


/// Fixed-width reads are little-endian: the first byte is the lowest.
pub proof fn law_integer_reads(d: Seq<u8>, p: int)
    requires
        0 <= p,
        p + 4 <= d.len(),
    ensures
        spec_read_u8(d, p) == (Ok::<u8, GridError>(d[p]), p + 1),
        spec_read_u16(d, p) == (Ok::<u16, GridError>((d[p] + 256 * d[p + 1]) as u16), p + 2),
        spec_read_u32(d, p) == (Ok::<u32, GridError>((d[p] + 256 * d[p + 1] + 65536 * d[p + 2] + 16777216 * d[p + 3]) as u32), p + 4),
{
}

} // verus!
