//! Little-endian bit streams over byte buffers.
//!
//! A stream is modelled as a `Seq<bool>`: bit `i` of a byte buffer is bit `i % 8`
//! (counted from the least significant) of byte `i / 8`. Integers are read and written
//! least significant bit first.
use bitbuffer::{BitReadBuffer, BitReadStream, BitWriteStream, LittleEndian};
use vstd::arithmetic::power2::{lemma2_to64, lemma_pow2_pos, lemma_pow2_strictly_increases, lemma_pow2_unfold, pow2};
use vstd::arithmetic::div_mod::lemma_mod_breakdown;
use vstd::prelude::*;

verus! {

/// Bit `k` (0 is the least significant) of the byte `b`.
pub open spec fn byte_bit(b: u8, k: nat) -> bool {
    (b as nat / pow2(k)) % 2 == 1
}

/// The bits of a byte buffer, in stream order.
pub open spec fn bits_of(data: Seq<u8>) -> Seq<bool> {
    Seq::new(data.len() * 8, |i: int| byte_bit(data[i / 8], (i % 8) as nat))
}

/// The unsigned value of a run of bits, least significant first.
pub open spec fn uint_of(bits: Seq<bool>) -> nat
    decreases bits.len(),
{
    if bits.len() == 0 {
        0
    } else {
        uint_of(bits.drop_last()) + if bits.last() {
            pow2((bits.len() - 1) as nat)
        } else {
            0
        }
    }
}

/// The `n` low bits of `v`, least significant first.
pub open spec fn uint_bits(v: nat, n: nat) -> Seq<bool> {
    Seq::new(n, |k: int| (v / pow2(k as nat)) % 2 == 1)
}

/// `n` zero bits.
pub open spec fn zero_bits(n: nat) -> Seq<bool> {
    Seq::new(n, |k: int| false)
}

/// `bytes` holds `bits` in stream order, the last byte filled up with zero bits.
pub open spec fn is_packing(bytes: Seq<u8>, bits: Seq<bool>) -> bool {
    &&& bytes.len() == (bits.len() + 7) / 8
    &&& bits_of(bytes) == bits + zero_bits((bytes.len() * 8 - bits.len()) as nat)
}

/// Reading an `n`-bit unsigned integer at `pos`: its value and the position after it.
pub open spec fn rd_uint(bits: Seq<bool>, pos: int, n: nat) -> Option<(nat, int)> {
    if 0 <= pos && pos + n <= bits.len() {
        Some((uint_of(bits.subrange(pos, pos + n)), pos + n))
    } else {
        None
    }
}

/// The byte made of the 8 bits at `pos`.
pub open spec fn byte_at(bits: Seq<bool>, pos: int) -> u8 {
    uint_of(bits.subrange(pos, pos + 8)) as u8
}

/// Reading `n` whole bytes, bit-aligned or not, at `pos`.
pub open spec fn rd_bytes(bits: Seq<bool>, pos: int, n: nat) -> Option<(Seq<u8>, int)> {
    if 0 <= pos && pos + 8 * n <= bits.len() {
        Some((Seq::new(n, |j: int| byte_at(bits, pos + 8 * j)), pos + 8 * n))
    } else {
        None
    }
}

/// Reading bytes up to and including a NUL byte, `acc` holding those read so far.
pub open spec fn cstring_from(bits: Seq<bool>, pos: int, acc: Seq<u8>) -> Option<(Seq<u8>, int)>
    decreases bits.len() - pos,
{
    if pos < 0 || pos + 8 > bits.len() {
        None
    } else if byte_at(bits, pos) == 0 {
        Some((acc, pos + 8))
    } else {
        cstring_from(bits, pos + 8, acc.push(byte_at(bits, pos)))
    }
}

/// Reading a NUL-terminated byte string at `pos`: its bytes, without the NUL.
pub open spec fn rd_cstring(bits: Seq<bool>, pos: int) -> Option<(Seq<u8>, int)> {
    cstring_from(bits, pos, Seq::empty())
}

/// The bits of a NUL-terminated byte string.
pub open spec fn cstring_bits(s: Seq<u8>) -> Seq<bool>
    decreases s.len(),
{
    if s.len() == 0 {
        uint_bits(0, 8)
    } else {
        uint_bits(s[0] as nat, 8) + cstring_bits(s.drop_first())
    }
}

/// Most 8-bit groups a varint may take.
pub const VARINT_MAX_GROUPS: usize = 10;

/// The value of a base-128 varint whose next 8-bit group is at `pos`, `acc` holding
/// what the `count` groups before contributed; `None` when the stream ends first or
/// more than ten groups would be needed.
pub open spec fn varint_from(bits: Seq<bool>, pos: int, acc: nat, count: nat) -> Option<(nat, int)>
    decreases bits.len() - pos,
{
    if count >= VARINT_MAX_GROUPS || pos < 0 || pos + 8 > bits.len() {
        None
    } else {
        let g = byte_at(bits, pos) as nat;
        let acc2 = acc + (g % 128) * pow2(7 * count);
        if g < 128 {
            Some((acc2, pos + 8))
        } else {
            varint_from(bits, pos + 8, acc2, count + 1)
        }
    }
}

/// Reading a base-128 varint (low groups first, high bit of a group set when more follow).
pub open spec fn rd_varint(bits: Seq<bool>, pos: int) -> Option<(nat, int)> {
    varint_from(bits, pos, 0, 0)
}

pub proof fn lemma_uint_bound(bits: Seq<bool>)
    ensures
        uint_of(bits) < pow2(bits.len()),
    decreases bits.len(),
{
    lemma_pow2_pos(bits.len());
    if bits.len() > 0 {
        lemma_uint_bound(bits.drop_last());
        lemma_pow2_unfold(bits.len());
    }
}

pub proof fn lemma_uint_of_uint_bits(v: nat, n: nat)
    ensures
        uint_of(uint_bits(v, n)) == v % pow2(n),
    decreases n,
{
    lemma_pow2_pos(n);
    if n == 0 {
        assert(uint_bits(v, n) =~= Seq::<bool>::empty());
        lemma2_to64();
    } else {
        let m = (n - 1) as nat;
        assert(uint_bits(v, n).drop_last() =~= uint_bits(v, m));
        lemma_uint_of_uint_bits(v, m);
        lemma_pow2_unfold(n);
        lemma_pow2_pos(m);
        lemma_mod_breakdown(v as int, pow2(m) as int, 2);
        assert(pow2(m) * 2 == pow2(n));
        assert(pow2(m) * ((v / pow2(m)) % 2) == if (v / pow2(m)) % 2 == 1 { pow2(m) } else { 0 });
    }
}

pub proof fn lemma_uint_of_zeros(n: nat)
    ensures
        uint_of(zero_bits(n)) == 0,
    decreases n,
{
    if n > 0 {
        assert(zero_bits(n).drop_last() =~= zero_bits((n - 1) as nat));
        lemma_uint_of_zeros((n - 1) as nat);
    }
}

/// A run of bits that is the concatenation `a + b` splits into `a` and `b`.
pub proof fn lemma_split_run(bits: Seq<bool>, pos: int, a: Seq<bool>, b: Seq<bool>)
    requires
        0 <= pos,
        pos + a.len() + b.len() <= bits.len(),
        bits.subrange(pos, pos + a.len() + b.len()) == a + b,
    ensures
        bits.subrange(pos, pos + a.len()) == a,
        bits.subrange(pos + a.len(), pos + a.len() + b.len()) == b,
{
    let whole = bits.subrange(pos, pos + a.len() + b.len());
    assert forall|k: int| 0 <= k < a.len() implies bits[pos + k] == a[k] by {
        assert(whole[k] == (a + b)[k]);
    }
    assert forall|k: int| 0 <= k < b.len() implies bits[pos + a.len() + k] == b[k] by {
        assert(whole[a.len() + k] == (a + b)[a.len() + k]);
    }
    assert(bits.subrange(pos, pos + a.len()) =~= a);
    assert(bits.subrange(pos + a.len(), pos + a.len() + b.len()) =~= b);
}

/// A byte's 8 bits read back give the byte.
pub proof fn lemma_byte_roundtrip(b: u8)
    ensures
        uint_of(uint_bits(b as nat, 8)) == b,
{
    lemma_uint_of_uint_bits(b as nat, 8);
    lemma2_to64();
}

/// The bits of an unpacked stream of bytes.
///
/// Relies on bitbuffer's `BitReadStream::read_sized::<Vec<bool>>` over a
/// little-endian `BitReadBuffer`: bit `i` comes from bit `i % 8` of byte `i / 8`,
/// least significant first, and reading exactly the buffer's bit length succeeds.
#[verifier::external_body]
fn unpack_bits(data: &[u8]) -> (r: Vec<bool>)
    requires
        data@.len() * 8 + 64 <= usize::MAX,
    ensures
        r@ == bits_of(data@),
{
    let mut stream = BitReadStream::new(BitReadBuffer::new(data, LittleEndian));
    stream.read_sized::<Vec<bool>>(data.len() * 8).unwrap_or_default()
}

/// Packs bits into bytes.
///
/// Relies on bitbuffer's `BitWriteStream::write` for a `Vec<bool>`: each flag is
/// written with `write_bool` as one bit, least significant bit of each byte first,
/// and a byte that is started is pushed with its remaining bits zero.
#[verifier::external_body]
fn pack_bits(bits: &Vec<bool>) -> (r: Vec<u8>)
    ensures
        is_packing(r@, bits@),
{
    let mut out = Vec::new();
    let mut stream = BitWriteStream::new(&mut out, LittleEndian);
    let _ = stream.write(bits);
    drop(stream);
    out
}

/// A read cursor over a stream of bits.
pub struct BitReader {
    pub bits: Vec<bool>,
    pub pos: usize,
}

impl BitReader {
    pub open spec fn wf(&self) -> bool {
        self.pos <= self.bits@.len()
    }

    /// A reader at the start of the bits of `data`.
    pub fn from_bytes(data: &[u8]) -> (r: BitReader)
        requires
            data@.len() * 8 + 64 <= usize::MAX,
        ensures
            r.wf(),
            r.bits@ == bits_of(data@),
            r.pos == 0,
    {
        BitReader { bits: unpack_bits(data), pos: 0 }
    }

    /// Number of bits not read yet.
    pub fn bits_left(&self) -> (r: usize)
        requires
            self.wf(),
        ensures
            r == self.bits@.len() - self.pos,
    {
        self.bits.len() - self.pos
    }

    /// Reads an unsigned integer of `n` bits; `None`, and nothing consumed, when fewer
    /// than `n` bits are left.
    pub fn read_uint(&mut self, n: usize) -> (r: Option<u32>)
        requires
            old(self).wf(),
            n <= 32,
        ensures
            final(self).wf(),
            final(self).bits@ == old(self).bits@,
            final(self).pos >= old(self).pos,
            match rd_uint(old(self).bits@, old(self).pos as int, n as nat) {
                Some((v, p)) => r == Some(v as u32) && v < pow2(n as nat) && final(self).pos == p,
                None => r is None && final(self).pos == old(self).pos,
            },
    {
        if n > self.bits.len() - self.pos {
            return None;
        }
        let ghost start = self.pos as int;
        let mut v: u64 = 0;
        let mut p: u64 = 1;
        let mut k: usize = 0;
        proof {
            lemma2_to64();
            assert(self.bits@.subrange(start, start) =~= Seq::<bool>::empty());
        }
        while k < n
            invariant
                self.wf(),
                start == self.pos,
                n <= 32,
                k <= n,
                self.pos + n <= self.bits@.len(),
                self.bits@.len() <= usize::MAX,
                p == pow2(k as nat),
                v == uint_of(self.bits@.subrange(start, start + k)),
            decreases n - k,
        {
            proof {
                lemma_uint_bound(self.bits@.subrange(start, start + k));
                lemma2_to64();
                if k < 32 {
                    lemma_pow2_strictly_increases(k as nat, 32);
                }
                lemma_pow2_unfold((k + 1) as nat);
                let s = self.bits@.subrange(start, start + k + 1);
                assert(s.drop_last() =~= self.bits@.subrange(start, start + k));
                assert(s.last() == self.bits@[start + k]);
            }
            if self.bits[self.pos + k] {
                v = v + p;
            }
            p = p * 2;
            k = k + 1;
        }
        proof {
            lemma_uint_bound(self.bits@.subrange(start, start + n));
        }
        self.pos = self.pos + n;
        Some(v as u32)
    }

    /// Reads one bit as a flag.
    pub fn read_bool(&mut self) -> (r: Option<bool>)
        requires
            old(self).wf(),
        ensures
            final(self).wf(),
            final(self).bits@ == old(self).bits@,
            final(self).pos >= old(self).pos,
            match rd_uint(old(self).bits@, old(self).pos as int, 1) {
                Some((v, p)) => r == Some(v == 1) && final(self).pos == p,
                None => r is None && final(self).pos == old(self).pos,
            },
    {
        proof {
            lemma2_to64();
        }
        match self.read_uint(1) {
            Some(v) => Some(v == 1),
            None => None,
        }
    }

    /// Reads one byte.
    pub fn read_byte(&mut self) -> (r: Option<u8>)
        requires
            old(self).wf(),
        ensures
            final(self).wf(),
            final(self).bits@ == old(self).bits@,
            final(self).pos >= old(self).pos,
            old(self).pos + 8 <= old(self).bits@.len() ==> r == Some(byte_at(old(self).bits@, old(self).pos as int))
                && final(self).pos == old(self).pos + 8,
            old(self).pos + 8 > old(self).bits@.len() ==> r is None && final(self).pos == old(self).pos,
    {
        proof {
            lemma2_to64();
        }
        match self.read_uint(8) {
            Some(v) => Some(v as u8),
            None => None,
        }
    }

    /// Reads `n` bytes.
    pub fn read_bytes(&mut self, n: usize) -> (r: Option<Vec<u8>>)
        requires
            old(self).wf(),
        ensures
            final(self).wf(),
            final(self).bits@ == old(self).bits@,
            final(self).pos >= old(self).pos,
            match rd_bytes(old(self).bits@, old(self).pos as int, n as nat) {
                Some((b, p)) => r matches Some(v) && v@ == b && final(self).pos == p,
                None => r is None && final(self).pos == old(self).pos,
            },
    {
        let left = self.bits.len() - self.pos;
        if n > left / 8 {
            return None;
        }
        let ghost start = self.pos as int;
        let mut out: Vec<u8> = Vec::new();
        let mut j: usize = 0;
        while j < n
            invariant
                self.wf(),
                j <= n,
                start + 8 * n <= self.bits@.len(),
                self.pos == start + 8 * j,
                self.bits@ == old(self).bits@,
                start == old(self).pos,
                out@ =~= Seq::new(j as nat, |i: int| byte_at(self.bits@, start + 8 * i)),
            decreases n - j,
        {
            let b = self.read_byte();
            out.push(b.unwrap());
            j = j + 1;
        }
        Some(out)
    }

    /// Reads a NUL-terminated byte string and returns its bytes without the NUL.
    pub fn read_cstring(&mut self) -> (r: Option<Vec<u8>>)
        requires
            old(self).wf(),
        ensures
            final(self).wf(),
            final(self).bits@ == old(self).bits@,
            final(self).pos >= old(self).pos,
            match rd_cstring(old(self).bits@, old(self).pos as int) {
                Some((b, p)) => r matches Some(v) && v@ == b && final(self).pos == p,
                None => r is None && final(self).pos == old(self).pos,
            },
    {
        let start = self.pos;
        let mut out: Vec<u8> = Vec::new();
        loop
            invariant
                self.wf(),
                self.bits@ == old(self).bits@,
                start == old(self).pos,
                start <= self.pos,
                rd_cstring(self.bits@, start as int) == cstring_from(self.bits@, self.pos as int, out@),
            decreases self.bits@.len() - self.pos,
        {
            match self.read_byte() {
                None => {
                    self.pos = start;
                    return None;
                },
                Some(b) => {
                    if b == 0 {
                        return Some(out);
                    }
                    out.push(b);
                },
            }
        }
    }
}

/// Reads a base-128 varint over the bit stream, 8 bits at a time whatever the
/// alignment. `None`, with the cursor where it was, when the stream ends first, more
/// than ten groups would be needed, or the value does not fit a `usize`.
pub fn read_varint(reader: &mut BitReader) -> (r: Option<usize>)
    requires
        old(reader).wf(),
    ensures
        final(reader).wf(),
        final(reader).bits@ == old(reader).bits@,
        match rd_varint(old(reader).bits@, old(reader).pos as int) {
            Some((v, p)) => if v <= usize::MAX {
                r == Some(v as usize) && final(reader).pos == p
            } else {
                r is None && final(reader).pos == old(reader).pos
            },
            None => r is None && final(reader).pos == old(reader).pos,
        },
{
    let start = reader.pos;
    let mut result: u128 = 0;
    let mut count: usize = 0;
    proof {
        lemma2_to64();
        vstd::arithmetic::power2::lemma2_to64_rest();
        vstd::arithmetic::power2::lemma_pow2_adds(64, 6);
    }
    loop
        invariant
            reader.wf(),
            reader.bits@ == old(reader).bits@,
            start == old(reader).pos,
            reader.pos == start + 8 * count,
            count <= VARINT_MAX_GROUPS,
            result < pow2(7 * count as nat),
            pow2(70) == pow2(64) * pow2(6),
            pow2(64) == 0x1_0000_0000_0000_0000,
            pow2(6) == 64,
            rd_varint(reader.bits@, start as int) == varint_from(reader.bits@, reader.pos as int, result as nat, count as nat),
        decreases VARINT_MAX_GROUPS - count,
    {
        if count == VARINT_MAX_GROUPS {
            reader.pos = start;
            return None;
        }
        let g = match reader.read_byte() {
            Some(g) => g,
            None => {
                reader.pos = start;
                return None;
            },
        };
        proof {
            lemma_pow2_pos(7 * count as nat);
            lemma_pow2_strictly_increases(7 * count as nat, 64);
            if count + 1 < VARINT_MAX_GROUPS {
                lemma_pow2_strictly_increases(7 * (count + 1) as nat, 70);
            }
            assert((g % 128) as nat * pow2(7 * count as nat) <= 127 * pow2(7 * count as nat)) by (nonlinear_arith)
                requires g % 128 <= 127, pow2(7 * count as nat) > 0;
            assert(pow2(7 * (count + 1) as nat) == 128 * pow2(7 * count as nat)) by {
                vstd::arithmetic::power2::lemma_pow2_adds(7 * count as nat, 7);
                lemma2_to64();
            }
        }
        let part: u128 = (g % 128) as u128 * pow2_u64(7 * count) as u128;
        result = result + part;
        count = count + 1;
        if g < 128 {
            if result > usize::MAX as u128 {
                reader.pos = start;
                return None;
            }
            return Some(result as usize);
        }
    }
}

/// `2` to the power `e`, for `e < 64`.
fn pow2_u64(e: usize) -> (r: u64)
    requires
        e < 64,
    ensures
        r == pow2(e as nat),
{
    let mut r: u64 = 1;
    let mut i: usize = 0;
    proof {
        lemma2_to64();
    }
    while i < e
        invariant
            i <= e,
            e < 64,
            r == pow2(i as nat),
        decreases e - i,
    {
        proof {
            lemma_pow2_unfold((i + 1) as nat);
            lemma_pow2_strictly_increases((i + 1) as nat, 64);
            vstd::arithmetic::power2::lemma2_to64_rest();
        }
        r = r * 2;
        i = i + 1;
    }
    r
}

/// An append-only stream of bits.
pub struct BitWriter {
    pub bits: Vec<bool>,
}

impl BitWriter {
    pub fn new() -> (r: BitWriter)
        ensures
            r.bits@ == Seq::<bool>::empty(),
    {
        BitWriter { bits: Vec::new() }
    }

    /// Appends the `n` low bits of `v`, least significant first.
    pub fn write_uint(&mut self, v: u32, n: usize)
        requires
            n <= 32,
        ensures
            final(self).bits@ == old(self).bits@ + uint_bits(v as nat, n as nat),
    {
        let mut p: u64 = 1;
        let mut k: usize = 0;
        proof {
            lemma2_to64();
        }
        while k < n
            invariant
                k <= n,
                n <= 32,
                p == pow2(k as nat),
                self.bits@ =~= old(self).bits@ + uint_bits(v as nat, k as nat),
            decreases n - k,
        {
            proof {
                lemma_pow2_pos(k as nat);
                lemma2_to64();
                if k < 32 {
                    lemma_pow2_strictly_increases(k as nat, 32);
                }
                lemma_pow2_unfold((k + 1) as nat);
            }
            let bit = (v as u64 / p) % 2 == 1;
            self.bits.push(bit);
            p = p * 2;
            k = k + 1;
        }
    }

    /// Appends the bytes of `s` and a NUL.
    pub fn write_cstring(&mut self, s: &[u8])
        ensures
            final(self).bits@ == old(self).bits@ + cstring_bits(s@),
    {
        let mut i: usize = 0;
        proof {
            assert(s@.subrange(0, s@.len() as int) =~= s@);
        }
        while i < s.len()
            invariant
                i <= s@.len(),
                self.bits@ + cstring_bits(s@.subrange(i as int, s@.len() as int))
                    == old(self).bits@ + cstring_bits(s@),
            decreases s@.len() - i,
        {
            proof {
                let rest = s@.subrange(i as int, s@.len() as int);
                assert(rest.drop_first() =~= s@.subrange(i + 1, s@.len() as int));
            }
            let ghost before = self.bits@;
            self.write_uint(s[i] as u32, 8);
            proof {
                let rest = s@.subrange(i as int, s@.len() as int);
                assert(before + (uint_bits(s@[i as int] as nat, 8) + cstring_bits(rest.drop_first()))
                    =~= self.bits@ + cstring_bits(rest.drop_first()));
            }
            i = i + 1;
        }
        proof {
            assert(s@.subrange(s@.len() as int, s@.len() as int) =~= Seq::<u8>::empty());
        }
        self.write_uint(0, 8);
    }

    /// The written bits as bytes, the last one filled up with zero bits.
    pub fn finish(&self) -> (r: Vec<u8>)
        ensures
            is_packing(r@, self.bits@),
    {
        pack_bits(&self.bits)
    }
}

} // verus!
