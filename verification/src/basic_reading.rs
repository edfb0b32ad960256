use crate::hashing::Sha256Hasher;
use vstd::prelude::*;

verus! {

/// The error of a read that asks for more bytes than are left.
#[derive(Debug, Clone, Copy, PartialEq, Eq)]
pub enum ReadError {
    UnexpectedEof,
}

/// A reader over bytes held in memory. Its view is the sequence of bytes
/// that have not been read yet.
#[derive(Debug)]
pub struct ByteReader {
    data: Vec<u8>,
    pos: usize,
}

impl View for ByteReader {
    type V = Seq<u8>;

    closed spec fn view(&self) -> Seq<u8> {
        self.data@.subrange(self.pos as int, self.data@.len() as int)
    }
}

impl ByteReader {
    #[verifier::type_invariant]
    spec fn wf(&self) -> bool {
        self.pos <= self.data@.len()
    }

    /// A reader positioned at the first byte of `data`.
    pub fn new(data: Vec<u8>) -> (r: Self)
        ensures
            r@ == data@,
    {
        let r = ByteReader { data, pos: 0 };
        assert(r@ =~= r.data@);
        r
    }

    /// The number of bytes not read yet.
    pub fn remaining_len(&self) -> (n: usize)
        ensures
            n == self@.len(),
    {
        proof {
            use_type_invariant(self);
        }
        self.data.len() - self.pos
    }

    /// Reads exactly `n` bytes. Fails, reading nothing, where fewer than
    /// `n` bytes are left.
    pub fn read_exact(&mut self, n: usize) -> (r: Result<Vec<u8>, ReadError>)
        ensures
            match r {
                Ok(b) => {
                    &&& n <= old(self)@.len()
                    &&& b@ == old(self)@.take(n as int)
                    &&& final(self)@ == old(self)@.skip(n as int)
                },
                Err(_) => {
                    &&& old(self)@.len() < n
                    &&& final(self)@ == old(self)@
                },
            },
    {
        proof {
            use_type_invariant(&*self);
        }
        if n > self.data.len() - self.pos {
            return Err(ReadError::UnexpectedEof);
        }
        let ghost before = self@;
        let mut out: Vec<u8> = Vec::new();
        let mut i: usize = 0;
        while i < n
            invariant
                self.pos + n <= self.data@.len(),
                self.data@.len() <= usize::MAX,
                0 <= i <= n,
                out@ == self.data@.subrange(self.pos as int, self.pos + i),
            decreases n - i,
        {
            out.push(self.data[self.pos + i]);
            i = i + 1;
            assert(out@ =~= self.data@.subrange(self.pos as int, self.pos + i));
        }
        self.pos = self.pos + n;
        assert(out@ =~= before.take(n as int));
        assert(self@ =~= before.skip(n as int));
        Ok(out)
    }
}


/// The unsigned integer whose little-endian bytes are `s`.
pub open spec fn le_value(s: Seq<u8>) -> nat
    decreases s.len(),
{
    if s.len() == 0 {
        0
    } else {
        s[0] as nat + 256 * le_value(s.drop_first())
    }
}

/// A single byte is its own little-endian value.
pub proof fn lemma_le_value_1(s: Seq<u8>)
    requires
        s.len() == 1,
    ensures
        le_value(s) == s[0] as nat,
{
    reveal_with_fuel(le_value, 2);
}

/// The little-endian value of two bytes: the first, plus 256 times the
/// second.
pub proof fn lemma_le_value_2(s: Seq<u8>)
    requires
        s.len() == 2,
    ensures
        le_value(s) == s[0] as nat + 256 * (s[1] as nat),
        le_value(s) <= u16::MAX,
{
    reveal_with_fuel(le_value, 3);
}

/// The little-endian value of four bytes: each byte counts 256 times as
/// much as the one before it, so that all of a u32 is kept.
pub proof fn lemma_le_value_4(s: Seq<u8>)
    requires
        s.len() == 4,
    ensures
        le_value(s) == s[0] as nat + 256 * (s[1] as nat) + 65536 * (s[2] as nat) + 16777216 * (
        s[3] as nat),
        le_value(s) <= u32::MAX,
{
    reveal_with_fuel(le_value, 5);
}

/// The little-endian value of eight bytes: that of the first four, plus
/// 2^32 times that of the last four, so that all of a u64 is kept.
pub proof fn lemma_le_value_8(s: Seq<u8>)
    requires
        s.len() == 8,
    ensures
        le_value(s) == le_value(s.take(4)) + 4294967296 * le_value(s.skip(4)),
        le_value(s) <= u64::MAX,
{
    reveal_with_fuel(le_value, 9);
    lemma_le_value_4(s.take(4));
    lemma_le_value_4(s.skip(4));
}

/// `256` to the power `n`.
pub open spec fn pow256(n: nat) -> nat
    decreases n,
{
    if n == 0 {
        1
    } else {
        256 * pow256((n - 1) as nat)
    }
}

/// The bytes that a reader went past between the views `before` and `after`.
pub open spec fn consumed(before: Seq<u8>, after: Seq<u8>) -> Seq<u8> {
    before.take(before.len() - after.len())
}

/// The view `after` is what is left of `before` once some bytes are read.
pub open spec fn is_suffix_after_read(before: Seq<u8>, after: Seq<u8>) -> bool {
    &&& after.len() <= before.len()
    &&& after == before.skip(before.len() - after.len())
}

proof fn lemma_le_value_bound(s: Seq<u8>)
    ensures
        le_value(s) < pow256(s.len()),
    decreases s.len(),
{
    if s.len() > 0 {
        lemma_le_value_bound(s.drop_first());
    }
}

proof fn lemma_pow256_monotonic(a: nat, b: nat)
    requires
        a <= b,
    ensures
        pow256(a) <= pow256(b),
    decreases b,
{
    if a < b {
        lemma_pow256_monotonic(a, (b - 1) as nat);
    }
}

/// The little-endian value of `bytes`, for at most eight bytes.
fn decode_le(bytes: &Vec<u8>) -> (v: u64)
    requires
        bytes@.len() <= 8,
    ensures
        v == le_value(bytes@),
{
    let len = bytes.len();
    let mut v: u64 = 0;
    let mut i: usize = len;
    assert(bytes@.subrange(len as int, len as int) =~= Seq::<u8>::empty());
    while i > 0
        invariant
            len == bytes@.len(),
            len <= 8,
            i <= len,
            v == le_value(bytes@.subrange(i as int, len as int)),
        decreases i,
    {
        proof {
            lemma_le_value_bound(bytes@.subrange(i as int, len as int));
            lemma_pow256_monotonic((len - i) as nat, 7);
            reveal_with_fuel(pow256, 8);
            assert(bytes@.subrange(i - 1, len as int).drop_first() =~= bytes@.subrange(
                i as int,
                len as int,
            ));
        }
        v = v * 256 + bytes[i - 1] as u64;
        i = i - 1;
    }
    assert(bytes@.subrange(0, len as int) =~= bytes@);
    v
}

/// Shared body of the fixed-width readers: `n` bytes, read as a
/// little-endian integer.
fn read_le_n(reader: &mut ByteReader, n: usize) -> (r: Result<u64, ReadError>)
    requires
        n <= 8,
    ensures
        match r {
            Ok(v) => {
                &&& n <= old(reader)@.len()
                &&& v == le_value(old(reader)@.take(n as int))
                &&& final(reader)@ == old(reader)@.skip(n as int)
            },
            Err(e) => {
                &&& old(reader)@.len() < n
                &&& final(reader)@ == old(reader)@
                &&& e == ReadError::UnexpectedEof
            },
        },
{
    match reader.read_exact(n) {
        Ok(buffer) => Ok(decode_le(&buffer)),
        Err(e) => Err(e),
    }
}

/// Reads one byte.
pub fn read_le_u8(reader: &mut ByteReader) -> (r: Result<u8, ReadError>)
    ensures
        match r {
            Ok(v) => {
                &&& 1 <= old(reader)@.len()
                &&& v == old(reader)@[0]
                &&& final(reader)@ == old(reader)@.skip(1)
            },
            Err(e) => {
                &&& old(reader)@.len() < 1
                &&& final(reader)@ == old(reader)@
                &&& e == ReadError::UnexpectedEof
            },
        },
{
    let r = read_le_n(reader, 1);
    match r {
        Ok(v) => {
            proof {
                let t = old(reader)@.take(1);
                assert(t.drop_first() =~= Seq::<u8>::empty());
                assert(le_value(t.drop_first()) == 0);
                assert(le_value(t) == t[0]);
            }
            Ok(v as u8)
        },
        Err(e) => Err(e),
    }
}

/// Reads a 16-bit unsigned integer stored little-endian.
pub fn read_le_u16(reader: &mut ByteReader) -> (r: Result<u16, ReadError>)
    ensures
        match r {
            Ok(v) => {
                &&& 2 <= old(reader)@.len()
                &&& v == le_value(old(reader)@.take(2))
                &&& final(reader)@ == old(reader)@.skip(2)
            },
            Err(e) => {
                &&& old(reader)@.len() < 2
                &&& final(reader)@ == old(reader)@
                &&& e == ReadError::UnexpectedEof
            },
        },
{
    match read_le_n(reader, 2) {
        Ok(v) => {
            proof {
                lemma_le_value_bound(old(reader)@.take(2));
                reveal_with_fuel(pow256, 3);
            }
            Ok(v as u16)
        },
        Err(e) => Err(e),
    }
}

/// Reads a 32-bit unsigned integer stored little-endian.
pub fn read_le_u32(reader: &mut ByteReader) -> (r: Result<u32, ReadError>)
    ensures
        match r {
            Ok(v) => {
                &&& 4 <= old(reader)@.len()
                &&& v == le_value(old(reader)@.take(4))
                &&& final(reader)@ == old(reader)@.skip(4)
            },
            Err(e) => {
                &&& old(reader)@.len() < 4
                &&& final(reader)@ == old(reader)@
                &&& e == ReadError::UnexpectedEof
            },
        },
{
    match read_le_n(reader, 4) {
        Ok(v) => {
            proof {
                lemma_le_value_bound(old(reader)@.take(4));
                reveal_with_fuel(pow256, 5);
            }
            Ok(v as u32)
        },
        Err(e) => Err(e),
    }
}

/// Reads a 64-bit unsigned integer stored little-endian.
pub fn read_le_u64(reader: &mut ByteReader) -> (r: Result<u64, ReadError>)
    ensures
        match r {
            Ok(v) => {
                &&& 8 <= old(reader)@.len()
                &&& v == le_value(old(reader)@.take(8))
                &&& final(reader)@ == old(reader)@.skip(8)
            },
            Err(e) => {
                &&& old(reader)@.len() < 8
                &&& final(reader)@ == old(reader)@
                &&& e == ReadError::UnexpectedEof
            },
        },
{
    read_le_n(reader, 8)
}

/// How many bytes follow a variable-length integer's first byte `prefix`:
/// eight after `0xff`, four after `0xfe`, two after `0xfd`, none otherwise.
pub open spec fn varint_payload_len(prefix: u8) -> nat {
    if prefix == 0xff {
        8
    } else if prefix == 0xfe {
        4
    } else if prefix == 0xfd {
        2
    } else {
        0
    }
}

/// The value of a variable-length integer whose first byte `prefix` was
/// already read and whose other bytes start `s`, with the number of bytes of
/// `s` that it takes; `None` where `s` is too short.
pub open spec fn spec_varint_with_prefix(prefix: u8, s: Seq<u8>) -> Option<(nat, nat)> {
    let k = varint_payload_len(prefix);
    if k == 0 {
        Some((prefix as nat, 0))
    } else if s.len() < k {
        None
    } else {
        Some((le_value(s.take(k as int)), k))
    }
}

/// The value of the variable-length integer that starts `s`, with the number
/// of bytes it takes; `None` where `s` is too short.
pub open spec fn spec_varint(s: Seq<u8>) -> Option<(nat, nat)> {
    if s.len() == 0 {
        None
    } else {
        match spec_varint_with_prefix(s[0], s.drop_first()) {
            Some((v, k)) => Some((v, k + 1)),
            None => None,
        }
    }
}

/// A variable-length integer whose first byte is below `0xfd` is that byte
/// alone; after `0xfd`, `0xfe` or `0xff` it is the little-endian u16, u32 or
/// u64 that follows, and there is none where those bytes are missing.
pub proof fn lemma_varint_values(s: Seq<u8>)
    requires
        s.len() > 0,
    ensures
        s[0] < 0xfd ==> spec_varint(s) == Some((s[0] as nat, 1nat)),
        s[0] == 0xfd ==> spec_varint(s) == if s.len() < 3 {
            None
        } else {
            Some((le_value(s.subrange(1, 3)), 3nat))
        },
        s[0] == 0xfe ==> spec_varint(s) == if s.len() < 5 {
            None
        } else {
            Some((le_value(s.subrange(1, 5)), 5nat))
        },
        s[0] == 0xff ==> spec_varint(s) == if s.len() < 9 {
            None
        } else {
            Some((le_value(s.subrange(1, 9)), 9nat))
        },
        spec_varint(s) matches Some((v, k)) ==> k <= s.len() && v <= u64::MAX,
{
    let r = s.drop_first();
    if s.len() >= 3 {
        assert(r.take(2) =~= s.subrange(1, 3));
        lemma_le_value_2(s.subrange(1, 3));
    }
    if s.len() >= 5 {
        assert(r.take(4) =~= s.subrange(1, 5));
        lemma_le_value_4(s.subrange(1, 5));
    }
    if s.len() >= 9 {
        assert(r.take(8) =~= s.subrange(1, 9));
        lemma_le_value_8(s.subrange(1, 9));
    }
}

/// How many bytes reading a variable-length integer from `s` goes past,
/// whatever it comes to: the first byte, and the rest where it can be read.
pub open spec fn spec_varint_read_len(s: Seq<u8>) -> int {
    if s.len() == 0 {
        0
    } else {
        match spec_varint(s) {
            Some((_, k)) => k as int,
            None => 1,
        }
    }
}

/// Reads the rest of a variable-length integer whose first byte `prefix` was
/// read already: a little-endian u64, u32 or u16 after `0xff`, `0xfe` or
/// `0xfd`, and otherwise nothing, the value being `prefix` itself.
pub fn read_varint_with_prefix(prefix: u8, reader: &mut ByteReader) -> (r: Result<u64, ReadError>)
    ensures
        match r {
            Ok(v) => spec_varint_with_prefix(prefix, old(reader)@) matches Some((val, k)) && v
                == val && final(reader)@ == old(reader)@.skip(k as int),
            Err(e) => {
                &&& spec_varint_with_prefix(prefix, old(reader)@) is None
                &&& final(reader)@ == old(reader)@
                &&& e == ReadError::UnexpectedEof
            },
        },
{
    if prefix == 0xff {
        read_le_u64(reader)
    } else if prefix == 0xfe {
        match read_le_u32(reader) {
            Ok(v) => Ok(v as u64),
            Err(e) => Err(e),
        }
    } else if prefix == 0xfd {
        match read_le_u16(reader) {
            Ok(v) => Ok(v as u64),
            Err(e) => Err(e),
        }
    } else {
        assert(old(reader)@.skip(0) =~= old(reader)@);
        Ok(prefix as u64)
    }
}

/// Reads a variable-length integer (Bitcoin's "CompactSize"): one byte, and
/// then whatever `read_varint_with_prefix` reads after it.
pub fn read_varint(reader: &mut ByteReader) -> (r: Result<u64, ReadError>)
    ensures
        match r {
            Ok(v) => spec_varint(old(reader)@) matches Some((val, k)) && v == val
                && final(reader)@ == old(reader)@.skip(k as int),
            Err(e) => {
                &&& spec_varint(old(reader)@) is None
                &&& final(reader)@ == old(reader)@.skip(
                    if old(reader)@.len() == 0 {
                        0
                    } else {
                        1
                    },
                )
                &&& e == ReadError::UnexpectedEof
            },
        },
{
    let prefix = read_le_u8(reader)?;
    let ghost mid = reader@;
    assert(mid =~= old(reader)@.drop_first());
    let r = read_varint_with_prefix(prefix, reader);
    proof {
        if let Ok(v) = r {
            let k = spec_varint_with_prefix(prefix, mid).unwrap().1;
            assert(reader@ =~= old(reader)@.skip(k + 1 as int));
        }
    }
    r
}

/// The sequences `z` and `z2` hold the same first `k` bytes.
pub open spec fn agree(z: Seq<u8>, z2: Seq<u8>, k: int) -> bool {
    &&& 0 <= k <= z.len()
    &&& k <= z2.len()
    &&& forall|i: int| 0 <= i < k ==> #[trigger] z[i] == z2[i]
}

/// Sequences that agree on their first `k` bytes agree on those of any
/// part of them that lies within.
pub proof fn lemma_agree_subrange(z: Seq<u8>, z2: Seq<u8>, k: int, i: int, j: int)
    requires
        agree(z, z2, k),
        0 <= i <= j <= k,
    ensures
        z.subrange(i, j) == z2.subrange(i, j),
        agree(z.skip(i), z2.skip(i), k - i),
{
    assert(z.subrange(i, j) =~= z2.subrange(i, j));
    assert forall|t: int| 0 <= t < k - i implies #[trigger] z.skip(i)[t] == z2.skip(i)[t] by {
        assert(z[i + t] == z2[i + t]);
    }
}

/// A variable-length integer is read from the bytes it takes alone.
pub proof fn lemma_varint_local(z: Seq<u8>, z2: Seq<u8>)
    ensures
        spec_varint(z) matches Some((v, k)) ==> k <= z.len() && (agree(z, z2, k as int)
            ==> spec_varint(z2) == spec_varint(z)),
{
    if let Some((v, k)) = spec_varint(z) {
        if agree(z, z2, k as int) {
            assert(z[0] == z2[0]);
            let n = varint_payload_len(z[0]) as int;
            lemma_agree_subrange(z, z2, k as int, 1, 1 + n);
            assert(z.drop_first().take(n) =~= z.subrange(1, 1 + n));
            assert(z2.drop_first().take(n) =~= z2.subrange(1, 1 + n));
        }
    }
}

// The readers below also feed every byte they read to a hasher: they return
// what the plain readers return, and the hasher absorbs exactly the bytes
// that the reader went past.

fn read_le_n_hash(reader: &mut ByteReader, n: usize, hasher: &mut Sha256Hasher) -> (r: Result<
    u64,
    ReadError,
>)
    requires
        n <= 8,
    ensures
        match r {
            Ok(v) => {
                &&& n <= old(reader)@.len()
                &&& v == le_value(old(reader)@.take(n as int))
                &&& final(reader)@ == old(reader)@.skip(n as int)
            },
            Err(e) => {
                &&& old(reader)@.len() < n
                &&& final(reader)@ == old(reader)@
                &&& e == ReadError::UnexpectedEof
            },
        },
        final(hasher)@ == old(hasher)@ + consumed(old(reader)@, final(reader)@),
{
    match reader.read_exact(n) {
        Ok(buffer) => {
            hasher.update(buffer.as_slice());
            Ok(decode_le(&buffer))
        },
        Err(e) => {
            assert(consumed(old(reader)@, reader@) =~= Seq::<u8>::empty());
            assert(hasher@ =~= old(hasher)@ + Seq::<u8>::empty());
            Err(e)
        },
    }
}

/// `read_le_u8`, feeding the byte read to `hasher`.
pub fn read_le_u8_hash(reader: &mut ByteReader, hasher: &mut Sha256Hasher) -> (r: Result<
    u8,
    ReadError,
>)
    ensures
        match r {
            Ok(v) => {
                &&& 1 <= old(reader)@.len()
                &&& v == old(reader)@[0]
                &&& final(reader)@ == old(reader)@.skip(1)
            },
            Err(e) => {
                &&& old(reader)@.len() < 1
                &&& final(reader)@ == old(reader)@
                &&& e == ReadError::UnexpectedEof
            },
        },
        final(hasher)@ == old(hasher)@ + consumed(old(reader)@, final(reader)@),
{
    let r = read_le_n_hash(reader, 1, hasher);
    match r {
        Ok(v) => {
            proof {
                let t = old(reader)@.take(1);
                assert(t.drop_first() =~= Seq::<u8>::empty());
                assert(le_value(t.drop_first()) == 0);
                assert(le_value(t) == t[0]);
            }
            Ok(v as u8)
        },
        Err(e) => Err(e),
    }
}

/// `read_le_u16`, feeding the bytes read to `hasher`.
pub fn read_le_u16_hash(reader: &mut ByteReader, hasher: &mut Sha256Hasher) -> (r: Result<
    u16,
    ReadError,
>)
    ensures
        match r {
            Ok(v) => {
                &&& 2 <= old(reader)@.len()
                &&& v == le_value(old(reader)@.take(2))
                &&& final(reader)@ == old(reader)@.skip(2)
            },
            Err(e) => {
                &&& old(reader)@.len() < 2
                &&& final(reader)@ == old(reader)@
                &&& e == ReadError::UnexpectedEof
            },
        },
        final(hasher)@ == old(hasher)@ + consumed(old(reader)@, final(reader)@),
{
    match read_le_n_hash(reader, 2, hasher) {
        Ok(v) => {
            proof {
                lemma_le_value_bound(old(reader)@.take(2));
                reveal_with_fuel(pow256, 3);
            }
            Ok(v as u16)
        },
        Err(e) => Err(e),
    }
}

/// `read_le_u32`, feeding the bytes read to `hasher`.
pub fn read_le_u32_hash(reader: &mut ByteReader, hasher: &mut Sha256Hasher) -> (r: Result<
    u32,
    ReadError,
>)
    ensures
        match r {
            Ok(v) => {
                &&& 4 <= old(reader)@.len()
                &&& v == le_value(old(reader)@.take(4))
                &&& final(reader)@ == old(reader)@.skip(4)
            },
            Err(e) => {
                &&& old(reader)@.len() < 4
                &&& final(reader)@ == old(reader)@
                &&& e == ReadError::UnexpectedEof
            },
        },
        final(hasher)@ == old(hasher)@ + consumed(old(reader)@, final(reader)@),
{
    match read_le_n_hash(reader, 4, hasher) {
        Ok(v) => {
            proof {
                lemma_le_value_bound(old(reader)@.take(4));
                reveal_with_fuel(pow256, 5);
            }
            Ok(v as u32)
        },
        Err(e) => Err(e),
    }
}

/// `read_le_u64`, feeding the bytes read to `hasher`.
pub fn read_le_u64_hash(reader: &mut ByteReader, hasher: &mut Sha256Hasher) -> (r: Result<
    u64,
    ReadError,
>)
    ensures
        match r {
            Ok(v) => {
                &&& 8 <= old(reader)@.len()
                &&& v == le_value(old(reader)@.take(8))
                &&& final(reader)@ == old(reader)@.skip(8)
            },
            Err(e) => {
                &&& old(reader)@.len() < 8
                &&& final(reader)@ == old(reader)@
                &&& e == ReadError::UnexpectedEof
            },
        },
        final(hasher)@ == old(hasher)@ + consumed(old(reader)@, final(reader)@),
{
    read_le_n_hash(reader, 8, hasher)
}

/// `read_varint_with_prefix`, feeding the bytes read to `hasher` (the prefix
/// itself, read before, is not fed here).
pub fn read_varint_with_prefix_hash(
    prefix: u8,
    reader: &mut ByteReader,
    hasher: &mut Sha256Hasher,
) -> (r: Result<u64, ReadError>)
    ensures
        match r {
            Ok(v) => spec_varint_with_prefix(prefix, old(reader)@) matches Some((val, k)) && v
                == val && final(reader)@ == old(reader)@.skip(k as int),
            Err(e) => {
                &&& spec_varint_with_prefix(prefix, old(reader)@) is None
                &&& final(reader)@ == old(reader)@
                &&& e == ReadError::UnexpectedEof
            },
        },
        final(hasher)@ == old(hasher)@ + consumed(old(reader)@, final(reader)@),
{
    if prefix == 0xff {
        read_le_u64_hash(reader, hasher)
    } else if prefix == 0xfe {
        match read_le_u32_hash(reader, hasher) {
            Ok(v) => Ok(v as u64),
            Err(e) => Err(e),
        }
    } else if prefix == 0xfd {
        match read_le_u16_hash(reader, hasher) {
            Ok(v) => Ok(v as u64),
            Err(e) => Err(e),
        }
    } else {
        assert(old(reader)@.skip(0) =~= old(reader)@);
        assert(consumed(old(reader)@, reader@) =~= Seq::<u8>::empty());
        assert(hasher@ =~= old(hasher)@ + Seq::<u8>::empty());
        Ok(prefix as u64)
    }
}

/// `read_varint`, feeding every byte read, the first one included, to
/// `hasher`.
pub fn read_varint_hash(reader: &mut ByteReader, hasher: &mut Sha256Hasher) -> (r: Result<
    u64,
    ReadError,
>)
    ensures
        match r {
            Ok(v) => spec_varint(old(reader)@) matches Some((val, k)) && v == val
                && final(reader)@ == old(reader)@.skip(k as int),
            Err(e) => {
                &&& spec_varint(old(reader)@) is None
                &&& final(reader)@ == old(reader)@.skip(
                    if old(reader)@.len() == 0 {
                        0
                    } else {
                        1
                    },
                )
                &&& e == ReadError::UnexpectedEof
            },
        },
        final(hasher)@ == old(hasher)@ + consumed(old(reader)@, final(reader)@),
{
    let prefix = read_le_u8_hash(reader, hasher)?;
    let ghost mid = reader@;
    let ghost mid_h = hasher@;
    assert(mid =~= old(reader)@.drop_first());
    let r = read_varint_with_prefix_hash(prefix, reader, hasher);
    proof {
        let k = old(reader)@.len() - reader@.len();
        assert(mid_h =~= old(hasher)@ + old(reader)@.take(1));
        assert(reader@ =~= old(reader)@.skip(k));
        assert(old(reader)@.take(k) =~= old(reader)@.take(1) + mid.take(k - 1));
        assert(hasher@ =~= old(hasher)@ + consumed(old(reader)@, reader@));
    }
    r
}

} // verus!
