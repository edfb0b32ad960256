use crate::basic_reading::{
    agree, consumed, is_suffix_after_read, le_value, lemma_agree_subrange, lemma_le_value_1,
    lemma_le_value_2, lemma_le_value_4, read_le_u16_hash,
    read_le_u32_hash, read_le_u8_hash, ByteReader, ReadError,
};
use crate::errors::Failure;
use crate::hashing::Sha256Hasher;
use vstd::prelude::*;

verus! {

/// One item of a script: a push of data, or any other opcode, kept as its
/// byte.
#[derive(Debug, PartialEq, Eq)]
pub enum OPCode {
    Data(Vec<u8>),
    Op(u8),
}

/// The view of an `OPCode`.
pub enum SpecOp {
    Data(Seq<u8>),
    Op(u8),
}

impl View for OPCode {
    type V = SpecOp;

    open spec fn view(&self) -> SpecOp {
        match self {
            OPCode::Data(d) => SpecOp::Data(d@),
            OPCode::Op(b) => SpecOp::Op(*b),
        }
    }
}

/// The opcode that a byte other than a push of data stands for.
pub fn byte_to_opcode(byte: u8) -> (op: OPCode)
    ensures
        op@ == SpecOp::Op(byte),
{
    OPCode::Op(byte)
}

/// A script, as the sequence of its opcodes.
#[derive(Debug, PartialEq, Eq)]
pub struct BitcoinScript {
    pub opcodes: Vec<OPCode>,
}

impl View for BitcoinScript {
    type V = Seq<SpecOp>;

    open spec fn view(&self) -> Seq<SpecOp> {
        self.opcodes@.map_values(|o: OPCode| o@)
    }
}

/// Why the bytes of a script are refused.
#[derive(Debug, Clone, Copy, PartialEq, Eq)]
pub enum BitcoinScriptParseError {
    /// A push of data runs past the end of the script.
    TooLong,
}

/// How many bytes hold the size of the data that opcode `byte` pushes:
/// one, two and four for `OP_PUSHDATA1`, `2` and `4` (76, 77, 78); none for
/// the direct pushes 1 to 75, whose byte is the size.
pub open spec fn push_size_len(byte: u8) -> nat {
    if byte == 76 {
        1
    } else if byte == 77 {
        2
    } else if byte == 78 {
        4
    } else {
        0
    }
}

/// Reads the first opcode from the start of `s`, where `remaining` bytes
/// are left in the script: gives it with the number of bytes it takes.
pub open spec fn spec_script_step(s: Seq<u8>, remaining: nat) -> Result<(SpecOp, int), Failure> {
    if s.len() == 0 {
        Err(Failure::Eof)
    } else {
        let byte = s[0];
        let rem: int = remaining - 1;
        if 1 <= byte <= 78 {
            let h: int = push_size_len(byte) as int;
            if s.len() < 1 + h {
                Err(Failure::Eof)
            } else if rem < h {
                Err(Failure::LengthUnderflow)
            } else {
                let size: int = if h == 0 {
                    byte as int
                } else {
                    le_value(s.subrange(1, 1 + h)) as int
                };
                if rem - h < size {
                    Err(Failure::TooLong)
                } else if s.len() < 1 + h + size {
                    Err(Failure::Eof)
                } else {
                    Ok((SpecOp::Data(s.subrange(1 + h, 1 + h + size)), 1 + h + size))
                }
            }
        } else {
            Ok((SpecOp::Op(byte), 1))
        }
    }
}

/// The outcome of a whole script whose first opcodes `done` were read
/// already, where the rest comes to `rest`.
pub open spec fn after_prefix(done: Seq<SpecOp>, rest: Result<Seq<SpecOp>, Failure>) -> Result<
    Seq<SpecOp>,
    Failure,
> {
    match rest {
        Ok(ops) => Ok(done + ops),
        Err(e) => Err(e),
    }
}

/// Reads a script of `remaining` bytes from the start of `s`, opcode by
/// opcode; on success the opcodes take exactly `remaining` bytes. (A step
/// takes at least one byte and at most `remaining`: `lemma_step_len`.)
pub open spec fn spec_parse_script(s: Seq<u8>, remaining: nat) -> Result<Seq<SpecOp>, Failure>
    decreases remaining,
{
    if remaining == 0 {
        Ok(Seq::empty())
    } else {
        match spec_script_step(s, remaining) {
            Ok((op, k)) => if 1 <= k <= remaining {
                after_prefix(seq![op], spec_parse_script(s.skip(k), (remaining - k) as nat))
            } else {
                Err(Failure::Eof)
            },
            Err(e) => Err(e),
        }
    }
}

/// How many bytes reading the first opcode of `s` goes past, whatever it
/// comes to: the opcode's byte, the size of a push, and its data where they
/// can all be read (a read that fails takes nothing).
pub open spec fn spec_step_read_len(s: Seq<u8>, remaining: nat) -> int {
    if s.len() == 0 {
        0
    } else if 1 <= s[0] <= 78 && s.len() < 1 + push_size_len(s[0]) {
        1
    } else if 1 <= s[0] <= 78 {
        match spec_script_step(s, remaining) {
            Ok((_, k)) => k,
            Err(_) => 1 + push_size_len(s[0]) as int,
        }
    } else {
        1
    }
}

/// How many bytes reading a script of `remaining` bytes from `s` goes past,
/// whatever it comes to.
pub open spec fn spec_script_read_len(s: Seq<u8>, remaining: nat) -> int
    decreases remaining,
{
    if remaining == 0 {
        0
    } else {
        match spec_script_step(s, remaining) {
            Ok((op, k)) => if 1 <= k <= remaining {
                k + spec_script_read_len(s.skip(k), (remaining - k) as nat)
            } else {
                0
            },
            Err(_) => spec_step_read_len(s, remaining),
        }
    }
}

/// A step that reads an opcode takes at least one byte, and no more than
/// are left in the script or in `s`.
pub proof fn lemma_step_len(s: Seq<u8>, remaining: nat)
    requires
        remaining > 0,
    ensures
        spec_script_step(s, remaining) matches Ok((_, k)) ==> 1 <= k <= remaining && k <= s.len(),
{
}

/// The first opcode is read from the bytes it takes alone.
pub proof fn lemma_script_step_local(z: Seq<u8>, z2: Seq<u8>, remaining: nat)
    requires
        remaining > 0,
    ensures
        spec_script_step(z, remaining) matches Ok((op, k)) ==> (agree(z, z2, k)
            ==> spec_script_step(z2, remaining) == spec_script_step(z, remaining)),
{
    lemma_step_len(z, remaining);
    if let Ok((op, k)) = spec_script_step(z, remaining) {
        if agree(z, z2, k) {
            assert(z[0] == z2[0]);
            let byte = z[0];
            if 1 <= byte <= 78 {
                let h = push_size_len(byte) as int;
                lemma_agree_subrange(z, z2, k, 1, 1 + h);
                lemma_agree_subrange(z, z2, k, 1 + h, k);
            }
        }
    }
}

/// A script read in full takes exactly its length, and is read from those
/// bytes alone.
pub proof fn lemma_parse_script_local(z: Seq<u8>, z2: Seq<u8>, remaining: nat)
    ensures
        spec_parse_script(z, remaining) is Ok ==> remaining <= z.len() && (agree(
            z,
            z2,
            remaining as int,
        ) ==> spec_parse_script(z2, remaining) == spec_parse_script(z, remaining)),
    decreases remaining,
{
    if remaining > 0 {
        lemma_step_len(z, remaining);
        if let Ok((op, k)) = spec_script_step(z, remaining) {
            if 1 <= k <= remaining {
                lemma_parse_script_local(z.skip(k), z2.skip(k), (remaining - k) as nat);
                if spec_parse_script(z, remaining) is Ok {
                    if agree(z, z2, remaining as int) {
                        lemma_agree_subrange(z, z2, remaining as int, 0, k);
                        lemma_script_step_local(z, z2, remaining);
                    }
                }
            }
        }
    }
}

/// Reading a script in full goes past exactly its length.
pub proof fn lemma_script_read_len_ok(s: Seq<u8>, remaining: nat)
    ensures
        spec_parse_script(s, remaining) is Ok ==> spec_script_read_len(s, remaining) == remaining,
    decreases remaining,
{
    if remaining > 0 {
        lemma_step_len(s, remaining);
        if let Ok((op, k)) = spec_script_step(s, remaining) {
            if 1 <= k <= remaining {
                lemma_script_read_len_ok(s.skip(k), (remaining - k) as nat);
            }
        }
    }
}

/// A script fails only by ending early, by a push that runs past its end,
/// or by its length count going below zero.
pub proof fn lemma_script_failures(s: Seq<u8>, remaining: nat)
    ensures
        spec_parse_script(s, remaining) matches Err(e) ==> e == Failure::Eof || e
            == Failure::TooLong || e == Failure::LengthUnderflow,
    decreases remaining,
{
    if remaining > 0 {
        if let Ok((op, k)) = spec_script_step(s, remaining) {
            if 1 <= k <= remaining {
                lemma_script_failures(s.skip(k), (remaining - k) as nat);
            }
        }
    }
}

/// The first opcode of a script: a byte that pushes no data (0, or above
/// 78) stands for itself and takes one byte; a byte from 1 to 75 pushes that
/// many following bytes; 76, 77 and 78 push as many bytes as the u8, the
/// little-endian u16 or the little-endian u32 after them says, the data
/// following that size. The push is read as it stands, where the script and
/// the bytes hold all of it.
pub proof fn lemma_script_step_cases(s: Seq<u8>, remaining: nat)
    requires
        s.len() > 0,
    ensures
        !(1 <= s[0] <= 78) ==> spec_script_step(s, remaining) == Ok::<_, Failure>(
            (SpecOp::Op(s[0]), 1int),
        ),
        1 <= s[0] <= 75 && s[0] < remaining && 1 + s[0] <= s.len() ==> spec_script_step(
            s,
            remaining,
        ) == Ok::<_, Failure>((SpecOp::Data(s.subrange(1, 1 + s[0])), 1 + s[0])),
        s[0] == 76 && s.len() >= 2 && 1 + 1 + s[1] <= remaining && 2 + s[1] <= s.len()
            ==> spec_script_step(s, remaining) == Ok::<_, Failure>(
            (SpecOp::Data(s.subrange(2, 2 + s[1])), 2 + s[1]),
        ),
        s[0] == 77 && s.len() >= 3 ==> ({
            let size = s[1] + 256 * s[2];
            1 + 2 + size <= remaining && 3 + size <= s.len() ==> spec_script_step(s, remaining)
                == Ok::<_, Failure>((SpecOp::Data(s.subrange(3, 3 + size)), 3 + size))
        }),
        s[0] == 78 && s.len() >= 5 ==> ({
            let size = s[1] + 256 * s[2] + 65536 * s[3] + 16777216 * s[4];
            1 + 4 + size <= remaining && 5 + size <= s.len() ==> spec_script_step(s, remaining)
                == Ok::<_, Failure>((SpecOp::Data(s.subrange(5, 5 + size)), 5 + size))
        }),
{
    if s.len() >= 2 {
        lemma_le_value_1(s.subrange(1, 2));
    }
    if s.len() >= 3 {
        lemma_le_value_2(s.subrange(1, 3));
    }
    if s.len() >= 5 {
        lemma_le_value_4(s.subrange(1, 5));
    }
}

/// A script whose bytes push no data (each is 0 or above 78) is read as
/// those bytes, one opcode each, in order.
pub proof fn lemma_script_plain_ops(s: Seq<u8>, remaining: nat)
    requires
        remaining <= s.len(),
        forall|i: int| 0 <= i < remaining ==> !(1 <= #[trigger] s[i] <= 78),
    ensures
        spec_parse_script(s, remaining) == Ok::<_, Failure>(
            Seq::new(remaining, |i: int| SpecOp::Op(s[i])),
        ),
    decreases remaining,
{
    if remaining > 0 {
        let r = s.skip(1);
        assert forall|i: int| 0 <= i < remaining - 1 implies !(1 <= #[trigger] r[i] <= 78) by {
            assert(r[i] == s[i + 1]);
        }
        lemma_script_plain_ops(r, (remaining - 1) as nat);
        assert(seq![SpecOp::Op(s[0])] + Seq::new((remaining - 1) as nat, |i: int| SpecOp::Op(r[i]))
            =~= Seq::new(remaining, |i: int| SpecOp::Op(s[i])));
    } else {
        assert(Seq::new(remaining, |i: int| SpecOp::Op(s[i])) =~= Seq::<SpecOp>::empty());
    }
}

/// Reads the `data_size` bytes of a push of data, and takes them off the
/// count `length_remaining` of bytes left in the script; refuses, reading
/// nothing, where fewer than `data_size` bytes are left in the script.
fn read_buffer(
    reader: &mut ByteReader,
    data_size: u64,
    length_remaining: &mut u64,
    hasher: &mut Sha256Hasher,
) -> (r: Result<Result<Vec<u8>, BitcoinScriptParseError>, ReadError>)
    ensures
        match r {
            Ok(Ok(buffer)) => {
                &&& data_size <= *old(length_remaining)
                &&& data_size <= old(reader)@.len()
                &&& buffer@ == old(reader)@.take(data_size as int)
                &&& final(reader)@ == old(reader)@.skip(data_size as int)
                &&& *final(length_remaining) == *old(length_remaining) - data_size
            },
            Ok(Err(e)) => {
                &&& *old(length_remaining) < data_size
                &&& final(reader)@ == old(reader)@
                &&& *final(length_remaining) == *old(length_remaining)
                &&& e == BitcoinScriptParseError::TooLong
            },
            Err(e) => {
                &&& data_size <= *old(length_remaining)
                &&& old(reader)@.len() < data_size
                &&& final(reader)@ == old(reader)@
                &&& *final(length_remaining) == *old(length_remaining)
                &&& e == ReadError::UnexpectedEof
            },
        },
        final(hasher)@ == old(hasher)@ + consumed(old(reader)@, final(reader)@),
{
    if *length_remaining < data_size {
        assert(consumed(old(reader)@, reader@) =~= Seq::<u8>::empty());
        assert(hasher@ =~= old(hasher)@ + Seq::<u8>::empty());
        return Ok(Err(BitcoinScriptParseError::TooLong));
    }
    if data_size > reader.remaining_len() as u64 {
        assert(consumed(old(reader)@, reader@) =~= Seq::<u8>::empty());
        assert(hasher@ =~= old(hasher)@ + Seq::<u8>::empty());
        return Err(ReadError::UnexpectedEof);
    }
    let buffer = match reader.read_exact(data_size as usize) {
        Ok(b) => b,
        Err(e) => {
            return Err(e);
        },
    };
    hasher.update(buffer.as_slice());
    *length_remaining = *length_remaining - data_size;
    assert(consumed(old(reader)@, reader@) =~= buffer@);
    Ok(Ok(buffer))
}

/// The view of a sequence of opcodes.
pub open spec fn ops_view(ops: Seq<OPCode>) -> Seq<SpecOp> {
    ops.map_values(|o: OPCode| o@)
}

proof fn lemma_after_prefix_push(
    done: Seq<SpecOp>,
    op: SpecOp,
    rest: Result<Seq<SpecOp>, Failure>,
)
    ensures
        after_prefix(done, after_prefix(seq![op], rest)) == after_prefix(done.push(op), rest),
{
    if let Ok(ops) = rest {
        assert(done + (seq![op] + ops) =~= done.push(op) + ops);
    }
}

/// Reads the size field of a push of data: `n` little-endian bytes
/// (`n` is 1, 2 or 4).
fn read_size_field(reader: &mut ByteReader, n: usize, hasher: &mut Sha256Hasher) -> (r: Result<
    u64,
    ReadError,
>)
    requires
        n == 1 || n == 2 || n == 4,
    ensures
        match r {
            Ok(v) => {
                &&& n <= old(reader)@.len()
                &&& v == le_value(old(reader)@.take(n as int))
                &&& final(reader)@ == old(reader)@.skip(n as int)
            },
            Err(e) => {
                &&& old(reader)@.len() < n
                &&& final(reader)@ == old(reader)@
            },
        },
        final(hasher)@ == old(hasher)@ + consumed(old(reader)@, final(reader)@),
{
    if n == 1 {
        match read_le_u8_hash(reader, hasher) {
            Ok(v) => {
                proof {
                    let t = old(reader)@.take(1);
                    assert(t.drop_first() =~= Seq::<u8>::empty());
                    assert(le_value(t.drop_first()) == 0);
                }
                Ok(v as u64)
            },
            Err(e) => Err(e),
        }
    } else if n == 2 {
        match read_le_u16_hash(reader, hasher) {
            Ok(v) => Ok(v as u64),
            Err(e) => Err(e),
        }
    } else {
        match read_le_u32_hash(reader, hasher) {
            Ok(v) => Ok(v as u64),
            Err(e) => Err(e),
        }
    }
}

/// Reads one opcode, where `length_remaining` bytes are left in the script,
/// taking the bytes it reads off that count.
fn read_op(reader: &mut ByteReader, length_remaining: &mut u64, hasher: &mut Sha256Hasher) -> (r:
    Result<OPCode, Failure>)
    requires
        *old(length_remaining) > 0,
    ensures
        is_suffix_after_read(old(reader)@, final(reader)@),
        final(hasher)@ == old(hasher)@ + consumed(old(reader)@, final(reader)@),
        old(reader)@.len() - final(reader)@.len() == spec_step_read_len(
            old(reader)@,
            *old(length_remaining) as nat,
        ),
        match r {
            Ok(op) => spec_script_step(old(reader)@, *old(length_remaining) as nat) matches Ok(
                (o, k),
            ) && o == op@ && final(reader)@ == old(reader)@.skip(k) && *final(length_remaining)
                == *old(length_remaining) - k,
            Err(e) => spec_script_step(old(reader)@, *old(length_remaining) as nat) == Err::<
                (SpecOp, int),
                Failure,
            >(e),
        },
{
    let ghost s1 = reader@;
    let byte = match read_le_u8_hash(reader, hasher) {
        Ok(b) => b,
        Err(_) => {
            assert(reader@ =~= s1.skip(0));
            return Err(Failure::Eof);
        },
    };
    *length_remaining = *length_remaining - 1;
    let ghost s_after_byte = reader@;
    assert(s_after_byte =~= s1.drop_first());
    if 1 <= byte && byte <= 78 {
        let data_size: u64;
        if byte <= 75 {
            data_size = byte as u64;
        } else {
            let n: usize = if byte == 76 {
                1
            } else if byte == 77 {
                2
            } else {
                4
            };
            data_size = match read_size_field(reader, n, hasher) {
                Ok(v) => v,
                Err(_) => {
                    assert(reader@ =~= s1.skip(s1.len() - reader@.len()));
                    return Err(Failure::Eof);
                },
            };
            assert(s1.subrange(1, 1 + n as int) =~= s_after_byte.take(n as int));
            if *length_remaining < n as u64 {
                assert(reader@ =~= s1.skip(s1.len() - reader@.len()));
                return Err(Failure::LengthUnderflow);
            }
            *length_remaining = *length_remaining - n as u64;
        }
        let ghost h = push_size_len(byte) as int;
        let ghost s2 = reader@;
        assert(s2 =~= s1.skip(1 + h));
        assert(hasher@ =~= old(hasher)@ + consumed(s1, s2)) by {
            assert(consumed(s1, s2) =~= s1.take(1) + consumed(s_after_byte, s2));
        }
        let buffer = match read_buffer(reader, data_size, length_remaining, hasher) {
            Ok(Ok(v)) => v,
            Ok(Err(_)) => {
                assert(reader@ =~= s1.skip(s1.len() - reader@.len()));
                return Err(Failure::TooLong);
            },
            Err(_) => {
                assert(reader@ =~= s1.skip(s1.len() - reader@.len()));
                return Err(Failure::Eof);
            },
        };
        assert(buffer@ =~= s1.subrange(1 + h, 1 + h + data_size));
        assert(reader@ =~= s1.skip(1 + h + data_size));
        assert(consumed(s1, reader@) =~= consumed(s1, s2) + buffer@);
        Ok(OPCode::Data(buffer))
    } else {
        Ok(byte_to_opcode(byte))
    }
}

impl BitcoinScript {
    /// Reads a script of `length` bytes, feeding every byte read to
    /// `hasher`, and says what it comes to, whatever the bytes.
    pub fn read(reader: &mut ByteReader, length: u64, hasher: &mut Sha256Hasher) -> (r: Result<
        BitcoinScript,
        Failure,
    >)
        ensures
            is_suffix_after_read(old(reader)@, final(reader)@),
            final(hasher)@ == old(hasher)@ + consumed(old(reader)@, final(reader)@),
            old(reader)@.len() - final(reader)@.len() == spec_script_read_len(
                old(reader)@,
                length as nat,
            ),
            match r {
                Ok(script) => {
                    &&& spec_parse_script(old(reader)@, length as nat) == Ok::<
                        Seq<SpecOp>,
                        Failure,
                    >(script@)
                    &&& length <= old(reader)@.len()
                    &&& final(reader)@ == old(reader)@.skip(length as int)
                },
                Err(e) => spec_parse_script(old(reader)@, length as nat) == Err::<
                    Seq<SpecOp>,
                    Failure,
                >(e),
            },
    {
        let ghost s0 = reader@;
        let ghost h0 = hasher@;
        let mut opcodes: Vec<OPCode> = Vec::new();
        let mut length_remaining = length;
        assert(s0.skip(0) =~= s0);
        assert(consumed(s0, reader@) =~= Seq::<u8>::empty());
        assert(hasher@ =~= h0 + Seq::<u8>::empty());
        assert(ops_view(opcodes@) =~= Seq::<SpecOp>::empty());
        assert(after_prefix(Seq::<SpecOp>::empty(), spec_parse_script(s0, length as nat))
            == spec_parse_script(s0, length as nat)) by {
            if let Ok(ops) = spec_parse_script(s0, length as nat) {
                assert(Seq::<SpecOp>::empty() + ops =~= ops);
            }
        }
        while length_remaining > 0
            invariant
                s0 == old(reader)@,
                h0 == old(hasher)@,
                is_suffix_after_read(s0, reader@),
                hasher@ == h0 + consumed(s0, reader@),
                (s0.len() - reader@.len()) + length_remaining == length,
                spec_parse_script(s0, length as nat) == after_prefix(
                    ops_view(opcodes@),
                    spec_parse_script(reader@, length_remaining as nat),
                ),
                spec_script_read_len(s0, length as nat) == (s0.len() - reader@.len())
                    + spec_script_read_len(reader@, length_remaining as nat),
            decreases length_remaining,
        {
            let ghost s1 = reader@;
            let ghost rem1 = length_remaining;
            proof {
                lemma_step_len(s1, rem1 as nat);
            }
            let next_token = match read_op(reader, &mut length_remaining, hasher) {
                Ok(op) => op,
                Err(e) => {
                    assert(reader@ =~= s0.skip(s0.len() - reader@.len()));
                    assert(consumed(s0, reader@) =~= consumed(s0, s1) + consumed(s1, reader@));
                    return Err(e);
                },
            };
            let ghost k = rem1 - length_remaining;
            let ghost done = ops_view(opcodes@);
            opcodes.push(next_token);
            proof {
                assert(ops_view(opcodes@) =~= done.push(next_token@));
                lemma_after_prefix_push(
                    done,
                    next_token@,
                    spec_parse_script(reader@, length_remaining as nat),
                );
                assert(reader@ =~= s0.skip(s0.len() - reader@.len()));
                assert(consumed(s0, reader@) =~= consumed(s0, s1) + s1.take(k));
            }
        }
        assert(ops_view(opcodes@) + Seq::<SpecOp>::empty() =~= ops_view(opcodes@));
        Ok(BitcoinScript { opcodes })
    }

    /// Reads a script of `length` bytes, feeding every byte read to `hasher`.
    ///
    /// A byte from 1 to 75 pushes that many bytes of data; `OP_PUSHDATA1`,
    /// `2` and `4` push as many bytes as the 1, 2 or 4 little-endian bytes
    /// after them say; any other byte is an opcode of its own. The script
    /// is refused (`TooLong`) where a push runs past its end, and the read
    /// fails where the bytes end first.
    pub fn new(reader: &mut ByteReader, length: u64, hasher: &mut Sha256Hasher) -> (r: Result<
        Result<BitcoinScript, BitcoinScriptParseError>,
        ReadError,
    >)
        requires
            spec_parse_script(old(reader)@, length as nat) != Err::<Seq<SpecOp>, Failure>(
                Failure::LengthUnderflow,
            ),
        ensures
            is_suffix_after_read(old(reader)@, final(reader)@),
            final(hasher)@ == old(hasher)@ + consumed(old(reader)@, final(reader)@),
            old(reader)@.len() - final(reader)@.len() == spec_script_read_len(
                old(reader)@,
                length as nat,
            ),
            match r {
                Ok(Ok(script)) => {
                    &&& spec_parse_script(old(reader)@, length as nat) == Ok::<
                        Seq<SpecOp>,
                        Failure,
                    >(script@)
                    &&& length <= old(reader)@.len()
                    &&& final(reader)@ == old(reader)@.skip(length as int)
                },
                Ok(Err(e)) => {
                    &&& spec_parse_script(old(reader)@, length as nat) == Err::<
                        Seq<SpecOp>,
                        Failure,
                    >(Failure::TooLong)
                    &&& e == BitcoinScriptParseError::TooLong
                },
                Err(e) => {
                    &&& spec_parse_script(old(reader)@, length as nat) == Err::<
                        Seq<SpecOp>,
                        Failure,
                    >(Failure::Eof)
                    &&& e == ReadError::UnexpectedEof
                },
            },
    {
        proof {
            lemma_script_failures(old(reader)@, length as nat);
        }
        match BitcoinScript::read(reader, length, hasher) {
            Ok(script) => Ok(Ok(script)),
            Err(Failure::TooLong) => Ok(Err(BitcoinScriptParseError::TooLong)),
            Err(_) => Err(ReadError::UnexpectedEof),
        }
    }
}

} // verus!
