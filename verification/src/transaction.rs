use crate::basic_reading::{
    consumed, is_suffix_after_read, le_value, read_le_u32_hash, spec_varint_read_len, read_le_u64_hash, read_le_u8, read_varint_hash,
    read_varint_with_prefix_hash, spec_varint, spec_varint_with_prefix, ByteReader,
};
use crate::errors::{error_of, reading_returns, to_parse_error, Failure, ParseError};
use crate::hashing::{sha256_digest, Sha256Hasher};
use crate::list::{
    lemma_repeat_err_stays, lemma_repeat_read_len_err_stays, lemma_repeat_read_len_ok,
    read_len_exact, read_len_exact_at, read_list_as, spec_repeat, spec_repeat_read_len,
};
use crate::script::{
    lemma_script_read_len_ok, spec_parse_script, spec_script_read_len, BitcoinScript, SpecOp,
};
use vstd::prelude::*;

verus! {

/// The view of a transaction input.
pub struct SpecInput {
    pub prev_transaction: Seq<u8>,
    pub prev_transaction_output: nat,
    pub script: Seq<SpecOp>,
}

/// The view of a transaction output.
pub struct SpecOutput {
    pub value: nat,
    pub script: Seq<SpecOp>,
}

/// The view of a transaction.
pub struct SpecTransaction {
    pub inputs: Seq<SpecInput>,
    pub outputs: Seq<SpecOutput>,
    pub witnesses: Option<Seq<Seq<Seq<SpecOp>>>>,
    pub lock_time: nat,
    pub timestamp: u32,
    pub is_coinbase: bool,
    pub txid: Seq<u8>,
}

/// Reads a length (a variable-length integer) and then a script of that
/// length from the start of `s`.
pub open spec fn spec_sized_script(s: Seq<u8>) -> Result<(Seq<SpecOp>, nat), Failure> {
    match spec_varint(s) {
        None => Err(Failure::Eof),
        Some((size, k)) => match spec_parse_script(s.skip(k as int), size) {
            Ok(ops) => Ok((ops, k + size)),
            Err(e) => Err(e),
        },
    }
}

/// Reads a transaction input from the start of `s`: the 32-byte hash of
/// the previous transaction, the index of its output (u32), the script
/// with its length, and the sequence number (u32), which is not kept.
pub open spec fn spec_parse_input(s: Seq<u8>) -> Result<(SpecInput, nat), Failure> {
    if s.len() < 36 {
        Err(Failure::Eof)
    } else {
        match spec_sized_script(s.skip(36)) {
            Err(e) => Err(e),
            Ok((script, k)) => if s.len() < 36 + k + 4 {
                Err(Failure::Eof)
            } else {
                Ok(
                    (
                        SpecInput {
                            prev_transaction: s.take(32),
                            prev_transaction_output: le_value(s.subrange(32, 36)),
                            script,
                        },
                        36 + k + 4,
                    ),
                )
            },
        }
    }
}

/// Reads a transaction output from the start of `s`: the value (u64) and
/// the script with its length.
pub open spec fn spec_parse_output(s: Seq<u8>) -> Result<(SpecOutput, nat), Failure> {
    if s.len() < 8 {
        Err(Failure::Eof)
    } else {
        match spec_sized_script(s.skip(8)) {
            Err(e) => Err(e),
            Ok((script, k)) => Ok((SpecOutput { value: le_value(s.take(8)), script }, 8 + k)),
        }
    }
}

/// `spec_sized_script`, as an item of a list.
pub open spec fn sized_script_item() -> spec_fn(Seq<u8>) -> Result<(Seq<SpecOp>, nat), Failure> {
    |t: Seq<u8>| spec_sized_script(t)
}

/// `spec_parse_input`, as an item of a list.
pub open spec fn input_item() -> spec_fn(Seq<u8>) -> Result<(SpecInput, nat), Failure> {
    |t: Seq<u8>| spec_parse_input(t)
}

/// `spec_parse_output`, as an item of a list.
pub open spec fn output_item() -> spec_fn(Seq<u8>) -> Result<(SpecOutput, nat), Failure> {
    |t: Seq<u8>| spec_parse_output(t)
}

/// `spec_parse_witness_stack`, as an item of a list.
pub open spec fn witness_stack_item() -> spec_fn(Seq<u8>) -> Result<
    (Seq<Seq<SpecOp>>, nat),
    Failure,
> {
    |t: Seq<u8>| spec_parse_witness_stack(t)
}

/// Reads the witness of one input from the start of `s`: a count, and that
/// many scripts, each with its length.
pub open spec fn spec_parse_witness_stack(s: Seq<u8>) -> Result<(Seq<Seq<SpecOp>>, nat), Failure> {
    match spec_varint(s) {
        None => Err(Failure::Eof),
        Some((count, k)) => match spec_repeat(s.skip(k as int), count, sized_script_item()) {
            Ok((items, m)) => Ok((items, k + m)),
            Err(e) => Err(e),
        },
    }
}

/// The start of a transaction: the version (u32), then either the marker
/// byte 0, the flags byte and the count of inputs (the extended format of
/// BIP 144), or the count of inputs alone, whose first byte is not 0.
pub struct TxPrefix {
    pub extended: bool,
    pub flags: u8,
    pub input_count: nat,
    pub len: nat,
}

/// Reads the start of a transaction from the start of `s`.
pub open spec fn spec_tx_prefix(s: Seq<u8>) -> Result<TxPrefix, Failure> {
    if s.len() < 5 {
        Err(Failure::Eof)
    } else if s[4] == 0 {
        if s.len() < 6 {
            Err(Failure::Eof)
        } else {
            match spec_varint(s.skip(6)) {
                Some((c, k)) => Ok(TxPrefix { extended: true, flags: s[5], input_count: c, len: 6 + k }),
                None => Err(Failure::Eof),
            }
        }
    } else {
        match spec_varint_with_prefix(s[4], s.skip(5)) {
            Some((c, k)) => Ok(TxPrefix { extended: false, flags: 0, input_count: c, len: 5 + k }),
            None => Err(Failure::Eof),
        }
    }
}

/// The bytes of the start `p` of the transaction `s` that go into its
/// hash: all of them but the marker and the flags.
pub open spec fn tx_prefix_hashed(s: Seq<u8>, p: TxPrefix) -> Seq<u8> {
    if p.extended {
        s.take(4) + s.subrange(6, p.len as int)
    } else {
        s.take(p.len as int)
    }
}

/// Whether a transaction that starts with `p` carries witnesses: it has
/// the extended format with the flags byte 1.
pub open spec fn has_witnesses(p: TxPrefix) -> bool {
    p.extended && p.flags == 1
}

/// Reads the witnesses of a transaction that starts with `p`, one stack for
/// each input; there are none to read unless `has_witnesses(p)`.
pub open spec fn spec_tx_witnesses(s: Seq<u8>, p: TxPrefix) -> Result<
    (Option<Seq<Seq<Seq<SpecOp>>>>, nat),
    Failure,
> {
    if has_witnesses(p) {
        match spec_repeat(s, p.input_count, witness_stack_item()) {
            Ok((ws, k)) => Ok((Some(ws), k)),
            Err(e) => Err(e),
        }
    } else {
        Ok((None, 0))
    }
}

/// The id of a transaction whose hashed bytes are `hashed`: the SHA-256 of
/// their SHA-256, bytes reversed.
pub open spec fn spec_txid(hashed: Seq<u8>) -> Seq<u8> {
    sha256_digest(sha256_digest(hashed)).reverse()
}

/// Where the parts of a transaction end, counted from its start: the
/// prefix, the inputs and outputs, the witnesses.
pub struct TxLayout {
    pub prefix: TxPrefix,
    pub outputs_end: nat,
    pub witnesses_end: nat,
}

/// The bytes of the transaction `s`, laid out as `l`, that go into its
/// hash: everything read but the marker, the flags and the witnesses.
pub open spec fn tx_hashed(s: Seq<u8>, l: TxLayout) -> Seq<u8> {
    tx_prefix_hashed(s, l.prefix) + s.subrange(l.prefix.len as int, l.outputs_end as int)
        + s.subrange(l.witnesses_end as int, l.witnesses_end + 4int)
}

// How many bytes reading each item goes past, whatever it comes to: all it
// takes where it is read in full, and otherwise the bytes of the reads that
// succeeded before the one that failed (a read that fails takes nothing).

/// Of a length and a script.
pub open spec fn spec_sized_script_read_len(s: Seq<u8>) -> int {
    match spec_varint(s) {
        None => spec_varint_read_len(s),
        Some((size, k)) => k + spec_script_read_len(s.skip(k as int), size),
    }
}

/// Of a transaction input.
pub open spec fn spec_input_read_len(s: Seq<u8>) -> int {
    if s.len() < 32 {
        0
    } else if s.len() < 36 {
        32
    } else {
        let r = spec_sized_script_read_len(s.skip(36));
        if spec_sized_script(s.skip(36)) is Ok && s.len() >= 36 + r + 4 {
            36 + r + 4
        } else {
            36 + r
        }
    }
}

/// Of a transaction output.
pub open spec fn spec_output_read_len(s: Seq<u8>) -> int {
    if s.len() < 8 {
        0
    } else {
        8 + spec_sized_script_read_len(s.skip(8))
    }
}

/// `spec_sized_script_read_len`, for a list.
pub open spec fn sized_script_read_len_item() -> spec_fn(Seq<u8>) -> int {
    |t: Seq<u8>| spec_sized_script_read_len(t)
}

/// `spec_input_read_len`, for a list.
pub open spec fn input_read_len_item() -> spec_fn(Seq<u8>) -> int {
    |t: Seq<u8>| spec_input_read_len(t)
}

/// `spec_output_read_len`, for a list.
pub open spec fn output_read_len_item() -> spec_fn(Seq<u8>) -> int {
    |t: Seq<u8>| spec_output_read_len(t)
}

/// Of the witness of one input.
pub open spec fn spec_witness_stack_read_len(s: Seq<u8>) -> int {
    match spec_varint(s) {
        None => spec_varint_read_len(s),
        Some((c, k)) => k + spec_repeat_read_len(
            s.skip(k as int),
            c,
            sized_script_item(),
            sized_script_read_len_item(),
        ),
    }
}

/// `spec_witness_stack_read_len`, for a list.
pub open spec fn witness_stack_read_len_item() -> spec_fn(Seq<u8>) -> int {
    |t: Seq<u8>| spec_witness_stack_read_len(t)
}

/// Of the start of a transaction.
#[verifier::opaque]
pub open spec fn spec_tx_prefix_read_len(s: Seq<u8>) -> int {
    if s.len() < 4 {
        0
    } else if s.len() < 5 {
        4
    } else if s[4] == 0 {
        if s.len() < 6 {
            5
        } else {
            6 + spec_varint_read_len(s.skip(6))
        }
    } else {
        5 + match spec_varint_with_prefix(s[4], s.skip(5)) {
            Some((_, k)) => k as int,
            None => 0,
        }
    }
}

/// Of the inputs, the count of outputs and the outputs.
#[verifier::opaque]
pub open spec fn spec_tx_io_read_len(s: Seq<u8>, input_count: nat) -> int {
    match spec_repeat(s, input_count, input_item()) {
        Err(_) => spec_repeat_read_len(s, input_count, input_item(), input_read_len_item()),
        Ok((_, ki)) => ki + match spec_varint(s.skip(ki as int)) {
            None => spec_varint_read_len(s.skip(ki as int)),
            Some((oc, ko)) => ko + spec_repeat_read_len(
                s.skip(ki + ko as int),
                oc,
                output_item(),
                output_read_len_item(),
            ),
        },
    }
}

/// Of the witnesses of a transaction that starts with `p`.
#[verifier::opaque]
pub open spec fn spec_tx_witnesses_read_len(s: Seq<u8>, p: TxPrefix) -> int {
    if has_witnesses(p) {
        spec_repeat_read_len(s, p.input_count, witness_stack_item(), witness_stack_read_len_item())
    } else {
        0
    }
}

/// Of a transaction.
#[verifier::opaque]
pub open spec fn spec_tx_read_len(s: Seq<u8>) -> int {
    match spec_tx_prefix(s) {
        Err(_) => spec_tx_prefix_read_len(s),
        Ok(p) => p.len + match spec_tx_io(s.skip(p.len as int), p.input_count) {
            Err(_) => spec_tx_io_read_len(s.skip(p.len as int), p.input_count),
            Ok((_, _, kio)) => kio + match spec_tx_witnesses(s.skip(p.len + kio as int), p) {
                Err(_) => spec_tx_witnesses_read_len(s.skip(p.len + kio as int), p),
                Ok((_, kw)) => kw + if s.len() < p.len + kio + kw + 4 {
                    0int
                } else {
                    4int
                },
            },
        },
    }
}

/// Reading a length and a script in full goes past the bytes they take.
pub proof fn lemma_sized_script_read_len_exact()
    ensures
        read_len_exact(sized_script_item(), sized_script_read_len_item()),
{
    assert forall|z: Seq<u8>|
        #[trigger] read_len_exact_at(sized_script_item(), sized_script_read_len_item(), z) by {
        if let Some((size, k)) = spec_varint(z) {
            lemma_script_read_len_ok(z.skip(k as int), size);
        }
    }
}

/// Reading an input in full goes past the bytes it takes.
pub proof fn lemma_input_read_len_exact()
    ensures
        read_len_exact(input_item(), input_read_len_item()),
{
    lemma_sized_script_read_len_exact();
    assert forall|z: Seq<u8>| #[trigger] read_len_exact_at(input_item(), input_read_len_item(), z) by {
        if z.len() >= 36 {
            assert(read_len_exact_at(
                sized_script_item(),
                sized_script_read_len_item(),
                z.skip(36),
            ));
        }
    }
}

/// Reading an output in full goes past the bytes it takes.
pub proof fn lemma_output_read_len_exact()
    ensures
        read_len_exact(output_item(), output_read_len_item()),
{
    lemma_sized_script_read_len_exact();
    assert forall|z: Seq<u8>| #[trigger] read_len_exact_at(output_item(), output_read_len_item(), z) by {
        if z.len() >= 8 {
            assert(read_len_exact_at(sized_script_item(), sized_script_read_len_item(), z.skip(8)));
        }
    }
}

/// Reading the witness of an input in full goes past the bytes it takes.
pub proof fn lemma_witness_stack_read_len_exact()
    ensures
        read_len_exact(witness_stack_item(), witness_stack_read_len_item()),
{
    lemma_sized_script_read_len_exact();
    assert forall|z: Seq<u8>|
        #[trigger] read_len_exact_at(witness_stack_item(), witness_stack_read_len_item(), z) by {
        if let Some((c, k)) = spec_varint(z) {
            lemma_repeat_read_len_ok(
                z.skip(k as int),
                c,
                sized_script_item(),
                sized_script_read_len_item(),
            );
        }
    }
}

/// Reading the inputs and the outputs in full goes past the bytes they take.
pub proof fn lemma_tx_io_read_len_ok(s: Seq<u8>, input_count: nat)
    ensures
        spec_tx_io(s, input_count) matches Ok((_, _, k)) ==> spec_tx_io_read_len(s, input_count)
            == k,
{
    reveal(spec_tx_io_read_len);
    lemma_output_read_len_exact();
    if let Ok((_, ki)) = spec_repeat(s, input_count, input_item()) {
        if let Some((oc, ko)) = spec_varint(s.skip(ki as int)) {
            lemma_repeat_read_len_ok(
                s.skip(ki + ko as int),
                oc,
                output_item(),
                output_read_len_item(),
            );
        }
    }
}

/// Reading the witnesses in full goes past the bytes they take.
pub proof fn lemma_tx_witnesses_read_len_ok(s: Seq<u8>, p: TxPrefix)
    ensures
        spec_tx_witnesses(s, p) matches Ok((_, k)) ==> spec_tx_witnesses_read_len(s, p) == k,
{
    reveal(spec_tx_witnesses_read_len);
    lemma_witness_stack_read_len_exact();
    lemma_repeat_read_len_ok(s, p.input_count, witness_stack_item(), witness_stack_read_len_item());
}

/// Reading a transaction in full goes past the bytes it takes.
pub proof fn lemma_tx_read_len_ok(s: Seq<u8>, timestamp: u32, is_coinbase: bool)
    ensures
        spec_parse_tx(s, timestamp, is_coinbase) matches Ok((_, k)) ==> spec_tx_read_len(s) == k,
{
    reveal(spec_parse_tx);
    reveal(spec_tx_read_len);
    if let Ok(p) = spec_tx_prefix(s) {
        lemma_tx_io_read_len_ok(s.skip(p.len as int), p.input_count);
        if let Ok((_, _, kio)) = spec_tx_io(s.skip(p.len as int), p.input_count) {
            lemma_tx_witnesses_read_len_ok(s.skip(p.len + kio as int), p);
        }
    }
}

/// Reads a transaction from the start of `s`, giving it the time stamp and
/// the coinbase mark of its block; gives the transaction and the number of
/// bytes it takes, or the failure.
#[verifier::opaque]
pub open spec fn spec_parse_tx(s: Seq<u8>, timestamp: u32, is_coinbase: bool) -> Result<
    (SpecTransaction, nat),
    Failure,
> {
    match spec_tx_layout(s) {
        Err(e) => Err(e),
        Ok((l, ins, outs, ws)) => {
            let e = l.witnesses_end as int;
            Ok(
                (
                    SpecTransaction {
                        inputs: ins,
                        outputs: outs,
                        witnesses: ws,
                        lock_time: le_value(s.subrange(e, e + 4)),
                        timestamp,
                        is_coinbase,
                        txid: spec_txid(tx_hashed(s, l)),
                    },
                    (e + 4) as nat,
                ),
            )
        },
    }
}

/// Reads, from the start of `s`, `input_count` inputs, the count of
/// outputs and the outputs; gives them with the number of bytes they take.
pub open spec fn spec_tx_io(s: Seq<u8>, input_count: nat) -> Result<
    (Seq<SpecInput>, Seq<SpecOutput>, nat),
    Failure,
> {
    match spec_repeat(s, input_count, input_item()) {
        Err(e) => Err(e),
        Ok((ins, ki)) => match spec_varint(s.skip(ki as int)) {
            None => Err(Failure::Eof),
            Some((oc, ko)) => match spec_repeat(s.skip(ki + ko as int), oc, output_item()) {
                Err(e) => Err(e),
                Ok((outs, kout)) => Ok((ins, outs, ki + ko + kout)),
            },
        },
    }
}

/// Reads the parts of the transaction that starts `s`, with where they end;
/// fails where the bytes end before the lock time (u32) after them.
pub open spec fn spec_tx_layout(s: Seq<u8>) -> Result<
    (TxLayout, Seq<SpecInput>, Seq<SpecOutput>, Option<Seq<Seq<Seq<SpecOp>>>>),
    Failure,
> {
    match spec_tx_prefix(s) {
        Err(e) => Err(e),
        Ok(p) => match spec_tx_io(s.skip(p.len as int), p.input_count) {
            Err(e) => Err(e),
            Ok((ins, outs, kio)) => {
                let d = p.len + kio;
                match spec_tx_witnesses(s.skip(d as int), p) {
                    Err(e) => Err(e),
                    Ok((ws, kw)) => if s.len() < d + kw + 4 {
                        Err(Failure::Eof)
                    } else {
                        Ok((TxLayout { prefix: p, outputs_end: d, witnesses_end: d + kw }, ins, outs, ws))
                    },
                }
            },
        },
    }
}

/// Whether the result `r` of reading, which took the reader from `before`
/// to `after`, is what `expected` says: on success the item's view, and the
/// reader moved past the bytes it takes; on failure the same failure.
pub open spec fn parsed_as<T: View>(
    r: Result<T, Failure>,
    expected: Result<(T::V, nat), Failure>,
    before: Seq<u8>,
    after: Seq<u8>,
) -> bool {
    match r {
        Ok(v) => expected matches Ok((w, k)) && w == v@ && k <= before.len() && after
            == before.skip(k as int),
        Err(e) => expected matches Err(f) && e == f,
    }
}

/// Like `parsed_as`, for reading that returns: on failure, the error that
/// the failure is reported as.
pub open spec fn read_as<T: View>(
    r: Result<T, ParseError>,
    expected: Result<(T::V, nat), Failure>,
    before: Seq<u8>,
    after: Seq<u8>,
) -> bool {
    match r {
        Ok(v) => expected matches Ok((w, k)) && w == v@ && k <= before.len() && after
            == before.skip(k as int),
        Err(e) => expected matches Err(f) && e == error_of(f),
    }
}

/// A transaction input.
#[derive(Debug)]
pub struct BitcoinTransactionInput {
    pub prev_transaction: [u8; 32],
    pub prev_transaction_output: u32,
    pub script: BitcoinScript,
}

impl View for BitcoinTransactionInput {
    type V = SpecInput;

    open spec fn view(&self) -> SpecInput {
        SpecInput {
            prev_transaction: self.prev_transaction@,
            prev_transaction_output: self.prev_transaction_output as nat,
            script: self.script@,
        }
    }
}

/// A transaction output.
#[derive(Debug)]
pub struct BitcoinTransactionOutput {
    pub value: u64,
    pub script: BitcoinScript,
}

impl View for BitcoinTransactionOutput {
    type V = SpecOutput;

    open spec fn view(&self) -> SpecOutput {
        SpecOutput { value: self.value as nat, script: self.script@ }
    }
}

/// The 32 bytes of `v` as an array.
fn to_array32(v: &Vec<u8>) -> (a: [u8; 32])
    requires
        v@.len() == 32,
    ensures
        a@ == v@,
{
    let mut a = [0u8; 32];
    let mut i: usize = 0;
    while i < 32
        invariant
            v@.len() == 32,
            i <= 32,
            forall|j: int| 0 <= j < i ==> a@[j] == v@[j],
        decreases 32 - i,
    {
        a[i] = v[i];
        i = i + 1;
    }
    assert(a@ =~= v@);
    a
}

/// Reads a length and then a script of that length.
fn read_sized_script(reader: &mut ByteReader, hasher: &mut Sha256Hasher) -> (r: Result<
    BitcoinScript,
    Failure,
>)
    ensures
        parsed_as(r, spec_sized_script(old(reader)@), old(reader)@, final(reader)@),
        is_suffix_after_read(old(reader)@, final(reader)@),
        old(reader)@.len() - final(reader)@.len() == spec_sized_script_read_len(old(reader)@),
        final(hasher)@ == old(hasher)@ + consumed(old(reader)@, final(reader)@),
{
    let ghost s0 = reader@;
    let script_size = match read_varint_hash(reader, hasher) {
        Ok(v) => v,
        Err(_) => {
            assert(reader@ =~= s0.skip(s0.len() - reader@.len()));
            return Err(Failure::Eof);
        },
    };
    let ghost s1 = reader@;
    let ghost h1 = hasher@;
    let r = BitcoinScript::read(reader, script_size, hasher);
    proof {
        assert(reader@ =~= s0.skip(s0.len() - reader@.len()));
        assert(consumed(s0, reader@) =~= consumed(s0, s1) + consumed(s1, reader@));
        if let Some((size, k)) = spec_varint(s0) {
            assert(s1 =~= s0.skip(k as int));
            if r is Ok {
                assert(reader@ =~= s0.skip(k + size as int));
            }
        }
    }
    r
}

impl BitcoinTransactionInput {
    /// Reads a transaction input, feeding every byte read to `hasher`.
    pub fn new(reader: &mut ByteReader, hasher: &mut Sha256Hasher) -> (r: Result<
        BitcoinTransactionInput,
        ParseError,
    >)
        requires
            reading_returns(spec_parse_input(old(reader)@)),
        ensures
            read_as(r, spec_parse_input(old(reader)@), old(reader)@, final(reader)@),
            is_suffix_after_read(old(reader)@, final(reader)@),
            old(reader)@.len() - final(reader)@.len() == spec_input_read_len(old(reader)@),
            final(hasher)@ == old(hasher)@ + consumed(old(reader)@, final(reader)@),
    {
        match Self::read(reader, hasher) {
            Ok(x) => Ok(x),
            Err(f) => Err(to_parse_error(f)),
        }
    }

    /// Reads a transaction input, feeding every byte read to `hasher`, and
    /// says what it comes to, whatever the bytes.
    pub fn read(reader: &mut ByteReader, hasher: &mut Sha256Hasher) -> (r: Result<
        BitcoinTransactionInput,
        Failure,
    >)
        ensures
            parsed_as(r, spec_parse_input(old(reader)@), old(reader)@, final(reader)@),
            is_suffix_after_read(old(reader)@, final(reader)@),
            old(reader)@.len() - final(reader)@.len() == spec_input_read_len(old(reader)@),
            final(hasher)@ == old(hasher)@ + consumed(old(reader)@, final(reader)@),
    {
        let ghost s0 = reader@;
        let ghost h0 = hasher@;
        let prev = match reader.read_exact(32) {
            Ok(b) => b,
            Err(_) => {
                assert(reader@ =~= s0.skip(0));
                assert(hasher@ =~= h0 + consumed(s0, reader@));
                return Err(Failure::Eof);
            },
        };
        hasher.update(prev.as_slice());
        let prev_transaction = to_array32(&prev);
        let ghost s1 = reader@;
        let prev_transaction_output = match read_le_u32_hash(reader, hasher) {
            Ok(v) => v,
            Err(_) => {
                assert(reader@ =~= s0.skip(s0.len() - reader@.len()));
                assert(consumed(s0, reader@) =~= prev@);
                return Err(Failure::Eof);
            },
        };
        let ghost s2 = reader@;
        assert(s2 =~= s0.skip(36));
        assert(s0.subrange(32, 36) =~= s1.take(4));
        assert(hasher@ =~= h0 + s0.take(36));
        let script = match read_sized_script(reader, hasher) {
            Ok(sc) => sc,
            Err(e) => {
                assert(reader@ =~= s0.skip(s0.len() - reader@.len()));
                assert(consumed(s0, reader@) =~= s0.take(36) + consumed(s2, reader@));
                return Err(e);
            },
        };
        let ghost s3 = reader@;
        assert(s3 =~= s0.skip(s0.len() - s3.len()));
        let ghost h3 = hasher@;
        let _sequence = match read_le_u32_hash(reader, hasher) {
            Ok(v) => v,
            Err(_) => {
                assert(reader@ =~= s0.skip(s0.len() - reader@.len()));
                assert(consumed(s0, reader@) =~= s0.take(36) + consumed(s2, reader@));
                return Err(Failure::Eof);
            },
        };
        proof {
            if let Ok((_, k)) = spec_sized_script(s2) {
                assert(s3 =~= s0.skip(36 + k as int));
                assert(reader@ =~= s0.skip(36 + k + 4int));
                assert(consumed(s0, reader@) =~= s0.take(36) + consumed(s2, s3) + consumed(
                    s3,
                    reader@,
                ));
            }
        }
        Ok(BitcoinTransactionInput { prev_transaction, prev_transaction_output, script })
    }
}

impl BitcoinTransactionOutput {
    /// Reads a transaction output, feeding every byte read to `hasher`.
    pub fn new(reader: &mut ByteReader, hasher: &mut Sha256Hasher) -> (r: Result<
        BitcoinTransactionOutput,
        ParseError,
    >)
        requires
            reading_returns(spec_parse_output(old(reader)@)),
        ensures
            read_as(r, spec_parse_output(old(reader)@), old(reader)@, final(reader)@),
            is_suffix_after_read(old(reader)@, final(reader)@),
            old(reader)@.len() - final(reader)@.len() == spec_output_read_len(old(reader)@),
            final(hasher)@ == old(hasher)@ + consumed(old(reader)@, final(reader)@),
    {
        match Self::read(reader, hasher) {
            Ok(x) => Ok(x),
            Err(f) => Err(to_parse_error(f)),
        }
    }

    /// Reads a transaction output, feeding every byte read to `hasher`, and
    /// says what it comes to, whatever the bytes.
    pub fn read(reader: &mut ByteReader, hasher: &mut Sha256Hasher) -> (r: Result<
        BitcoinTransactionOutput,
        Failure,
    >)
        ensures
            parsed_as(r, spec_parse_output(old(reader)@), old(reader)@, final(reader)@),
            is_suffix_after_read(old(reader)@, final(reader)@),
            old(reader)@.len() - final(reader)@.len() == spec_output_read_len(old(reader)@),
            final(hasher)@ == old(hasher)@ + consumed(old(reader)@, final(reader)@),
    {
        let ghost s0 = reader@;
        let value = match read_le_u64_hash(reader, hasher) {
            Ok(v) => v,
            Err(_) => {
                assert(reader@ =~= s0.skip(0));
                assert(consumed(s0, reader@) =~= Seq::<u8>::empty());
                assert(hasher@ =~= old(hasher)@ + Seq::<u8>::empty());
                return Err(Failure::Eof);
            },
        };
        let ghost s1 = reader@;
        let script = match read_sized_script(reader, hasher) {
            Ok(sc) => sc,
            Err(e) => {
                assert(reader@ =~= s0.skip(s0.len() - reader@.len()));
                assert(consumed(s0, reader@) =~= s0.take(8) + consumed(s1, reader@));
                return Err(e);
            },
        };
        proof {
            assert(reader@ =~= s0.skip(s0.len() - reader@.len()));
            assert(consumed(s0, reader@) =~= s0.take(8) + consumed(s1, reader@));
            assert(s1 =~= s0.skip(8));
        }
        Ok(BitcoinTransactionOutput { value, script })
    }
}

/// Reads `count` transaction inputs, feeding every byte read to `hasher`.
fn read_inputs(reader: &mut ByteReader, count: u64, hasher: &mut Sha256Hasher) -> (r: Result<
    Vec<BitcoinTransactionInput>,
    Failure,
>)
    ensures
        read_list_as(r, spec_repeat(old(reader)@, count as nat, input_item()), old(reader)@, final(reader)@),
        is_suffix_after_read(old(reader)@, final(reader)@),
        old(reader)@.len() - final(reader)@.len() == spec_repeat_read_len(
            old(reader)@,
            count as nat,
            input_item(),
            input_read_len_item(),
        ),
        final(hasher)@ == old(hasher)@ + consumed(old(reader)@, final(reader)@),
{
    let ghost s0 = reader@;
    let ghost h0 = hasher@;
    let mut items: Vec<BitcoinTransactionInput> = Vec::new();
    let mut i: u64 = 0;
    assert(s0.skip(0) =~= s0);
    assert(consumed(s0, s0) =~= Seq::<u8>::empty());
    assert(h0 + Seq::<u8>::empty() =~= h0);
    assert(items@.map_values(|x: BitcoinTransactionInput| x@) =~= Seq::<SpecInput>::empty());
    while i < count
        invariant
            s0 == old(reader)@,
            h0 == old(hasher)@,
            i <= count,
            is_suffix_after_read(s0, reader@),
            hasher@ == h0 + consumed(s0, reader@),
            spec_repeat(s0, i as nat, input_item()) == Ok::<_, Failure>(
                (
                    items@.map_values(|x: BitcoinTransactionInput| x@),
                    (s0.len() - reader@.len()) as nat,
                ),
            ),
        decreases count - i,
    {
        let ghost s1 = reader@;
        let ghost m = s0.len() - s1.len();
        assert(s0.skip(m) == s1);
        let ghost before_items = items@.map_values(|x: BitcoinTransactionInput| x@);
        match BitcoinTransactionInput::read(reader, hasher) {
            Ok(x) => {
                items.push(x);
                i = i + 1;
                proof {
                    assert(items@.map_values(|x: BitcoinTransactionInput| x@) =~= before_items.push(
                        x@,
                    ));
                    assert(reader@ =~= s0.skip(s0.len() - reader@.len()));
                    assert(consumed(s0, reader@) =~= consumed(s0, s1) + consumed(s1, reader@));
                }
            },
            Err(e) => {
                proof {
                    lemma_repeat_err_stays(s0, (i + 1) as nat, count as nat, input_item());
                    lemma_repeat_read_len_err_stays(
                        s0,
                        (i + 1) as nat,
                        count as nat,
                        input_item(),
                        input_read_len_item(),
                    );
                    assert(reader@ =~= s0.skip(s0.len() - reader@.len()));
                    assert(consumed(s0, reader@) =~= consumed(s0, s1) + consumed(s1, reader@));
                }
                return Err(e);
            },
        }
    }
    proof {
        lemma_input_read_len_exact();
        lemma_repeat_read_len_ok(s0, count as nat, input_item(), input_read_len_item());
    }
    Ok(items)
}

/// The view of the witnesses of a transaction.
pub open spec fn witnesses_view(v: Seq<Vec<BitcoinScript>>) -> Seq<Seq<Seq<SpecOp>>> {
    v.map_values(|st: Vec<BitcoinScript>| st@.map_values(|sc: BitcoinScript| sc@))
}

/// Reads the witness of one input: a count, then that many scripts, each
/// with its length. Witnesses do not go into the transaction's hash:
/// `hasher` here is one that is thrown away.
fn read_witness_stack(reader: &mut ByteReader, hasher: &mut Sha256Hasher) -> (r: Result<
    Vec<BitcoinScript>,
    Failure,
>)
    ensures
        read_list_as(r, spec_parse_witness_stack(old(reader)@), old(reader)@, final(reader)@),
        is_suffix_after_read(old(reader)@, final(reader)@),
        old(reader)@.len() - final(reader)@.len() == spec_witness_stack_read_len(old(reader)@),
        final(hasher)@ == old(hasher)@ + consumed(old(reader)@, final(reader)@),
{
    let ghost s0 = reader@;
    let count = match read_varint_hash(reader, hasher) {
        Ok(c) => c,
        Err(_) => {
            assert(reader@ =~= s0.skip(s0.len() - reader@.len()));
            return Err(Failure::Eof);
        },
    };
    let ghost s1 = reader@;
    let ghost h1 = hasher@;
    let r = read_scripts(reader, count, hasher);
    proof {
        assert(reader@ =~= s0.skip(s0.len() - reader@.len()));
        assert(consumed(s0, reader@) =~= consumed(s0, s1) + consumed(s1, reader@));
        if let Some((c, k)) = spec_varint(s0) {
            assert(s1 =~= s0.skip(k as int));
            if let Ok((_, m)) = spec_repeat(s1, c, sized_script_item()) {
                assert(s1.skip(m as int) =~= s0.skip(k + m as int));
            }
        }
    }
    r
}

/// Reads `count` witness stacks, feeding every byte read to `hasher`.
#[verifier::spinoff_prover]
#[verifier::rlimit(30)]
fn read_witnesses(reader: &mut ByteReader, count: u64, hasher: &mut Sha256Hasher) -> (r: Result<
    Vec<Vec<BitcoinScript>>,
    Failure,
>)
    ensures
        match r {
            Ok(v) => spec_repeat(old(reader)@, count as nat, witness_stack_item()) matches Ok(
                (ws, k),
            ) && ws == witnesses_view(v@) && k <= old(reader)@.len() && final(reader)@ == old(
                reader,
            )@.skip(k as int),
            Err(e) => spec_repeat(old(reader)@, count as nat, witness_stack_item()) matches Err(
                f,
            ) && e == f,
        },
        is_suffix_after_read(old(reader)@, final(reader)@),
        old(reader)@.len() - final(reader)@.len() == spec_repeat_read_len(
            old(reader)@,
            count as nat,
            witness_stack_item(),
            witness_stack_read_len_item(),
        ),
        final(hasher)@ == old(hasher)@ + consumed(old(reader)@, final(reader)@),
{
    let ghost s0 = reader@;
    let ghost h0 = hasher@;
    let mut items: Vec<Vec<BitcoinScript>> = Vec::new();
    let mut i: u64 = 0;
    assert(s0.skip(0) =~= s0);
    assert(consumed(s0, s0) =~= Seq::<u8>::empty());
    assert(h0 + Seq::<u8>::empty() =~= h0);
    assert(witnesses_view(items@) =~= Seq::<Seq<Seq<SpecOp>>>::empty());
    while i < count
        invariant
            s0 == old(reader)@,
            h0 == old(hasher)@,
            i <= count,
            is_suffix_after_read(s0, reader@),
            hasher@ == h0 + consumed(s0, reader@),
            spec_repeat(s0, i as nat, witness_stack_item()) == Ok::<_, Failure>(
                (
                    witnesses_view(items@),
                    (s0.len() - reader@.len()) as nat,
                ),
            ),
        decreases count - i,
    {
        let ghost s1 = reader@;
        let ghost m = s0.len() - s1.len();
        assert(s0.skip(m) == s1);
        let ghost before_items = witnesses_view(items@);
        match read_witness_stack(reader, hasher) {
            Ok(x) => {
                items.push(x);
                i = i + 1;
                proof {
                    assert(witnesses_view(items@) =~= before_items.push(x@.map_values(|sc: BitcoinScript| sc@)));
                    assert(reader@ =~= s0.skip(s0.len() - reader@.len()));
                    assert(consumed(s0, reader@) =~= consumed(s0, s1) + consumed(s1, reader@));
                }
            },
            Err(e) => {
                proof {
                    lemma_repeat_err_stays(s0, (i + 1) as nat, count as nat, witness_stack_item());
                    lemma_repeat_read_len_err_stays(
                        s0,
                        (i + 1) as nat,
                        count as nat,
                        witness_stack_item(),
                        witness_stack_read_len_item(),
                    );
                    assert(reader@ =~= s0.skip(s0.len() - reader@.len()));
                    assert(consumed(s0, reader@) =~= consumed(s0, s1) + consumed(s1, reader@));
                }
                return Err(e);
            },
        }
    }
    proof {
        lemma_witness_stack_read_len_exact();
        lemma_repeat_read_len_ok(s0, count as nat, witness_stack_item(), witness_stack_read_len_item());
    }
    Ok(items)
}

/// Reads `count` transaction outputs, feeding every byte read to `hasher`.
fn read_outputs(reader: &mut ByteReader, count: u64, hasher: &mut Sha256Hasher) -> (r: Result<
    Vec<BitcoinTransactionOutput>,
    Failure,
>)
    ensures
        read_list_as(r, spec_repeat(old(reader)@, count as nat, output_item()), old(reader)@, final(reader)@),
        is_suffix_after_read(old(reader)@, final(reader)@),
        old(reader)@.len() - final(reader)@.len() == spec_repeat_read_len(
            old(reader)@,
            count as nat,
            output_item(),
            output_read_len_item(),
        ),
        final(hasher)@ == old(hasher)@ + consumed(old(reader)@, final(reader)@),
{
    let ghost s0 = reader@;
    let ghost h0 = hasher@;
    let mut items: Vec<BitcoinTransactionOutput> = Vec::new();
    let mut i: u64 = 0;
    assert(s0.skip(0) =~= s0);
    assert(consumed(s0, s0) =~= Seq::<u8>::empty());
    assert(h0 + Seq::<u8>::empty() =~= h0);
    assert(items@.map_values(|x: BitcoinTransactionOutput| x@) =~= Seq::<SpecOutput>::empty());
    while i < count
        invariant
            s0 == old(reader)@,
            h0 == old(hasher)@,
            i <= count,
            is_suffix_after_read(s0, reader@),
            hasher@ == h0 + consumed(s0, reader@),
            spec_repeat(s0, i as nat, output_item()) == Ok::<_, Failure>(
                (
                    items@.map_values(|x: BitcoinTransactionOutput| x@),
                    (s0.len() - reader@.len()) as nat,
                ),
            ),
        decreases count - i,
    {
        let ghost s1 = reader@;
        let ghost m = s0.len() - s1.len();
        assert(s0.skip(m) == s1);
        let ghost before_items = items@.map_values(|x: BitcoinTransactionOutput| x@);
        match BitcoinTransactionOutput::read(reader, hasher) {
            Ok(x) => {
                items.push(x);
                i = i + 1;
                proof {
                    assert(items@.map_values(|x: BitcoinTransactionOutput| x@) =~= before_items.push(
                        x@,
                    ));
                    assert(reader@ =~= s0.skip(s0.len() - reader@.len()));
                    assert(consumed(s0, reader@) =~= consumed(s0, s1) + consumed(s1, reader@));
                }
            },
            Err(e) => {
                proof {
                    lemma_repeat_err_stays(s0, (i + 1) as nat, count as nat, output_item());
                    lemma_repeat_read_len_err_stays(
                        s0,
                        (i + 1) as nat,
                        count as nat,
                        output_item(),
                        output_read_len_item(),
                    );
                    assert(reader@ =~= s0.skip(s0.len() - reader@.len()));
                    assert(consumed(s0, reader@) =~= consumed(s0, s1) + consumed(s1, reader@));
                }
                return Err(e);
            },
        }
    }
    proof {
        lemma_output_read_len_exact();
        lemma_repeat_read_len_ok(s0, count as nat, output_item(), output_read_len_item());
    }
    Ok(items)
}

/// Reads `count` scripts, each with its length, feeding every byte read to
/// `hasher`.
fn read_scripts(reader: &mut ByteReader, count: u64, hasher: &mut Sha256Hasher) -> (r: Result<
    Vec<BitcoinScript>,
    Failure,
>)
    ensures
        read_list_as(r, spec_repeat(old(reader)@, count as nat, sized_script_item()), old(reader)@, final(reader)@),
        is_suffix_after_read(old(reader)@, final(reader)@),
        old(reader)@.len() - final(reader)@.len() == spec_repeat_read_len(
            old(reader)@,
            count as nat,
            sized_script_item(),
            sized_script_read_len_item(),
        ),
        final(hasher)@ == old(hasher)@ + consumed(old(reader)@, final(reader)@),
{
    let ghost s0 = reader@;
    let ghost h0 = hasher@;
    let mut items: Vec<BitcoinScript> = Vec::new();
    let mut i: u64 = 0;
    assert(s0.skip(0) =~= s0);
    assert(consumed(s0, s0) =~= Seq::<u8>::empty());
    assert(h0 + Seq::<u8>::empty() =~= h0);
    assert(items@.map_values(|x: BitcoinScript| x@) =~= Seq::<Seq<SpecOp>>::empty());
    while i < count
        invariant
            s0 == old(reader)@,
            h0 == old(hasher)@,
            i <= count,
            is_suffix_after_read(s0, reader@),
            hasher@ == h0 + consumed(s0, reader@),
            spec_repeat(s0, i as nat, sized_script_item()) == Ok::<_, Failure>(
                (
                    items@.map_values(|x: BitcoinScript| x@),
                    (s0.len() - reader@.len()) as nat,
                ),
            ),
        decreases count - i,
    {
        let ghost s1 = reader@;
        let ghost m = s0.len() - s1.len();
        assert(s0.skip(m) == s1);
        let ghost before_items = items@.map_values(|x: BitcoinScript| x@);
        match read_sized_script(reader, hasher) {
            Ok(x) => {
                items.push(x);
                i = i + 1;
                proof {
                    assert(items@.map_values(|x: BitcoinScript| x@) =~= before_items.push(
                        x@,
                    ));
                    assert(reader@ =~= s0.skip(s0.len() - reader@.len()));
                    assert(consumed(s0, reader@) =~= consumed(s0, s1) + consumed(s1, reader@));
                }
            },
            Err(e) => {
                proof {
                    lemma_repeat_err_stays(s0, (i + 1) as nat, count as nat, sized_script_item());
                    lemma_repeat_read_len_err_stays(
                        s0,
                        (i + 1) as nat,
                        count as nat,
                        sized_script_item(),
                        sized_script_read_len_item(),
                    );
                    assert(reader@ =~= s0.skip(s0.len() - reader@.len()));
                    assert(consumed(s0, reader@) =~= consumed(s0, s1) + consumed(s1, reader@));
                }
                return Err(e);
            },
        }
    }
    proof {
        lemma_sized_script_read_len_exact();
        lemma_repeat_read_len_ok(s0, count as nat, sized_script_item(), sized_script_read_len_item());
    }
    Ok(items)
}

/// Reads `input_count` inputs, the count of outputs and the outputs,
/// feeding every byte read to `hasher`.
#[verifier::spinoff_prover]
#[verifier::rlimit(30)]
fn read_tx_io(reader: &mut ByteReader, input_count: u64, hasher: &mut Sha256Hasher) -> (r: Result<
    (Vec<BitcoinTransactionInput>, Vec<BitcoinTransactionOutput>),
    Failure,
>)
    ensures
        match r {
            Ok((inputs, outputs)) => spec_tx_io(old(reader)@, input_count as nat) matches Ok(
                (ins, outs, k),
            ) && ins == inputs@.map_values(|x: BitcoinTransactionInput| x@) && outs
                == outputs@.map_values(|x: BitcoinTransactionOutput| x@) && k <= old(reader)@.len()
                && final(reader)@ == old(reader)@.skip(k as int),
            Err(e) => spec_tx_io(old(reader)@, input_count as nat) matches Err(f) && e == f,
        },
        is_suffix_after_read(old(reader)@, final(reader)@),
        old(reader)@.len() - final(reader)@.len() == spec_tx_io_read_len(old(reader)@, input_count as nat),
        final(hasher)@ == old(hasher)@ + consumed(old(reader)@, final(reader)@),
{
    reveal(spec_tx_io_read_len);
    let ghost s0 = reader@;
    let inputs = match read_inputs(reader, input_count, hasher) {
        Ok(v) => v,
        Err(e) => {
            return Err(e);
        },
    };
    let ghost sb = reader@;
    let ghost hb = hasher@;
    let ghost b = s0.len() - sb.len();
    let output_count = match read_varint_hash(reader, hasher) {
        Ok(v) => v,
        Err(_) => {
            assert(reader@ =~= s0.skip(s0.len() - reader@.len()));
            assert(consumed(s0, reader@) =~= consumed(s0, sb) + consumed(sb, reader@));
            return Err(Failure::Eof);
        },
    };
    let ghost sc = reader@;
    let ghost c = s0.len() - sc.len();
    assert(sc =~= s0.skip(c));
    assert(consumed(s0, sc) =~= consumed(s0, sb) + consumed(sb, sc));
    let outputs = match read_outputs(reader, output_count, hasher) {
        Ok(v) => v,
        Err(e) => {
            assert(reader@ =~= s0.skip(s0.len() - reader@.len()));
            assert(consumed(s0, reader@) =~= consumed(s0, sc) + consumed(sc, reader@));
            return Err(e);
        },
    };
    assert(reader@ =~= s0.skip(s0.len() - reader@.len()));
    assert(consumed(s0, reader@) =~= consumed(s0, sc) + consumed(sc, reader@));
    Ok((inputs, outputs))
}

/// Reads the start of a transaction (see `TxPrefix`): gives whether it has
/// the extended format, its flags (0 where it has not) and its count of
/// inputs, and feeds `hasher` the bytes read but the marker and the flags.
fn read_tx_prefix(reader: &mut ByteReader, hasher: &mut Sha256Hasher) -> (r: Result<
    (bool, u8, u64),
    Failure,
>)
    ensures
        match r {
            Ok((extended, flags, input_count)) => spec_tx_prefix(old(reader)@) matches Ok(p)
                && p.extended == extended && p.flags == flags && p.input_count == input_count
                && p.len <= old(reader)@.len() && final(reader)@ == old(reader)@.skip(p.len as int)
                && final(hasher)@ == old(hasher)@ + tx_prefix_hashed(old(reader)@, p),
            Err(e) => spec_tx_prefix(old(reader)@) matches Err(f) && e == f,
        },
        is_suffix_after_read(old(reader)@, final(reader)@),
        old(reader)@.len() - final(reader)@.len() == spec_tx_prefix_read_len(old(reader)@),
{
    reveal(spec_tx_prefix_read_len);
    let ghost s0 = reader@;
    let ghost h0 = hasher@;
    let _version = match read_le_u32_hash(reader, hasher) {
        Ok(v) => v,
        Err(_) => {
            assert(reader@ =~= s0.skip(0));
            return Err(Failure::Eof);
        },
    };
    let dummy = match read_le_u8(reader) {
        Ok(v) => v,
        Err(_) => {
            assert(reader@ =~= s0.skip(4));
            return Err(Failure::Eof);
        },
    };
    assert(reader@ =~= s0.skip(5));
    assert(hasher@ =~= h0 + s0.take(4));
    if dummy == 0 {
        let flags = match read_le_u8(reader) {
            Ok(v) => v,
            Err(_) => {
                return Err(Failure::Eof);
            },
        };
        assert(reader@ =~= s0.skip(6));
        let ghost h1 = hasher@;
        let input_count = match read_varint_hash(reader, hasher) {
            Ok(v) => v,
            Err(_) => {
                assert(reader@ =~= s0.skip(s0.len() - reader@.len()));
                return Err(Failure::Eof);
            },
        };
        proof {
            if let Some((c, k)) = spec_varint(s0.skip(6)) {
                assert(reader@ =~= s0.skip(6 + k as int));
                assert(consumed(s0.skip(6), reader@) =~= s0.subrange(6, 6 + k as int));
            }
        }
        Ok((true, flags, input_count))
    } else {
        let dummy_bytes: Vec<u8> = vec![dummy];
        hasher.update(dummy_bytes.as_slice());
        let ghost h1 = hasher@;
        assert(h1 =~= h0 + s0.take(5));
        let input_count = match read_varint_with_prefix_hash(dummy, reader, hasher) {
            Ok(v) => v,
            Err(_) => {
                return Err(Failure::Eof);
            },
        };
        proof {
            if let Some((c, k)) = spec_varint_with_prefix(dummy, s0.skip(5)) {
                assert(reader@ =~= s0.skip(5 + k as int));
                assert(consumed(s0.skip(5), reader@) =~= s0.subrange(5, 5 + k as int));
                assert(s0.take(5) + s0.subrange(5, 5 + k as int) =~= s0.take(5 + k as int));
            }
        }
        Ok((false, 0, input_count))
    }
}

/// A transaction, with the time stamp of its block (seconds since the Unix
/// epoch) and whether it is its block's first, the coinbase.
#[derive(Debug)]
pub struct BitcoinTransaction {
    pub inputs: Vec<BitcoinTransactionInput>,
    pub outputs: Vec<BitcoinTransactionOutput>,
    pub witnesses: Option<Vec<Vec<BitcoinScript>>>,
    pub lock_time: u32,
    pub timestamp: u32,
    pub is_coinbase: bool,
    pub txid: [u8; 32],
}

impl View for BitcoinTransaction {
    type V = SpecTransaction;

    open spec fn view(&self) -> SpecTransaction {
        SpecTransaction {
            inputs: self.inputs@.map_values(|x: BitcoinTransactionInput| x@),
            outputs: self.outputs@.map_values(|x: BitcoinTransactionOutput| x@),
            witnesses: match self.witnesses {
                Some(w) => Some(witnesses_view(w@)),
                None => None,
            },
            lock_time: self.lock_time as nat,
            timestamp: self.timestamp,
            is_coinbase: self.is_coinbase,
            txid: self.txid@,
        }
    }
}

/// The 32 bytes of `h` in reverse order.
fn reverse32(h: &[u8; 32]) -> (r: [u8; 32])
    ensures
        r@ == h@.reverse(),
{
    let mut r = [0u8; 32];
    let mut i: usize = 0;
    while i < 32
        invariant
            i <= 32,
            forall|j: int| 0 <= j < i ==> r@[j] == h@[31 - j],
        decreases 32 - i,
    {
        r[i] = h[31 - i];
        i = i + 1;
    }
    assert(r@ =~= h@.reverse());
    r
}

/// The id of a transaction whose hashed bytes `hasher` was fed.
fn txid_of(hasher: &Sha256Hasher) -> (id: [u8; 32])
    ensures
        id@ == spec_txid(hasher@),
{
    let hash1 = hasher.finalize();
    let mut hasher2 = Sha256Hasher::new();
    hasher2.update(hash1.as_slice());
    assert(hasher2@ =~= hash1@);
    let hash2 = hasher2.finalize();
    reverse32(&hash2)
}

/// Reads the witnesses of a transaction that starts with `p`, whose fields
/// are `extended`, `flags` and `input_count`; reads nothing where it has
/// none.
fn read_tx_witnesses(
    reader: &mut ByteReader,
    extended: bool,
    flags: u8,
    input_count: u64,
    Ghost(p): Ghost<TxPrefix>,
) -> (r: Result<Option<Vec<Vec<BitcoinScript>>>, Failure>)
    requires
        p.extended == extended,
        p.flags == flags,
        p.input_count == input_count,
    ensures
        match r {
            Ok(w) => spec_tx_witnesses(old(reader)@, p) matches Ok((ws, k)) && ws == match w {
                Some(v) => Some(witnesses_view(v@)),
                None => None,
            } && k <= old(reader)@.len() && final(reader)@ == old(reader)@.skip(k as int),
            Err(e) => spec_tx_witnesses(old(reader)@, p) matches Err(f) && e == f,
        },
        is_suffix_after_read(old(reader)@, final(reader)@),
        old(reader)@.len() - final(reader)@.len() == spec_tx_witnesses_read_len(old(reader)@, p),
{
    reveal(spec_tx_witnesses_read_len);
    if extended && flags == 1 {
        let mut scratch = Sha256Hasher::new();
        match read_witnesses(reader, input_count, &mut scratch) {
            Ok(w) => Ok(Some(w)),
            Err(e) => Err(e),
        }
    } else {
        assert(old(reader)@.skip(0) =~= old(reader)@);
        Ok(None)
    }
}

/// Reads the parts of a transaction (see `spec_tx_layout`), feeding
/// `hasher` the bytes that its id hashes.
#[verifier::spinoff_prover]
#[verifier::rlimit(50)]
fn read_tx_parts(reader: &mut ByteReader, hasher: &mut Sha256Hasher) -> (r: Result<
    (
        Vec<BitcoinTransactionInput>,
        Vec<BitcoinTransactionOutput>,
        Option<Vec<Vec<BitcoinScript>>>,
        u32,
    ),
    Failure,
>)
    ensures
        match r {
            Ok((inputs, outputs, witnesses, lock_time)) => spec_tx_layout(old(reader)@) matches Ok(
                (l, ins, outs, ws),
            ) && ins == inputs@.map_values(|x: BitcoinTransactionInput| x@) && outs
                == outputs@.map_values(|x: BitcoinTransactionOutput| x@) && ws == match witnesses {
                Some(w) => Some(witnesses_view(w@)),
                None => None,
            } && lock_time == le_value(
                old(reader)@.subrange(l.witnesses_end as int, l.witnesses_end + 4int),
            ) && l.witnesses_end + 4 <= old(reader)@.len() && final(reader)@ == old(reader)@.skip(
                l.witnesses_end + 4int,
            ) && final(hasher)@ == old(hasher)@ + tx_hashed(old(reader)@, l),
            Err(e) => spec_tx_layout(old(reader)@) matches Err(f) && e == f,
        },
        is_suffix_after_read(old(reader)@, final(reader)@),
        old(reader)@.len() - final(reader)@.len() == spec_tx_read_len(old(reader)@),
{
    reveal(spec_tx_read_len);
    let ghost s0 = reader@;
    let ghost h0 = hasher@;
    let (extended, flags, input_count) = match read_tx_prefix(reader, hasher) {
        Ok(t) => t,
        Err(e) => {
            return Err(e);
        },
    };
    let ghost p = spec_tx_prefix(s0)->Ok_0;
    let ghost a = p.len as int;
    let ghost sa = reader@;
    proof {
        lemma_tx_io_read_len_ok(sa, p.input_count);
    }
    let (inputs, outputs) = match read_tx_io(reader, input_count, hasher) {
        Ok(v) => v,
        Err(e) => {
            assert(reader@ =~= s0.skip(s0.len() - reader@.len()));
            return Err(e);
        },
    };
    let ghost d = a + spec_tx_io(sa, p.input_count)->Ok_0.2;
    let ghost sd = reader@;
    assert(sd =~= s0.skip(d));
    assert(hasher@ =~= h0 + tx_prefix_hashed(s0, p) + s0.subrange(a, d));
    let witnesses = match read_tx_witnesses(reader, extended, flags, input_count, Ghost(p)) {
        Ok(w) => w,
        Err(e) => {
            assert(reader@ =~= s0.skip(s0.len() - reader@.len()));
            return Err(e);
        },
    };
    proof {
        lemma_tx_witnesses_read_len_ok(sd, p);
    }
    let ghost e = d + spec_tx_witnesses(sd, p)->Ok_0.1;
    let ghost se = reader@;
    assert(se =~= s0.skip(e));
    let ghost h_before_lock = hasher@;
    let lock_time = match read_le_u32_hash(reader, hasher) {
        Ok(v) => v,
        Err(_) => {
            return Err(Failure::Eof);
        },
    };
    assert(reader@ =~= s0.skip(e + 4));
    assert(se.take(4) =~= s0.subrange(e, e + 4));
    let ghost l = spec_tx_layout(s0)->Ok_0.0;
    assert(hasher@ =~= h0 + tx_hashed(s0, l));
    Ok((inputs, outputs, witnesses, lock_time))
}

impl BitcoinTransaction {
    /// Reads a transaction, in the plain format or in the extended format of
    /// BIP 144, and computes its id (see `read`).
    pub fn new(reader: &mut ByteReader, timestamp: u32, is_coinbase: bool) -> (r: Result<
        BitcoinTransaction,
        ParseError,
    >)
        requires
            reading_returns(spec_parse_tx(old(reader)@, timestamp, is_coinbase)),
        ensures
            read_as(r, spec_parse_tx(old(reader)@, timestamp, is_coinbase), old(reader)@, final(reader)@),
            is_suffix_after_read(old(reader)@, final(reader)@),
            old(reader)@.len() - final(reader)@.len() == spec_tx_read_len(old(reader)@),
    {
        match Self::read(reader, timestamp, is_coinbase) {
            Ok(x) => Ok(x),
            Err(f) => Err(to_parse_error(f)),
        }
    }

    /// Reads a transaction, in the plain format or in the extended format of
    /// BIP 144 (marker 0, flags, and witnesses after the outputs when the
    /// flags are 1), and computes its id: the double SHA-256, bytes
    /// reversed, of the bytes read but the marker, the flags and the
    /// witnesses. Says what reading comes to, whatever the bytes.
    pub fn read(reader: &mut ByteReader, timestamp: u32, is_coinbase: bool) -> (r: Result<
        BitcoinTransaction,
        Failure,
    >)
        ensures
            parsed_as(r, spec_parse_tx(old(reader)@, timestamp, is_coinbase), old(reader)@, final(reader)@),
            is_suffix_after_read(old(reader)@, final(reader)@),
            old(reader)@.len() - final(reader)@.len() == spec_tx_read_len(old(reader)@),
    {
        reveal(spec_parse_tx);
        let mut hasher = Sha256Hasher::new();
        let (inputs, outputs, witnesses, lock_time) = match read_tx_parts(reader, &mut hasher) {
            Ok(parts) => parts,
            Err(e) => {
                return Err(e);
            },
        };
        assert(hasher@ =~= tx_hashed(old(reader)@, spec_tx_layout(old(reader)@)->Ok_0.0));
        let txid = txid_of(&hasher);
        Ok(BitcoinTransaction {
            inputs,
            outputs,
            witnesses,
            lock_time,
            timestamp,
            is_coinbase,
            txid,
        })
    }
}

/// The sum of the values of `outputs`.
pub open spec fn total_value(outputs: Seq<SpecOutput>) -> nat
    decreases outputs.len(),
{
    if outputs.len() == 0 {
        0
    } else {
        total_value(outputs.drop_last()) + outputs.last().value
    }
}

/// No outputs are worth nothing, and one more output adds its whole value
/// to the sum, whatever the outputs before it hold.
pub proof fn lemma_total_value_push(outputs: Seq<SpecOutput>, o: SpecOutput)
    ensures
        total_value(Seq::<SpecOutput>::empty()) == 0,
        total_value(outputs.push(o)) == total_value(outputs) + o.value,
{
    assert(outputs.push(o).drop_last() =~= outputs);
}

/// The sum over two lists of outputs put together is the sum over the
/// first plus the sum over the second.
pub proof fn lemma_total_value_append(a: Seq<SpecOutput>, b: Seq<SpecOutput>)
    ensures
        total_value(a + b) == total_value(a) + total_value(b),
    decreases b.len(),
{
    if b.len() == 0 {
        assert(a + b =~= a);
    } else {
        lemma_total_value_append(a, b.drop_last());
        assert((a + b).drop_last() =~= a + b.drop_last());
    }
}

/// A single output is worth its own value.
pub proof fn lemma_total_value_singleton(o: SpecOutput)
    ensures
        total_value(seq![o]) == o.value,
{
    lemma_total_value_push(Seq::<SpecOutput>::empty(), o);
    assert(Seq::<SpecOutput>::empty().push(o) =~= seq![o]);
}

/// The sum of the values of outputs does not depend on which of two parts
/// of them comes first.
pub proof fn lemma_total_value_swap(a: Seq<SpecOutput>, b: Seq<SpecOutput>)
    ensures
        total_value(a + b) == total_value(b + a),
{
    lemma_total_value_append(a, b);
    lemma_total_value_append(b, a);
}

/// The values of the first `i` outputs add up to no more than those of all.
pub proof fn lemma_total_value_prefix(outputs: Seq<SpecOutput>, i: int)
    requires
        0 <= i <= outputs.len(),
    ensures
        total_value(outputs.take(i)) <= total_value(outputs),
    decreases outputs.len() - i,
{
    if i < outputs.len() {
        lemma_total_value_prefix(outputs, i + 1);
        assert(outputs.take(i + 1).drop_last() =~= outputs.take(i));
    } else {
        assert(outputs.take(i) =~= outputs);
    }
}

impl BitcoinTransaction {
    /// The sum of the values of the outputs.
    pub fn value(&self) -> (v: u64)
        requires
            total_value(self@.outputs) <= u64::MAX,
        ensures
            v == total_value(self@.outputs),
    {
        let ghost outs = self@.outputs;
        let mut sum: u64 = 0;
        let mut i: usize = 0;
        assert(outs.take(0) =~= Seq::<SpecOutput>::empty());
        while i < self.outputs.len()
            invariant
                outs == self@.outputs,
                outs.len() == self.outputs@.len(),
                total_value(outs) <= u64::MAX,
                i <= self.outputs@.len(),
                sum == total_value(outs.take(i as int)),
            decreases self.outputs@.len() - i,
        {
            proof {
                lemma_total_value_prefix(outs, i + 1);
                assert(outs.take(i + 1).drop_last() =~= outs.take(i as int));
                assert(outs[i as int] == self.outputs@[i as int]@);
            }
            sum = sum + self.outputs[i].value;
            i = i + 1;
        }
        assert(outs.take(i as int) =~= outs);
        sum
    }

    /// The sum of the values of the outputs, or `None` where it does not
    /// fit in a u64 (where `value` would overflow).
    pub fn checked_value(&self) -> (v: Option<u64>)
        ensures
            v == if total_value(self@.outputs) <= u64::MAX {
                Some(total_value(self@.outputs) as u64)
            } else {
                None
            },
    {
        let ghost outs = self@.outputs;
        let mut sum: u64 = 0;
        let mut i: usize = 0;
        assert(outs.take(0) =~= Seq::<SpecOutput>::empty());
        while i < self.outputs.len()
            invariant
                outs == self@.outputs,
                outs.len() == self.outputs@.len(),
                i <= self.outputs@.len(),
                sum == total_value(outs.take(i as int)),
            decreases self.outputs@.len() - i,
        {
            proof {
                lemma_total_value_prefix(outs, i + 1);
                assert(outs.take(i + 1).drop_last() =~= outs.take(i as int));
                assert(outs[i as int] == self.outputs@[i as int]@);
            }
            match sum.checked_add(self.outputs[i].value) {
                Some(next) => {
                    sum = next;
                },
                None => {
                    return None;
                },
            }
            i = i + 1;
        }
        assert(outs.take(i as int) =~= outs);
        Some(sum)
    }
}

} // verus!
