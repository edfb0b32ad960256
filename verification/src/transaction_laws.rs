//! What holds of every transaction that can be read, beyond the contracts
//! of the functions that read one: which bytes its parts are read from, its
//! witnesses, and its id.

use crate::basic_reading::{
    agree, le_value, lemma_agree_subrange, lemma_le_value_4, lemma_le_value_8, lemma_varint_local,
    spec_varint,
};
use crate::errors::Failure;
use crate::hashing::sha256_digest;
use crate::list::{item_local, item_local_at, lemma_repeat_len, lemma_repeat_local, spec_repeat};
use crate::script::{lemma_parse_script_local, SpecOp};
use crate::transaction::{
    has_witnesses, input_item, output_item, spec_parse_input, spec_parse_output, spec_parse_tx, spec_sized_script, spec_tx_io,
    spec_tx_layout, spec_tx_prefix, spec_tx_witnesses, tx_hashed, witness_stack_item,
    SpecTransaction, TxLayout, TxPrefix,
};
use vstd::prelude::*;

verus! {

/// A transaction read from `s` carries the time stamp and the coinbase mark
/// that it was read with.
pub proof fn lemma_tx_keeps_block_data(s: Seq<u8>, timestamp: u32, is_coinbase: bool)
    ensures
        spec_parse_tx(s, timestamp, is_coinbase) matches Ok((tx, _)) ==> tx.timestamp == timestamp
            && tx.is_coinbase == is_coinbase,
{
    reveal(spec_parse_tx);
}

/// A transaction has witnesses exactly where it has the extended format with
/// the flags 1, and then one witness stack for each input.
pub proof fn lemma_witness_stack_per_input(s: Seq<u8>, timestamp: u32, is_coinbase: bool)
    ensures
        spec_parse_tx(s, timestamp, is_coinbase) matches Ok((tx, _)) ==> {
            &&& (tx.witnesses is Some <==> (s[4] == 0 && s[5] == 1))
            &&& tx.witnesses matches Some(ws) ==> ws.len() == tx.inputs.len()
        },
{
    reveal(spec_parse_tx);
    if let Ok(p) = spec_tx_prefix(s) {
        let a = p.len as int;
        lemma_repeat_len(s.skip(a), p.input_count, input_item());
        if let Ok((ins, outs, kio)) = spec_tx_io(s.skip(a), p.input_count) {
            let d = p.len + kio;
            lemma_repeat_len(s.skip(d as int), p.input_count, witness_stack_item());
        }
    }
}

/// The id of a transaction in the plain format (the byte after the version
/// is not 0) is the double SHA-256 of exactly the bytes it takes, reversed.
pub proof fn lemma_plain_txid(s: Seq<u8>, timestamp: u32, is_coinbase: bool)
    ensures
        s[4] != 0 ==> (spec_parse_tx(s, timestamp, is_coinbase) matches Ok((tx, k)) ==> tx.txid
            == sha256_digest(sha256_digest(s.take(k as int))).reverse()),
{
    reveal(spec_parse_tx);
    if let Ok((l, ins, outs, ws)) = spec_tx_layout(s) {
        if s[4] != 0 {
            let a = l.prefix.len as int;
            let d = l.outputs_end as int;
            assert(tx_hashed(s, l) =~= s.take(d + 4));
        }
    }
}

/// An input read from `s` refers to the previous transaction by the 32
/// bytes that start `s`, as they stand, and to its output by the full
/// little-endian u32 that follows them; it takes those 36 bytes, its script
/// with its length and the 4 bytes of the sequence number, no more than
/// there are.
pub proof fn lemma_input_fields(s: Seq<u8>)
    ensures
        spec_parse_input(s) matches Ok((i, k)) ==> {
            &&& 40 <= k <= s.len()
            &&& i.prev_transaction == s.take(32)
            &&& i.prev_transaction_output == le_value(s.subrange(32, 36))
            &&& i.prev_transaction_output <= u32::MAX
            &&& spec_sized_script(s.skip(36)) == Ok::<_, Failure>((i.script, (k - 40) as nat))
        },
{
    if s.len() >= 36 {
        lemma_le_value_4(s.subrange(32, 36));
    }
}

/// An output read from `s` is worth the full little-endian u64 of the first
/// 8 bytes of `s`, and takes them and its script with its length, no more
/// than there are.
pub proof fn lemma_output_fields(s: Seq<u8>)
    ensures
        spec_parse_output(s) matches Ok((o, k)) ==> {
            &&& 8 <= k
            &&& o.value == le_value(s.take(8))
            &&& o.value <= u64::MAX
            &&& spec_sized_script(s.skip(8)) == Ok::<_, Failure>((o.script, (k - 8) as nat))
        },
{
    if s.len() >= 8 {
        lemma_le_value_8(s.take(8));
    }
}

/// A transaction read from `s` takes no more bytes than there are, and its
/// lock time is the full little-endian u32 of the last 4 bytes it takes; it
/// has as many inputs as the count after the version says (after the marker
/// and the flags, in the extended format).
pub proof fn lemma_tx_lock_time_and_inputs(s: Seq<u8>, timestamp: u32, is_coinbase: bool)
    ensures
        spec_parse_tx(s, timestamp, is_coinbase) matches Ok((tx, k)) ==> {
            &&& 9 <= k <= s.len()
            &&& tx.lock_time == le_value(s.subrange(k - 4, k as int))
            &&& tx.lock_time <= u32::MAX
            &&& s[4] == 0 ==> (spec_varint(s.skip(6)) matches Some((c, _)) && tx.inputs.len() == c)
            &&& s[4] != 0 ==> (spec_varint(s.skip(4)) matches Some((c, _)) && tx.inputs.len() == c)
        },
{
    reveal(spec_parse_tx);
    if let Ok(p) = spec_tx_prefix(s) {
        let a = p.len as int;
        assert(s.skip(4).drop_first() =~= s.skip(5));
        lemma_repeat_len(s.skip(a), p.input_count, input_item());
        if let Ok((l, ins, outs, ws)) = spec_tx_layout(s) {
            let e = l.witnesses_end as int;
            lemma_le_value_4(s.subrange(e, e + 4));
        }
    }
}

/// A length and a script are read from the bytes they take alone.
pub proof fn lemma_sized_script_local(z: Seq<u8>, z2: Seq<u8>)
    ensures
        spec_sized_script(z) matches Ok((ops, k)) ==> k <= z.len() && (agree(z, z2, k as int)
            ==> spec_sized_script(z2) == spec_sized_script(z)),
{
    lemma_varint_local(z, z2);
    if let Some((size, k)) = spec_varint(z) {
        lemma_parse_script_local(z.skip(k as int), z2.skip(k as int), size);
        if let Ok((ops, kk)) = spec_sized_script(z) {
            if agree(z, z2, kk as int) {
                lemma_agree_subrange(z, z2, kk as int, k as int, kk as int);
            }
        }
    }
}

/// An input is read from the bytes it takes alone.
pub proof fn lemma_input_item_local()
    ensures
        item_local(input_item()),
{
    assert forall|z: Seq<u8>, z2: Seq<u8>| #[trigger] item_local_at(input_item(), z, z2) by {
        if let Ok((v, k)) = input_item()(z) {
        if z.len() >= 36 {
            lemma_sized_script_local(z.skip(36), z2.skip(36));
            if agree(z, z2, k as int) {
                lemma_agree_subrange(z, z2, k as int, 0, 32);
                lemma_agree_subrange(z, z2, k as int, 32, 36);
                lemma_agree_subrange(z, z2, k as int, 36, k as int);
            }
        }
        }
    }
}

/// An output is read from the bytes it takes alone.
pub proof fn lemma_output_item_local()
    ensures
        item_local(output_item()),
{
    assert forall|z: Seq<u8>, z2: Seq<u8>| #[trigger] item_local_at(output_item(), z, z2) by {
        if let Ok((v, k)) = output_item()(z) {
        if z.len() >= 8 {
            lemma_sized_script_local(z.skip(8), z2.skip(8));
            if agree(z, z2, k as int) {
                lemma_agree_subrange(z, z2, k as int, 0, 8);
                lemma_agree_subrange(z, z2, k as int, 8, k as int);
            }
        }
        }
    }
}

/// Inputs, the count of outputs and the outputs are read from the bytes
/// they take alone.
pub proof fn lemma_tx_io_local(z: Seq<u8>, z2: Seq<u8>, input_count: nat)
    ensures
        spec_tx_io(z, input_count) matches Ok((ins, outs, k)) ==> k <= z.len() && (agree(
            z,
            z2,
            k as int,
        ) ==> spec_tx_io(z2, input_count) == spec_tx_io(z, input_count)),
{
    lemma_input_item_local();
    lemma_output_item_local();
    lemma_repeat_local(z, z2, input_count, input_item());
    if let Ok((ins, ki)) = spec_repeat(z, input_count, input_item()) {
        lemma_varint_local(z.skip(ki as int), z2.skip(ki as int));
        if let Some((oc, ko)) = spec_varint(z.skip(ki as int)) {
            lemma_repeat_local(z.skip(ki + ko as int), z2.skip(ki + ko as int), oc, output_item());
            if let Ok((ins2, outs, k)) = spec_tx_io(z, input_count) {
                if agree(z, z2, k as int) {
                    lemma_agree_subrange(z, z2, k as int, 0, ki as int);
                    lemma_agree_subrange(z, z2, k as int, ki as int, k as int);
                    lemma_agree_subrange(z, z2, k as int, ki + ko as int, k as int);
                    lemma_agree_subrange(z.skip(ki as int), z2.skip(ki as int), k - ki, 0, ko as int);
                }
            }
        }
    }
}

/// The bytes of the transaction that starts `s` with its marker, its flags
/// and its witnesses taken out, which are the bytes its id hashes (empty
/// where it cannot be read).
pub open spec fn spec_strip_witnesses(s: Seq<u8>) -> Seq<u8> {
    match spec_tx_layout(s) {
        Ok((l, _, _, _)) => tx_hashed(s, l),
        Err(_) => Seq::empty(),
    }
}

/// `tx` with its witnesses taken out.
pub open spec fn without_witnesses(tx: SpecTransaction) -> SpecTransaction {
    SpecTransaction {
        inputs: tx.inputs,
        outputs: tx.outputs,
        witnesses: None,
        lock_time: tx.lock_time,
        timestamp: tx.timestamp,
        is_coinbase: tx.is_coinbase,
        txid: tx.txid,
    }
}

/// Where bytes `from2..from2+n` of `t` are bytes `from..from+n` of `s`,
/// what follows those positions agrees on `n` bytes.
proof fn lemma_agree_shifted(s: Seq<u8>, t: Seq<u8>, from: int, from2: int, n: int)
    requires
        0 <= from,
        0 <= from2,
        0 <= n,
        from + n <= s.len(),
        from2 + n <= t.len(),
        forall|i: int| 0 <= i < n ==> #[trigger] t[from2 + i] == s[from + i],
    ensures
        agree(s.skip(from), t.skip(from2), n),
{
    assert forall|i: int| 0 <= i < n implies #[trigger] s.skip(from)[i] == t.skip(from2)[i] by {
        assert(t[from2 + i] == s[from + i]);
    }
}

/// The positions of the bytes of an extended transaction with its marker,
/// flags and witnesses taken out.
proof fn lemma_stripped_index(s: Seq<u8>, d: int, e: int)
    requires
        6 <= d <= e,
        e + 4 <= s.len(),
    ensures
        ({
            let t = s.take(4) + s.subrange(6, d) + s.subrange(e, e + 4);
            &&& t.len() == d + 2
            &&& forall|i: int| 0 <= i < 4 ==> #[trigger] t[i] == s[i]
            &&& forall|i: int| 0 <= i < d - 6 ==> #[trigger] t[4 + i] == s[6 + i]
            &&& t.skip(d - 2) == s.subrange(e, e + 4)
        }),
{
    let t = s.take(4) + s.subrange(6, d) + s.subrange(e, e + 4);
    assert forall|i: int| 0 <= i < d - 6 implies #[trigger] t[4 + i] == s[6 + i] by {
        assert(t[4 + i] == s.subrange(6, d)[i]);
    }
    assert(t.skip(d - 2) =~= s.subrange(e, e + 4));
}

#[verifier::spinoff_prover]
#[verifier::rlimit(40)]
proof fn lemma_strip_extended(s: Seq<u8>, timestamp: u32, is_coinbase: bool)
    requires
        spec_tx_layout(s) is Ok,
        s[4] == 0,
        s[6] != 0,
    ensures
        spec_parse_tx(s, timestamp, is_coinbase) matches Ok((tx, _)) ==> spec_parse_tx(
            spec_strip_witnesses(s),
            timestamp,
            is_coinbase,
        ) == Ok::<_, Failure>((without_witnesses(tx), spec_strip_witnesses(s).len())),
{
    reveal(spec_parse_tx);
    let (l, ins, outs, ws) = spec_tx_layout(s)->Ok_0;
    let p = l.prefix;
    let a = p.len as int;
    let d = l.outputs_end as int;
    let e = l.witnesses_end as int;
    let kc = (a - 6) as int;
    let t = spec_strip_witnesses(s);
    assert(t == s.take(4) + s.subrange(6, d) + s.subrange(e, e + 4));
    lemma_stripped_index(s, d, e);
    // the count of inputs, read after the version, as in the plain format
    lemma_varint_local(s.skip(6), t.skip(4));
    lemma_agree_shifted(s, t, 6, 4, kc);
    assert(t.skip(4).drop_first() =~= t.skip(5));
    assert(t[4] == s[6]) by {
        assert(t[4 + 0int] == s[6 + 0int]);
    }
    let p2 = TxPrefix { extended: false, flags: 0, input_count: p.input_count, len: (a - 2) as nat };
    assert(spec_tx_prefix(t) == Ok::<_, Failure>(p2));
    // the inputs and the outputs
    lemma_tx_io_local(s.skip(a), t.skip(a - 2), p.input_count);
    assert forall|i: int| 0 <= i < d - a implies #[trigger] t[(a - 2) + i] == s[a + i] by {
        assert(t[4 + (a - 6 + i)] == s[6 + (a - 6 + i)]);
    }
    lemma_agree_shifted(s, t, a, a - 2, d - a);
    let l2 = TxLayout { prefix: p2, outputs_end: (d - 2) as nat, witnesses_end: (d - 2) as nat };
    assert(spec_tx_witnesses(t.skip(d - 2), p2) == Ok::<_, Failure>(
        (None::<Seq<Seq<Seq<SpecOp>>>>, 0nat),
    ));
    assert(spec_tx_layout(t) == Ok::<_, Failure>((l2, ins, outs, None::<Seq<Seq<Seq<SpecOp>>>>)));
    assert(t.subrange(d - 2, d + 2) =~= s.subrange(e, e + 4));
    assert(tx_hashed(t, l2) =~= t);
}

#[verifier::spinoff_prover]
#[verifier::rlimit(40)]
proof fn lemma_strip_plain(s: Seq<u8>, timestamp: u32, is_coinbase: bool)
    requires
        spec_tx_layout(s) is Ok,
        s[4] != 0,
    ensures
        spec_parse_tx(s, timestamp, is_coinbase) matches Ok((tx, _)) ==> spec_parse_tx(
            spec_strip_witnesses(s),
            timestamp,
            is_coinbase,
        ) == Ok::<_, Failure>((without_witnesses(tx), spec_strip_witnesses(s).len())),
{
    reveal(spec_parse_tx);
    let (l, ins, outs, ws) = spec_tx_layout(s)->Ok_0;
    let p = l.prefix;
    let a = p.len as int;
    let d = l.outputs_end as int;
    let t = spec_strip_witnesses(s);
    assert(!has_witnesses(p));
    assert(l.witnesses_end == l.outputs_end);
    assert(t =~= s.take(d + 4));
    lemma_varint_local(s.skip(4), t.skip(4));
    assert(agree(s.skip(4), t.skip(4), a - 4)) by {
        assert forall|i: int| 0 <= i < a - 4 implies #[trigger] s.skip(4)[i] == t.skip(4)[i] by {
            assert(t[4 + i] == s.take(d + 4)[4 + i]);
        }
    }
    assert(s.skip(4).drop_first() =~= s.skip(5));
    assert(t.skip(4).drop_first() =~= t.skip(5));
    assert(t[4] == s[4]);
    assert(spec_tx_prefix(t) == Ok::<_, Failure>(p));
    lemma_tx_io_local(s.skip(a), t.skip(a), p.input_count);
    assert(agree(s.skip(a), t.skip(a), d - a)) by {
        assert forall|i: int| 0 <= i < d - a implies #[trigger] s.skip(a)[i] == t.skip(a)[i] by {
            assert(t[a + i] == s.take(d + 4)[a + i]);
        }
    }
    assert(spec_tx_layout(t) == spec_tx_layout(s));
    assert(t.subrange(d, d + 4) =~= s.subrange(d, d + 4));
    assert(tx_hashed(t, l) =~= tx_hashed(s, l));
}

/// A transaction's id does not depend on its witnesses: with the marker,
/// the flags and the witnesses taken out, its bytes read as a plain
/// transaction with the same inputs, outputs, lock time and id, and no
/// witnesses. (Where a byte 0 follows the marker and the flags, the bytes
/// with those taken out start like an extended transaction again.)
pub proof fn lemma_txid_ignores_witnesses(s: Seq<u8>, timestamp: u32, is_coinbase: bool)
    requires
        !(s.len() > 6 && s[4] == 0 && s[6] == 0),
    ensures
        spec_parse_tx(s, timestamp, is_coinbase) matches Ok((tx, _)) ==> spec_parse_tx(
            spec_strip_witnesses(s),
            timestamp,
            is_coinbase,
        ) == Ok::<_, Failure>((without_witnesses(tx), spec_strip_witnesses(s).len())),
{
    reveal(spec_parse_tx);
    if spec_tx_layout(s) is Ok {
        if s[4] == 0 {
            lemma_strip_extended(s, timestamp, is_coinbase);
        } else {
            lemma_strip_plain(s, timestamp, is_coinbase);
        }
    }
}

} // verus!
