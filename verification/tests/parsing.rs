use bitcoin_parser::basic_reading::{ByteReader, ReadError};
use bitcoin_parser::block::{is_block_file_name, BitcoinBlock, BlockFileIterator, BLOCK_MAGIC};
use bitcoin_parser::errors::{Failure, ParseError};
use bitcoin_parser::hashing::Sha256Hasher;
use bitcoin_parser::script::{byte_to_opcode, BitcoinScript, BitcoinScriptParseError, OPCode};
use bitcoin_parser::transaction::{
    BitcoinTransaction, BitcoinTransactionInput, BitcoinTransactionOutput,
};
use sha2::{Digest, Sha256};

fn reader(bytes: &[u8]) -> ByteReader {
    ByteReader::new(bytes.to_vec())
}

fn hex(s: &str) -> Vec<u8> {
    (0..s.len()).step_by(2).map(|i| u8::from_str_radix(&s[i..i + 2], 16).unwrap()).collect()
}

fn sha256(bytes: &[u8]) -> [u8; 32] {
    Sha256::digest(bytes).into()
}

fn sha256d_reversed(bytes: &[u8]) -> [u8; 32] {
    let mut h = sha256(&sha256(bytes));
    h.reverse();
    h
}

const GENESIS_PUBKEY: &str = "04678afdb0fe5548271967f1a67130b7105cd6a828e03909a67962e0ea1f61deb649f6bc3f4cef38c4f35504e51ec112de5c384df7ba0b8d578a4c702b6bf11d5f";
const GENESIS_TXID: &str = "4a5e1e4baab89f3a32518a88c31bc87f618f76673e2cc77ab2127b7afdeda33b";

fn genesis_coinbase_script_sig() -> Vec<u8> {
    let text = b"The Times 03/Jan/2009 Chancellor on brink of second bailout for banks";
    let mut sig = hex("04ffff001d0104");
    sig.push(text.len() as u8);
    sig.extend_from_slice(text);
    sig
}

fn genesis_coinbase() -> Vec<u8> {
    let sig = genesis_coinbase_script_sig();
    let mut tx = hex("01000000");
    tx.push(1);
    tx.extend_from_slice(&[0u8; 32]);
    tx.extend_from_slice(&hex("ffffffff"));
    tx.push(sig.len() as u8);
    tx.extend_from_slice(&sig);
    tx.extend_from_slice(&hex("ffffffff"));
    tx.push(1);
    tx.extend_from_slice(&5_000_000_000u64.to_le_bytes());
    tx.push(67);
    tx.push(0x41);
    tx.extend_from_slice(&hex(GENESIS_PUBKEY));
    tx.push(0xac);
    tx.extend_from_slice(&[0, 0, 0, 0]);
    tx
}

fn genesis_block_file_entry() -> Vec<u8> {
    let tx = genesis_coinbase();
    let mut merkle_root = hex(GENESIS_TXID);
    merkle_root.reverse();
    let mut body = Vec::new();
    body.extend_from_slice(&1u32.to_le_bytes());
    body.extend_from_slice(&[0u8; 32]);
    body.extend_from_slice(&merkle_root);
    body.extend_from_slice(&1231006505u32.to_le_bytes());
    body.extend_from_slice(&hex("ffff001d"));
    body.extend_from_slice(&2083236893u32.to_le_bytes());
    body.push(1);
    body.extend_from_slice(&tx);
    let mut entry = BLOCK_MAGIC.to_le_bytes().to_vec();
    entry.extend_from_slice(&(body.len() as u32).to_le_bytes());
    entry.extend_from_slice(&body);
    entry
}

/// A transaction in the extended format: one input, one output, a witness
/// of two items; and the same transaction with the marker, the flags and
/// the witness taken out.
fn segwit_transaction() -> (Vec<u8>, Vec<u8>) {
    let version = 2u32.to_le_bytes();
    let mut io = vec![1u8];
    io.extend_from_slice(&[0x11; 32]);
    io.extend_from_slice(&3u32.to_le_bytes());
    io.push(0);
    io.extend_from_slice(&hex("feffffff"));
    io.push(1);
    io.extend_from_slice(&1000u64.to_le_bytes());
    io.extend_from_slice(&[2, 0x51, 0x52]);
    let witness = vec![2u8, 3, 0xaa, 0xbb, 0xcc, 2, 0x01, 0x7f];
    let lock_time = 700_000u32.to_le_bytes();
    let mut extended = version.to_vec();
    extended.extend_from_slice(&[0x00, 0x01]);
    extended.extend_from_slice(&io);
    extended.extend_from_slice(&witness);
    extended.extend_from_slice(&lock_time);
    let mut stripped = version.to_vec();
    stripped.extend_from_slice(&io);
    stripped.extend_from_slice(&lock_time);
    (extended, stripped)
}

#[test]
fn script_pushes_and_opcodes() {
    // OP_DUP OP_HASH160 <3 bytes> OP_PUSHDATA1 <2 bytes> OP_PUSHDATA2 <1 byte>
    // OP_PUSHDATA4 <0 bytes> OP_0 OP_CHECKSIG
    let bytes = [
        0x76, 0xa9, 0x03, 1, 2, 3, 0x4c, 0x02, 4, 5, 0x4d, 0x01, 0x00, 6, 0x4e, 0, 0, 0, 0, 0x00,
        0xac, 0xee,
    ];
    let mut r = reader(&bytes);
    let mut h = Sha256Hasher::new();
    let script = BitcoinScript::new(&mut r, 21, &mut h).unwrap().unwrap();
    assert_eq!(
        script.opcodes,
        vec![
            OPCode::Op(0x76),
            OPCode::Op(0xa9),
            OPCode::Data(vec![1, 2, 3]),
            OPCode::Data(vec![4, 5]),
            OPCode::Data(vec![6]),
            OPCode::Data(vec![]),
            OPCode::Op(0x00),
            OPCode::Op(0xac),
        ]
    );
    // exactly the script's length was read, and hashed
    assert_eq!(r.remaining_len(), 1);
    assert_eq!(h.finalize(), sha256(&bytes[..21]));
}

#[test]
fn empty_script() {
    let mut r = reader(&[0x51]);
    let mut h = Sha256Hasher::new();
    let script = BitcoinScript::new(&mut r, 0, &mut h).unwrap().unwrap();
    assert!(script.opcodes.is_empty());
    assert_eq!(r.remaining_len(), 1);
}

#[test]
fn byte_to_opcode_keeps_the_byte() {
    assert_eq!(byte_to_opcode(0xac), OPCode::Op(0xac));
}

#[test]
fn script_push_longer_than_script() {
    let mut r = reader(&[0x05, 1, 2, 3, 4, 5]);
    let mut h = Sha256Hasher::new();
    assert_eq!(BitcoinScript::new(&mut r, 4, &mut h).unwrap(), Err(BitcoinScriptParseError::TooLong));
    // the opcode was read, and nothing after it
    assert_eq!(r.remaining_len(), 5);
    assert_eq!(h.finalize(), sha256(&[0x05]));
}

#[test]
fn script_cut_off_by_end_of_bytes() {
    let mut r = reader(&[0x51, 0x03, 1]);
    let mut h = Sha256Hasher::new();
    assert_eq!(BitcoinScript::new(&mut r, 5, &mut h), Err(ReadError::UnexpectedEof));
}

#[test]
fn script_size_field_past_end_is_a_length_underflow() {
    let mut r = reader(&[0x4c, 0x01, 0xaa]);
    let mut h = Sha256Hasher::new();
    assert_eq!(BitcoinScript::read(&mut r, 1, &mut h), Err(Failure::LengthUnderflow));
}

#[test]
fn genesis_coinbase_transaction() {
    let bytes = genesis_coinbase();
    let mut r = reader(&bytes);
    let tx = BitcoinTransaction::new(&mut r, 1231006505, true).unwrap();
    assert_eq!(r.remaining_len(), 0);
    assert_eq!(tx.txid.to_vec(), hex(GENESIS_TXID));
    assert_eq!(tx.inputs.len(), 1);
    assert_eq!(tx.inputs[0].prev_transaction, [0u8; 32]);
    assert_eq!(tx.inputs[0].prev_transaction_output, 0xffffffff);
    assert_eq!(tx.outputs.len(), 1);
    assert_eq!(tx.outputs[0].value, 5_000_000_000);
    assert_eq!(
        tx.outputs[0].script.opcodes,
        vec![OPCode::Data(hex(GENESIS_PUBKEY)), OPCode::Op(0xac)]
    );
    assert_eq!(
        tx.inputs[0].script.opcodes[2],
        OPCode::Data(b"The Times 03/Jan/2009 Chancellor on brink of second bailout for banks".to_vec())
    );
    assert!(tx.witnesses.is_none());
    assert_eq!(tx.lock_time, 0);
    assert!(tx.is_coinbase);
    assert_eq!(tx.timestamp, 1231006505);
    assert_eq!(tx.value(), 5_000_000_000);
    assert_eq!(tx.checked_value(), Some(5_000_000_000));
}

#[test]
fn plain_txid_is_double_sha256_of_the_bytes_reversed() {
    let bytes = genesis_coinbase();
    let tx = BitcoinTransaction::new(&mut reader(&bytes), 0, false).unwrap();
    assert_eq!(tx.txid, sha256d_reversed(&bytes));
}

#[test]
fn segwit_transaction_witnesses() {
    let (extended, _) = segwit_transaction();
    let mut r = reader(&extended);
    let tx = BitcoinTransaction::new(&mut r, 5, false).unwrap();
    assert_eq!(r.remaining_len(), 0);
    let witnesses = tx.witnesses.as_ref().unwrap();
    assert_eq!(witnesses.len(), tx.inputs.len());
    assert_eq!(
        witnesses[0],
        vec![
            BitcoinScript { opcodes: vec![OPCode::Op(0xaa), OPCode::Op(0xbb), OPCode::Op(0xcc)] },
            BitcoinScript { opcodes: vec![OPCode::Data(vec![0x7f])] },
        ]
    );
    assert_eq!(tx.inputs[0].prev_transaction, [0x11; 32]);
    assert_eq!(tx.inputs[0].prev_transaction_output, 3);
    assert!(tx.inputs[0].script.opcodes.is_empty());
    assert_eq!(tx.outputs[0].value, 1000);
    assert_eq!(tx.outputs[0].script.opcodes, vec![OPCode::Op(0x51), OPCode::Op(0x52)]);
    assert_eq!(tx.lock_time, 700_000);
}

#[test]
fn segwit_txid_ignores_witnesses() {
    let (extended, stripped) = segwit_transaction();
    let tx = BitcoinTransaction::new(&mut reader(&extended), 5, false).unwrap();
    let plain = BitcoinTransaction::new(&mut reader(&stripped), 5, false).unwrap();
    assert!(plain.witnesses.is_none());
    assert_eq!(tx.txid, plain.txid);
    assert_eq!(tx.txid, sha256d_reversed(&stripped));
    assert_eq!(tx.inputs[0].prev_transaction, plain.inputs[0].prev_transaction);
    assert_eq!(tx.outputs[0].value, plain.outputs[0].value);
    assert_eq!(tx.lock_time, plain.lock_time);
}

#[test]
fn extended_format_without_witness_flag() {
    let (extended, stripped) = segwit_transaction();
    // flags 0: the extended format, but no witnesses to read
    let mut bytes = extended[..6].to_vec();
    bytes[5] = 0x00;
    let io_end = stripped.len() - 4;
    bytes.extend_from_slice(&stripped[4..io_end]);
    bytes.extend_from_slice(&stripped[io_end..]);
    let mut r = reader(&bytes);
    let tx = BitcoinTransaction::new(&mut r, 0, false).unwrap();
    assert!(tx.witnesses.is_none());
    assert_eq!(r.remaining_len(), 0);
    assert_eq!(tx.txid, sha256d_reversed(&stripped));
}

#[test]
fn transaction_errors() {
    let bytes = genesis_coinbase();
    let cut = &bytes[..bytes.len() - 1];
    let mut r = reader(cut);
    assert_eq!(BitcoinTransaction::new(&mut r, 0, false).err(), Some(ParseError::UnexpectedEof));
    // everything up to the lock time was read; the lock time cannot be
    assert_eq!(r.remaining_len(), 3);
    // a script length of 1 over the push of 65 bytes in the output script
    let mut bad = bytes.clone();
    let pos = bad.len() - 4 - 67 - 1;
    assert_eq!(bad[pos], 67);
    bad[pos] = 1;
    assert_eq!(
        BitcoinTransaction::new(&mut reader(&bad), 0, false).err(),
        Some(ParseError::ScriptTooLong)
    );
    assert_eq!(
        BitcoinTransaction::read(&mut reader(&bad), 0, false).err(),
        Some(Failure::TooLong)
    );
}

#[test]
fn input_and_output_alone() {
    let bytes = genesis_coinbase();
    // the input starts after the version and the count of inputs
    let mut r = reader(&bytes[5..]);
    let mut h = Sha256Hasher::new();
    let input = BitcoinTransactionInput::new(&mut r, &mut h).unwrap();
    assert_eq!(input.prev_transaction_output, 0xffffffff);
    let input_len = 32 + 4 + 1 + 77 + 4;
    assert_eq!(h.finalize(), sha256(&bytes[5..5 + input_len]));
    assert_eq!(read_count(&mut r), 1);
    let mut h2 = Sha256Hasher::new();
    let output = BitcoinTransactionOutput::new(&mut r, &mut h2).unwrap();
    assert_eq!(output.value, 5_000_000_000);
    assert_eq!(r.remaining_len(), 4);
    assert_eq!(
        BitcoinTransactionOutput::new(&mut reader(&[1, 2, 3]), &mut h2).err(),
        Some(ParseError::UnexpectedEof)
    );
}

fn read_count(r: &mut ByteReader) -> u64 {
    bitcoin_parser::basic_reading::read_varint(r).unwrap()
}

#[test]
fn value_overflow_is_reported() {
    let tx = BitcoinTransaction {
        inputs: vec![],
        outputs: vec![
            BitcoinTransactionOutput { value: u64::MAX, script: BitcoinScript { opcodes: vec![] } },
            BitcoinTransactionOutput { value: 1, script: BitcoinScript { opcodes: vec![] } },
        ],
        witnesses: None,
        lock_time: 0,
        timestamp: 0,
        is_coinbase: false,
        txid: [0; 32],
    };
    assert_eq!(tx.checked_value(), None);
}

#[test]
fn value_sums_outputs() {
    let out = |v: u64| BitcoinTransactionOutput { value: v, script: BitcoinScript { opcodes: vec![] } };
    let tx = BitcoinTransaction {
        inputs: vec![],
        outputs: vec![out(1), out(20), out(300)],
        witnesses: None,
        lock_time: 0,
        timestamp: 0,
        is_coinbase: false,
        txid: [0; 32],
    };
    assert_eq!(tx.value(), 321);
    let empty = BitcoinTransaction { outputs: vec![], ..tx };
    assert_eq!(empty.value(), 0);
}

#[test]
fn genesis_block() {
    let bytes = genesis_block_file_entry();
    let mut r = reader(&bytes);
    let block = BitcoinBlock::new(&mut r).unwrap();
    assert_eq!(r.remaining_len(), 0);
    assert_eq!(block.version, 1);
    assert_eq!(block.prev_hash, [0u8; 32]);
    assert_eq!(block.timestamp, 1231006505);
    assert_eq!(block.nonce, 2083236893);
    assert_eq!(block.transactions.len(), 1);
    let tx = &block.transactions[0];
    assert!(tx.is_coinbase);
    assert_eq!(tx.timestamp, block.timestamp);
    // in a block of one transaction, the Merkle root is that transaction's hash
    let mut root = block.merkle_root;
    root.reverse();
    assert_eq!(root, tx.txid);
}

#[test]
fn only_the_first_transaction_is_the_coinbase() {
    let coinbase = genesis_coinbase();
    let (segwit, _) = segwit_transaction();
    let mut entry = genesis_block_file_entry();
    let tx_count_pos = 8 + 80;
    entry[tx_count_pos] = 3;
    entry.extend_from_slice(&segwit);
    entry.extend_from_slice(&coinbase);
    let block = BitcoinBlock::new(&mut reader(&entry)).unwrap();
    let marks: Vec<bool> = block.transactions.iter().map(|t| t.is_coinbase).collect();
    assert_eq!(marks, vec![true, false, false]);
    assert!(block.transactions.iter().all(|t| t.timestamp == 1231006505));
    assert!(block.transactions[1].witnesses.is_some());
}

#[test]
fn block_errors() {
    let mut zero = reader(&[0u8; 100]);
    assert_eq!(BitcoinBlock::new(&mut zero).err(), Some(ParseError::MagicNumberZero));
    let mut short = reader(&[0xf9, 0xbe]);
    assert_eq!(BitcoinBlock::new(&mut short).err(), Some(ParseError::UnexpectedEof));
    let mut wrong = reader(&[1, 2, 3, 4, 5]);
    assert_eq!(BitcoinBlock::read(&mut wrong).err(), Some(Failure::BadMagic));
    let entry = genesis_block_file_entry();
    let mut cut = reader(&entry[..50]);
    assert_eq!(BitcoinBlock::new(&mut cut).err(), Some(ParseError::UnexpectedEof));
    // the magic, size, version and previous hash were read; the Merkle root
    // is cut off
    assert_eq!(cut.remaining_len(), 6);
}

#[test]
fn block_file_iterator() {
    let mut file = genesis_block_file_entry();
    file.extend_from_slice(&genesis_block_file_entry());
    file.extend_from_slice(&[0u8; 16]);
    let mut it = BlockFileIterator::new(ByteReader::new(file));
    assert!(it.next().is_some());
    assert!(it.next().is_some());
    // the zero padding at the end of the last file
    assert!(it.next().is_none());
}

#[test]
fn block_file_iterator_read_next_reports_failures() {
    let mut it = BlockFileIterator::new(ByteReader::new(vec![]));
    assert_eq!(it.read_next().err(), Some(Failure::Eof));
    let mut it2 = BlockFileIterator::new(ByteReader::new(vec![9, 9, 9, 9]));
    assert_eq!(it2.read_next().err(), Some(Failure::BadMagic));
}

#[test]
fn block_file_names() {
    assert!(is_block_file_name(b"blk00000.dat"));
    assert!(is_block_file_name(b"blk.dat"));
    assert!(!is_block_file_name(b"rev00000.dat"));
    assert!(!is_block_file_name(b"blk00000.da"));
    assert!(!is_block_file_name(b"xblk00000.dat"));
    assert!(!is_block_file_name(b"blk"));
    assert!(!is_block_file_name(b""));
}

#[test]
fn read_reports_every_failure() {
    let mut zero = reader(&[0, 0, 0, 0]);
    assert_eq!(BitcoinBlock::read(&mut zero).err(), Some(Failure::MagicZero));
    // an output script of one byte, OP_PUSHDATA2, whose size is cut off
    let mut tx = hex("01000000");
    // no inputs, the count written on three bytes (a first byte 0 would be
    // the marker of the extended format)
    tx.extend_from_slice(&[0xfd, 0x00, 0x00]);
    tx.push(1);
    tx.extend_from_slice(&1u64.to_le_bytes());
    tx.extend_from_slice(&[1, 0x4d, 0x00, 0x00, 0, 0, 0, 0]);
    assert_eq!(
        BitcoinTransaction::read(&mut reader(&tx), 0, false).err(),
        Some(Failure::LengthUnderflow)
    );
    // with a script length of 3 the same bytes read as a push of no data
    let mut ok = tx.clone();
    ok[4 + 3 + 1 + 8] = 3;
    let t = BitcoinTransaction::new(&mut reader(&ok), 0, false).unwrap();
    assert_eq!(t.outputs[0].script.opcodes, vec![OPCode::Data(vec![])]);
    assert_eq!(t.inputs.len(), 0);
}
