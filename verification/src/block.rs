use crate::basic_reading::{
    is_suffix_after_read, le_value, lemma_le_value_4, lemma_varint_values, read_le_u32, read_varint, spec_varint, spec_varint_read_len,
    ByteReader,
};
use crate::errors::{reading_returns, to_parse_error, Failure, ParseError};
use crate::transaction::{
    lemma_tx_read_len_ok, parsed_as, read_as, spec_parse_tx, spec_tx_read_len,
    BitcoinTransaction, SpecTransaction,
};
use crate::transaction_laws::lemma_tx_keeps_block_data;
use vstd::prelude::*;

verus! {

/// The magic number that starts every block in a block file.
pub const BLOCK_MAGIC: u32 = 0xd9b4bef9u32;

/// The view of a block.
pub struct SpecBlock {
    pub version: nat,
    pub prev_hash: Seq<u8>,
    pub merkle_root: Seq<u8>,
    pub timestamp: u32,
    pub nonce: nat,
    pub transactions: Seq<SpecTransaction>,
}

/// Reads `n` transactions one after the other from the start of `s`, each
/// with the block's time stamp `timestamp`, the first one marked as the
/// coinbase.
pub open spec fn spec_parse_txs(s: Seq<u8>, n: nat, timestamp: u32) -> Result<
    (Seq<SpecTransaction>, nat),
    Failure,
>
    decreases n,
{
    if n == 0 {
        Ok((Seq::empty(), 0))
    } else {
        match spec_parse_txs(s, (n - 1) as nat, timestamp) {
            Ok((txs, m)) => match spec_parse_tx(s.skip(m as int), timestamp, n - 1 == 0) {
                Ok((tx, k)) => Ok((txs.push(tx), m + k)),
                Err(e) => Err(e),
            },
            Err(e) => Err(e),
        }
    }
}

/// Once reading the transactions fails, reading more of them fails the
/// same way.
pub proof fn lemma_txs_err_stays(s: Seq<u8>, i: nat, n: nat, timestamp: u32)
    requires
        i <= n,
        spec_parse_txs(s, i, timestamp) is Err,
    ensures
        spec_parse_txs(s, n, timestamp) == spec_parse_txs(s, i, timestamp),
    decreases n,
{
    if i < n {
        lemma_txs_err_stays(s, i, (n - 1) as nat, timestamp);
    }
}

/// Reads a block from the start of `s`: the magic number (u32), the size of
/// the block (u32, not kept), the version (u32), the hash of the previous
/// block and the Merkle root (32 bytes each), the time stamp (u32), the
/// difficulty target (u32, not kept), the nonce (u32), the count of
/// transactions and the transactions.
pub open spec fn spec_parse_block(s: Seq<u8>) -> Result<(SpecBlock, nat), Failure> {
    if s.len() < 4 {
        Err(Failure::Eof)
    } else if le_value(s.take(4)) == 0 {
        Err(Failure::MagicZero)
    } else if le_value(s.take(4)) != BLOCK_MAGIC {
        Err(Failure::BadMagic)
    } else if s.len() < 88 {
        Err(Failure::Eof)
    } else {
        let timestamp = le_value(s.subrange(76, 80)) as u32;
        match spec_varint(s.skip(88)) {
            None => Err(Failure::Eof),
            Some((n, k)) => match spec_parse_txs(s.skip(88 + k as int), n, timestamp) {
                Ok((txs, m)) => Ok(
                    (
                        SpecBlock {
                            version: le_value(s.subrange(8, 12)),
                            prev_hash: s.subrange(12, 44),
                            merkle_root: s.subrange(44, 76),
                            timestamp,
                            nonce: le_value(s.subrange(84, 88)),
                            transactions: txs,
                        },
                        88 + k + m,
                    ),
                ),
                Err(e) => Err(e),
            },
        }
    }
}

/// How many bytes reading `n` transactions from `s` goes past, whatever it
/// comes to: those of the transactions read, and what reading the first one
/// that fails goes past.
pub open spec fn spec_txs_read_len(s: Seq<u8>, n: nat, timestamp: u32) -> int
    decreases n,
{
    if n == 0 {
        0
    } else {
        match spec_parse_txs(s, (n - 1) as nat, timestamp) {
            Ok((_, m)) => m + spec_tx_read_len(s.skip(m as int)),
            Err(_) => spec_txs_read_len(s, (n - 1) as nat, timestamp),
        }
    }
}

/// How many bytes of a block's header of 88 bytes are read before the bytes
/// end, where `n` (at least 4) are there: the fields read in full.
pub open spec fn header_read_len(n: int) -> int {
    if n < 8 {
        4
    } else if n < 12 {
        8
    } else if n < 44 {
        12
    } else if n < 76 {
        44
    } else if n < 80 {
        76
    } else if n < 84 {
        80
    } else {
        84
    }
}

/// How many bytes reading a block from `s` goes past, whatever it comes to.
pub open spec fn spec_block_read_len(s: Seq<u8>) -> int {
    if s.len() < 4 {
        0
    } else if le_value(s.take(4)) == 0 || le_value(s.take(4)) != BLOCK_MAGIC {
        4
    } else if s.len() < 88 {
        header_read_len(s.len() as int)
    } else {
        match spec_varint(s.skip(88)) {
            None => 88 + spec_varint_read_len(s.skip(88)),
            Some((n, k)) => 88 + k + spec_txs_read_len(
                s.skip(88 + k as int),
                n,
                le_value(s.subrange(76, 80)) as u32,
            ),
        }
    }
}

/// Once reading the transactions fails, reading more of them goes past as
/// much.
pub proof fn lemma_txs_read_len_err_stays(s: Seq<u8>, i: nat, n: nat, timestamp: u32)
    requires
        i <= n,
        spec_parse_txs(s, i, timestamp) is Err,
    ensures
        spec_txs_read_len(s, n, timestamp) == spec_txs_read_len(s, i, timestamp),
    decreases n,
{
    if i < n {
        lemma_txs_read_len_err_stays(s, i, (n - 1) as nat, timestamp);
        lemma_txs_err_stays(s, i, (n - 1) as nat, timestamp);
    }
}

/// Reading the transactions in full goes past the bytes they take.
pub proof fn lemma_txs_read_len_ok(s: Seq<u8>, n: nat, timestamp: u32)
    ensures
        spec_parse_txs(s, n, timestamp) matches Ok((_, k)) ==> spec_txs_read_len(s, n, timestamp)
            == k,
{
    if n > 0 {
        if let Ok((_, m)) = spec_parse_txs(s, (n - 1) as nat, timestamp) {
            lemma_tx_read_len_ok(s.skip(m as int), timestamp, n - 1 == 0);
        }
    }
}

/// A block.
#[derive(Debug)]
pub struct BitcoinBlock {
    pub version: u32,
    pub prev_hash: [u8; 32],
    pub merkle_root: [u8; 32],
    /// Seconds since the Unix epoch.
    pub timestamp: u32,
    pub nonce: u32,
    pub transactions: Vec<BitcoinTransaction>,
}

impl View for BitcoinBlock {
    type V = SpecBlock;

    open spec fn view(&self) -> SpecBlock {
        SpecBlock {
            version: self.version as nat,
            prev_hash: self.prev_hash@,
            merkle_root: self.merkle_root@,
            timestamp: self.timestamp,
            nonce: self.nonce as nat,
            transactions: self.transactions@.map_values(|t: BitcoinTransaction| t@),
        }
    }
}

/// Reads 32 bytes into an array.
fn read_array32(reader: &mut ByteReader) -> (r: Result<[u8; 32], Failure>)
    ensures
        match r {
            Ok(a) => {
                &&& 32 <= old(reader)@.len()
                &&& a@ == old(reader)@.take(32)
                &&& final(reader)@ == old(reader)@.skip(32)
            },
            Err(e) => old(reader)@.len() < 32 && final(reader)@ == old(reader)@ && e
                == Failure::Eof,
        },
{
    let v = match reader.read_exact(32) {
        Ok(v) => v,
        Err(_) => {
            return Err(Failure::Eof);
        },
    };
    let mut a = [0u8; 32];
    let mut i: usize = 0;
    while i < 32
        invariant
            v@.len() == 32,
            i <= 32,
            forall|j: int| 0 <= j < i ==> a@[j] == v@[j],
        decreases 32 - i,
    {
        a[i] = v[i];
        i = i + 1;
    }
    assert(a@ =~= v@);
    Ok(a)
}

/// Reads `count` transactions, each with the time stamp `timestamp`, the
/// first one marked as the coinbase.
fn read_transactions(reader: &mut ByteReader, count: u64, timestamp: u32) -> (r: Result<
    Vec<BitcoinTransaction>,
    Failure,
>)
    ensures
        match r {
            Ok(v) => spec_parse_txs(old(reader)@, count as nat, timestamp) matches Ok((txs, k))
                && txs == v@.map_values(|t: BitcoinTransaction| t@) && k <= old(reader)@.len()
                && final(reader)@ == old(reader)@.skip(k as int),
            Err(e) => spec_parse_txs(old(reader)@, count as nat, timestamp) matches Err(f) && e
                == f,
        },
        is_suffix_after_read(old(reader)@, final(reader)@),
        old(reader)@.len() - final(reader)@.len() == spec_txs_read_len(old(reader)@, count as nat, timestamp),
{
    let ghost s0 = reader@;
    let mut transactions: Vec<BitcoinTransaction> = Vec::new();
    let mut i: u64 = 0;
    assert(s0.skip(0) =~= s0);
    assert(transactions@.map_values(|t: BitcoinTransaction| t@) =~= Seq::<
        SpecTransaction,
    >::empty());
    while i < count
        invariant
            s0 == old(reader)@,
            i <= count,
            is_suffix_after_read(s0, reader@),
            spec_parse_txs(s0, i as nat, timestamp) == Ok::<_, Failure>(
                (
                    transactions@.map_values(|t: BitcoinTransaction| t@),
                    (s0.len() - reader@.len()) as nat,
                ),
            ),
        decreases count - i,
    {
        let ghost s1 = reader@;
        let ghost m = s0.len() - s1.len();
        assert(s0.skip(m) == s1);
        let ghost before = transactions@.map_values(|t: BitcoinTransaction| t@);
        match BitcoinTransaction::read(reader, timestamp, i == 0) {
            Ok(tx) => {
                transactions.push(tx);
                i = i + 1;
                proof {
                    assert(transactions@.map_values(|t: BitcoinTransaction| t@) =~= before.push(
                        tx@,
                    ));
                    assert(reader@ =~= s0.skip(s0.len() - reader@.len()));
                }
            },
            Err(e) => {
                proof {
                    lemma_txs_err_stays(s0, (i + 1) as nat, count as nat, timestamp);
                    lemma_txs_read_len_err_stays(s0, (i + 1) as nat, count as nat, timestamp);
                    assert(reader@ =~= s0.skip(s0.len() - reader@.len()));
                }
                return Err(e);
            },
        }
    }
    proof {
        lemma_txs_read_len_ok(s0, count as nat, timestamp);
    }
    Ok(transactions)
}

impl BitcoinBlock {
    /// Reads a block, and says what reading comes to, whatever the bytes.
    pub fn read(reader: &mut ByteReader) -> (r: Result<BitcoinBlock, Failure>)
        ensures
            parsed_as(r, spec_parse_block(old(reader)@), old(reader)@, final(reader)@),
            is_suffix_after_read(old(reader)@, final(reader)@),
            old(reader)@.len() - final(reader)@.len() == spec_block_read_len(old(reader)@),
    {
        let ghost s0 = reader@;
        let magic_number = match read_le_u32(reader) {
            Ok(v) => v,
            Err(_) => {
                assert(reader@ =~= s0.skip(0));
                return Err(Failure::Eof);
            },
        };
        assert(reader@ =~= s0.skip(4));
        if magic_number == 0 {
            return Err(Failure::MagicZero);
        }
        if magic_number != BLOCK_MAGIC {
            return Err(Failure::BadMagic);
        }
        let _block_size = match read_le_u32(reader) {
            Ok(v) => v,
            Err(_) => {
                return Err(Failure::Eof);
            },
        };
        assert(reader@ =~= s0.skip(8));
        let version = match read_le_u32(reader) {
            Ok(v) => v,
            Err(_) => {
                return Err(Failure::Eof);
            },
        };
        assert(reader@ =~= s0.skip(12));
        assert(s0.skip(8).take(4) =~= s0.subrange(8, 12));
        let prev_hash = match read_array32(reader) {
            Ok(v) => v,
            Err(e) => {
                return Err(e);
            },
        };
        assert(reader@ =~= s0.skip(44));
        assert(s0.skip(12).take(32) =~= s0.subrange(12, 44));
        let merkle_root = match read_array32(reader) {
            Ok(v) => v,
            Err(e) => {
                return Err(e);
            },
        };
        assert(reader@ =~= s0.skip(76));
        assert(s0.skip(44).take(32) =~= s0.subrange(44, 76));
        let timestamp = match read_le_u32(reader) {
            Ok(v) => v,
            Err(_) => {
                return Err(Failure::Eof);
            },
        };
        assert(reader@ =~= s0.skip(80));
        assert(s0.skip(76).take(4) =~= s0.subrange(76, 80));
        let _bits_target = match read_le_u32(reader) {
            Ok(v) => v,
            Err(_) => {
                return Err(Failure::Eof);
            },
        };
        assert(reader@ =~= s0.skip(84));
        let nonce = match read_le_u32(reader) {
            Ok(v) => v,
            Err(_) => {
                return Err(Failure::Eof);
            },
        };
        let ghost s88 = reader@;
        assert(s88 =~= s0.skip(88));
        assert(s0.skip(84).take(4) =~= s0.subrange(84, 88));
        let transaction_count = match read_varint(reader) {
            Ok(v) => v,
            Err(_) => {
                assert(reader@ =~= s0.skip(s0.len() - reader@.len()));
                return Err(Failure::Eof);
            },
        };
        let ghost s_txs = reader@;
        let ghost k = (s88.len() - s_txs.len()) as int;
        assert(s_txs =~= s0.skip(88 + k));
        let transactions = match read_transactions(reader, transaction_count, timestamp) {
            Ok(v) => v,
            Err(e) => {
                assert(reader@ =~= s0.skip(s0.len() - reader@.len()));
                return Err(e);
            },
        };
        assert(reader@ =~= s0.skip(s0.len() - reader@.len()));
        Ok(BitcoinBlock { version, prev_hash, merkle_root, timestamp, nonce, transactions })
    }

    /// Reads a block. Reading fails where the block starts with the magic
    /// number 0, which marks the zero padding at the end of the last block
    /// file; every other block starts with `BLOCK_MAGIC`.
    pub fn new(reader: &mut ByteReader) -> (r: Result<BitcoinBlock, ParseError>)
        requires
            reading_returns(spec_parse_block(old(reader)@)),
        ensures
            read_as(r, spec_parse_block(old(reader)@), old(reader)@, final(reader)@),
            is_suffix_after_read(old(reader)@, final(reader)@),
            old(reader)@.len() - final(reader)@.len() == spec_block_read_len(old(reader)@),
    {
        match Self::read(reader) {
            Ok(b) => Ok(b),
            Err(f) => Err(to_parse_error(f)),
        }
    }
}

/// Reads the blocks of a block file one after the other. Its view is what
/// is left of the file.
#[derive(Debug)]
pub struct BlockFileIterator {
    reader: ByteReader,
}

impl View for BlockFileIterator {
    type V = Seq<u8>;

    closed spec fn view(&self) -> Seq<u8> {
        self.reader@
    }
}

impl BlockFileIterator {
    /// An iterator over the blocks in what is left of `reader`.
    pub fn new(reader: ByteReader) -> (it: BlockFileIterator)
        ensures
            it@ == reader@,
    {
        BlockFileIterator { reader }
    }

    /// The next block, or `None` where none can be read.
    pub fn next(&mut self) -> (r: Option<BitcoinBlock>)
        requires
            reading_returns(spec_parse_block(old(self)@)),
        ensures
            match spec_parse_block(old(self)@) {
                Ok((b, k)) => r matches Some(block) && block@ == b && final(self)@ == old(
                    self,
                )@.skip(k as int),
                Err(_) => r is None,
            },
            is_suffix_after_read(old(self)@, final(self)@),
            old(self)@.len() - final(self)@.len() == spec_block_read_len(old(self)@),
    {
        match BitcoinBlock::new(&mut self.reader) {
            Ok(b) => Some(b),
            Err(_) => None,
        }
    }

    /// The next block, or what reading it comes to, whatever the bytes.
    pub fn read_next(&mut self) -> (r: Result<BitcoinBlock, Failure>)
        ensures
            parsed_as(r, spec_parse_block(old(self)@), old(self)@, final(self)@),
            is_suffix_after_read(old(self)@, final(self)@),
            old(self)@.len() - final(self)@.len() == spec_block_read_len(old(self)@),
    {
        BitcoinBlock::read(&mut self.reader)
    }
}

/// Whether `name` names a block file: `blk`, then anything, then `.dat`.
pub open spec fn spec_is_block_file_name(name: Seq<u8>) -> bool {
    &&& name.len() >= 3
    &&& name.take(3) == seq![98u8, 108u8, 107u8]
    &&& name.len() >= 4
    &&& name.skip(name.len() - 4) == seq![46u8, 100u8, 97u8, 116u8]
}

/// Whether the file name `name` (its bytes) names a block file: it starts
/// with `blk` and ends with `.dat`.
pub fn is_block_file_name(name: &[u8]) -> (b: bool)
    ensures
        b == spec_is_block_file_name(name@),
{
    let n = name.len();
    if n < 4 {
        return false;
    }
    let starts = name[0] == 98u8 && name[1] == 108u8 && name[2] == 107u8;
    let ends = name[n - 4] == 46u8 && name[n - 3] == 100u8 && name[n - 2] == 97u8 && name[n - 1]
        == 116u8;
    proof {
        let t = name@.take(3);
        let e = name@.skip(n - 4);
        if starts {
            assert(t =~= seq![98u8, 108u8, 107u8]);
        } else {
            assert(t[0] != 98u8 || t[1] != 108u8 || t[2] != 107u8);
        }
        if ends {
            assert(e =~= seq![46u8, 100u8, 97u8, 116u8]);
        } else {
            assert(e[0] != 46u8 || e[1] != 100u8 || e[2] != 97u8 || e[3] != 116u8);
        }
    }
    starts && ends
}

proof fn lemma_txs_block_data(s: Seq<u8>, n: nat, timestamp: u32)
    ensures
        spec_parse_txs(s, n, timestamp) matches Ok((txs, _)) ==> {
            &&& txs.len() == n
            &&& forall|i: int|
                0 <= i < txs.len() ==> (#[trigger] txs[i]).is_coinbase == (i == 0)
                    && txs[i].timestamp == timestamp
        },
    decreases n,
{
    if n > 0 {
        lemma_txs_block_data(s, (n - 1) as nat, timestamp);
        if let Ok((txs, m)) = spec_parse_txs(s, (n - 1) as nat, timestamp) {
            lemma_tx_keeps_block_data(s.skip(m as int), timestamp, n - 1 == 0);
        }
    }
}

/// Every transaction of a block carries the block's time stamp, and the
/// first one, and only it, is marked as the coinbase.
pub proof fn lemma_block_coinbase_first(s: Seq<u8>)
    ensures
        spec_parse_block(s) matches Ok((b, _)) ==> forall|i: int|
            0 <= i < b.transactions.len() ==> (#[trigger] b.transactions[i]).is_coinbase == (i
                == 0) && b.transactions[i].timestamp == b.timestamp,
{
    if s.len() >= 88 {
        let timestamp = le_value(s.subrange(76, 80)) as u32;
        if let Some((n, k)) = spec_varint(s.skip(88)) {
            lemma_txs_block_data(s.skip(88 + k as int), n, timestamp);
        }
    }
}

/// Transactions read in full take no more bytes than there are.
pub proof fn lemma_txs_len(s: Seq<u8>, n: nat, timestamp: u32)
    ensures
        spec_parse_txs(s, n, timestamp) matches Ok((_, m)) ==> m <= s.len(),
    decreases n,
{
    if n > 0 {
        lemma_txs_len(s, (n - 1) as nat, timestamp);
        if let Ok((_, m)) = spec_parse_txs(s, (n - 1) as nat, timestamp) {
            reveal(spec_parse_tx);
        }
    }
}

/// A block read from `s` starts with the magic number, and its header
/// fields are the bytes after the magic number and the size: the version is
/// the full little-endian u32 at bytes 8 to 12, the previous block's hash
/// and the Merkle root the 32 bytes at 12 to 44 and at 44 to 76 as they
/// stand, the time stamp and the nonce the little-endian u32 at 76 to 80
/// and at 84 to 88; it holds as many transactions as the count after the
/// header says, and takes no more bytes than there are.
pub proof fn lemma_block_header_fields(s: Seq<u8>)
    ensures
        spec_parse_block(s) matches Ok((b, k)) ==> {
            &&& 88 <= k <= s.len()
            &&& le_value(s.take(4)) == BLOCK_MAGIC
            &&& b.version == le_value(s.subrange(8, 12))
            &&& b.version <= u32::MAX
            &&& b.prev_hash == s.subrange(12, 44)
            &&& b.merkle_root == s.subrange(44, 76)
            &&& b.timestamp as nat == le_value(s.subrange(76, 80))
            &&& b.nonce == le_value(s.subrange(84, 88))
            &&& spec_varint(s.skip(88)) is Some
            &&& b.transactions.len() == spec_varint(s.skip(88))->Some_0.0
        },
{
    if s.len() >= 88 {
        lemma_le_value_4(s.subrange(8, 12));
        lemma_le_value_4(s.subrange(76, 80));
        let timestamp = le_value(s.subrange(76, 80)) as u32;
        if let Some((n, k)) = spec_varint(s.skip(88)) {
            lemma_varint_values(s.skip(88));
            lemma_txs_block_data(s.skip(88 + k as int), n, timestamp);
            lemma_txs_len(s.skip(88 + k as int), n, timestamp);
        }
    }
}

} // verus!
