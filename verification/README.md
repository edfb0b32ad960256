# bitcoin_parser

Reads the block files that Bitcoin Core writes (`blk*.dat`): blocks, their
transactions (plain and BIP 144 extended format) and the scripts in them,
and computes each transaction's id.

- `src/` is the library, verified with Verus. Every reader is stated against
  a specification over the bytes it is given (`spec_parse_block`,
  `spec_parse_tx`, `spec_parse_script`, `spec_varint`, ...).
  - `basic_reading`: a reader over bytes in memory, little-endian integers,
    variable-length integers, and their variants that feed a hasher.
  - `hashing`: SHA-256 (computed by the `sha2` crate) of the bytes fed.
  - `script`: scripts as opcodes and pushes of data.
  - `list`: lists of items read one after the other.
  - `transaction`: inputs, outputs, witnesses, transactions and their ids.
  - `transaction_laws`: what holds of every transaction read; among it,
    that an id does not depend on the witnesses.
  - `block`: blocks, the reading of a block file, the names of block files.
- `tests/` runs the library on concrete bytes, the genesis block among them.
- `app/` is the program around it: finding and reading the files of a data
  directory, iterating in parallel, and dollar values of transactions.
