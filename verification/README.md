# Moonshine

The verified core of a lightweight, private command-line wallet for the DarkFi chain, and the
program around it.

- `src/` is the library. Everything in it is verified with Verus: the wallet's tables and the
  rules they follow (`db`), the cache of compact blocks (`block_cache`), amounts (`amount`),
  memos and their encryption frame (`memo`, `serial`), planning a payment and recording it
  (`send`), the coins, fee and calls of its transaction (`coins`, `tx_builder`, `field`), clues
  and their registration (`clue`), sync progress (`sync_progress`), pruning (`pruning`),
  configuration and server policy (`config`, `server`), and text and byte helpers.
- `tests/` runs the library on concrete values; `tests/sql.rs` runs the tables side by side with
  SQLite.
- `app/` is the program: argument handling, the SQLCipher file, the configuration file, and the
  calls into the chain's own crates. An operation reads the tables from the file, runs on the
  library's `WalletDb`, and writes them back in one transaction.

## What is trusted

The library calls a few functions of other crates. Each stands in one small wrapper whose
contract says what is claimed of it: `hex::encode` and `hex::decode` (`hexcodec`),
`blake3::keyed_hash` (`memo`), the field codecs and scalar arithmetic of `darkfi_serial` and
`pasta_curves` (`field`), and the byte-string and integer codecs of `darkfi_serial` (`serial`).

Hashes, ciphers and key operations of the chain's own crates come in as functions that the
caller supplies. Nothing is assumed of them: contracts say what they were given and what was
done with what they gave back.

## Where to start reading

`db/model.rs` holds the mathematical model of the wallet's tables, and `db/laws.rs` what holds of
them as a whole: a note comes in once, a spent note is not offered again, pruning keeps every
balance, a rewind leaves nothing above its height.
