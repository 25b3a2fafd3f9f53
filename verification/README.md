# pos_core

Verified core of a Solana Pay point-of-sale terminal.

- `src/transaction.rs` — public keys, SPL `TransferChecked` and durable-nonce
  instructions, compilation of instructions into a message (keys in the four
  protocol groups, header counts, positions), and the message's wire format
  with compact-u16 lengths. Laws: compact-u16 round trip, keys unique and
  complete with the payer first, header describes each key's privileges,
  compiled positions resolve to the instruction's keys.
- `src/payment.rs` — the `solana:` payment URL; amounts in thousandths of a
  SOL; memo and label percent-encoded. Laws: the amount text reads back, and
  the memo and label cannot add URL parameters.
- `src/args.rs` — tolerant reading of the tool's arguments (amount under
  several names or from free text, memo choice) and the receiving address
  from the host's configuration only.
- `src/text.rs`, `src/base58.rs` — text helpers and the Base58 calls.
- `app/` — floating-point BRL→SOL conversion, JSON forms of the types, the
  tool's entry points and the GPIO mock.
