# silent_payment

Silent payments (BIP-352) for a wallet: addresses, sending, scanning and spending. The library is
written in Verus: every function states in its contract what it returns, and Verus proves it.

## Layout

- `src/recipient.rs`, `src/scanner.rs`, `src/send.rs`, `src/spending.rs`: the wallet that receives,
  the watch-only wallet that looks for payments, the sender, and outputs that can be spent.
- `src/keys.rs`: from a mnemonic phrase or a descriptor to the secrets of a recipient.
- `src/address.rs`, `src/bip352.rs`: addresses, and the computations that all sides share.
- `src/curve.rs`, `src/hash.rs`, `src/text.rs`, `src/bytes.rs`: keys, hashes, text and numbers. The
  calls into outside crates stand here, in `address.rs`, in `send.rs` and in `keys.rs`, each behind a
  function whose contract is trusted and whose doc comment says what it claims.
- `src/laws/`: what holds of the library as a whole, such as that what is sent is found and nothing
  else is, and that what is found can be spent.
- `app/`: bindings for other languages.

## Model

A secret key is a number below the order of the curve, and a public key is the generator times such
a number. Contracts speak of these numbers: adding points is adding numbers modulo the order, and the
point that two parties share is the product of their numbers.

Some calls have no outcome on inputs that are next to impossible to meet, such as a hash beyond the
curve order. The functions that run into them ask for the opposite in `requires`. Beside each of them
stands one whose name begins with `try_`, which asks for nothing and returns `None` there.
