# sweat_jar

Deposit jars for a fungible token: users deposit into products (fixed, flexible
or score-based terms), interest accrues per deposit and is cached exactly to the
millisecond, and mature deposits can be restaked into another product with the
rest paid out less a fee. Signed tickets (ed25519 over a SHA-256 digest) protect
products that need them.

The library under `src/` is verified with Verus:

- `decimal`, `common`, `text`: decimal rates, exact interest accrual with a
  carried remainder, decimal strings.
- `product`, `jar`, `account`: the single-principal jars of the earlier layout,
  their products, penalties and top-ups.
- `product_v2`, `jar_v2`, `account_v2`: jars made of deposits, their terms and
  interest, and accounts holding one jar per product.
- `signature`: signature material and ticket checks; the calls into
  `crypto-hash` and `ed25519-dalek` are its only trusted items.
- `contract`: products, accounts, deposits and product migration.
- `restake`: restaking one jar or all jars, with the payout of a remainder
  finished by a callback.
- `view`: views of jars and interest, with a fallback to archived accounts.
- `legacy`: migrating jars and accounts of earlier layouts.
- `score`: walk data converted to days, the daily scores rolled over and
  recorded, with the interest of score-based jars cached first.
- `laws`: properties that relate several operations.

Products and accounts are kept in vectors, with unique ids as part of the
contract's well-formedness: the NEAR storage maps read and write contract
storage, which the library does not touch. `app/` loads the whole state at the
start of a call and stores it at the end.

`app/` is the NEAR contract around the library: it reads the block time and the
caller, stores the state, pays out remainders and turns errors into panics.
