# cryptoconditions

Crypto-conditions (threshold, preimage, secp256k1 and eval conditions) with
their costs, subtype sets, SHA-256 fingerprints and DER encodings, written in
Verus and verified against specifications of what each function returns.

Layout:

- `src/internal.rs` — the DER encoding of context-specific elements and
  sequences, SHA-256, and the packed bit-array form of type-id sets.
- `src/order.rs` — the orders the library sorts by and insertion sorting.
- `src/secp.rs` — public keys, signatures, secret keys and messages held as
  their byte serializations, with the curve operations of the `secp256k1` crate.
- `src/condition.rs` — conditions and their specifications: cost, subtypes,
  fingerprint, condition encoding, fulfillment encoding, signing.
- `src/js_form.rs` — conditions in the textual form the JavaScript bindings
  use: describing a condition, and reading one back from its description.
- `src/laws.rs` — properties relating the operations to one another.
- `app/lib.rs` — the `wasm_bindgen` bindings, which read and write JavaScript
  objects and hand the rest to the library.
