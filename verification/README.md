# dcapi_matcher

Matches requests of the Digital Credentials API against the credentials of a wallet, and says what a
user can choose from. The library is verified with Verus: what each function returns is stated in
its contract and proved.

## Layout

- `src/planner/`: from a DCQL query, its transaction data and a credential store to presentation
  sets. `plan.rs` holds the planner, `laws.rs` what holds of every plan: selections keep what is
  asked of them, choices answer the query, all valid combinations are offered, and generic
  transaction data is authorized exactly once whatever is chosen.
- `src/matcher/`: from OpenID4VP requests and a wallet to the sets that a host shows. `engine.rs`
  holds the matcher, `laws.rs` what holds of every response.
- `src/ts12/`: which transaction payloads fit the metadata of a credential.
- `src/package/`: a wallet that is read from a configuration.
- `src/store.rs`, `src/matcher/store.rs`: the traits that a wallet implements.
- `src/models.rs`, `src/json.rs`, `src/path.rs`, `src/idset.rs`, `src/text.rs`, `src/seqs.rs`: queries,
  documents, paths and the mathematics that the contracts are stated over.
- `src/base64url.rs`, `src/c8.rs`, `src/hashsets.rs`, `src/render.rs`, `src/matcher/envelope.rs`: where
  outside crates are called. `src/text.rs` holds what is trusted of `std`.
- `app/`: reads packages and requests with `serde`, and prints the sets.

## Contracts

Every type has a model, which `deep_view` gives: text is a sequence of characters, lists are
sequences, ids are kept in sets. Contracts are stated over these models. What a credential store
answers is named by the specification functions of `CredentialStore` and `MatcherStore`.

What is not proved: the functions that call `base64`, `c8str`, `rustc_hash`, `serde_json` and `std`
are trusted to do what their contracts say. Each names the function that it calls.
