# asf_kernel

A verified kernel for supervising an agent's work on a user's stores: a
signed, hash-chained event substrate; capabilities that only narrow; a
broker that decides every proposed call from signed state alone; and a
promotion step that replays a run's recorded calls against the authority
behind them before a three-way merge lands on trunk.

The logic is written in Verus and proved against its contracts:

- `src/json.rs`, `src/json_text.rs`, `src/canon.rs` — the JSON model, its
  text, the input domain, canonical bytes, content ids, sealing with a
  key's 32-byte secret seed and signature verification against its
  public-key bytes (a sealed object verifies under the sealing key).
- `src/trace.rs` — event rows, chain verification, the verified event view
  and the operator's ledger view; typed loading of signed objects.
- `src/capability.rs`, `src/narrowing.rs`, `src/evaluate.rs` — caveats,
  globs, attenuation and the call evaluator.
- `src/authority.rs`, `src/broker.rs`, `src/escalation.rs` — decision
  authority, liveness and closure, the call plan, approvals and the
  replay of a run's trace.
- `src/promote.rs`, `src/promotion.rs`, `src/snapshot.rs`, `src/restore.rs`
  — trees, diffs, the three-way merge, promotion planning, captures and
  restores.
- `src/keys.rs`, `src/payload.rs` — key roles, the secret store, key
  wrapping and encrypted payloads.
- `src/ledger.rs`, `src/fabric.rs`, `src/tools.rs` — manifests, drift,
  reverts and tool registrations.

Outside crates are reached through a few small trusted wrappers whose
contracts say what those crates document.

`app/` holds what cannot be verified: the SQLite database, the content
store and keystore on disk, filesystem walking and locking, and the
services that run the verified decisions. `tests/` exercises the library.
