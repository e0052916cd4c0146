# unicorn

The core of a small self-hosted Git platform, written in Verus: the
functions under `src/` carry `requires`/`ensures` contracts that Verus
proves, except for the few trusted items listed below. The `KeyStore`
trait, which key stores outside the library implement, carries no
contract; the store in `src/` states its own.

## Layout

- `src/` — the verified library
  - `git/` — repository discovery (a depth-bounded walk over directory
    listings, sorted by slug), commit summaries and the commit walk limit
  - `ssh/` — authorized keys, the in-memory key store and the
    fail-closed authentication decision
  - `tui/` — dashboard navigation state, metric history windows, labels
    and the colour theme
  - `format.rs` — human-readable byte sizes, exact to the digit
  - `metrics.rs` — disk and network arithmetic without overflow
  - `config.rs`, `models.rs`, `error.rs`, `text.rs` — configuration
    defaults, domain models, error types and string helpers
- `tests/` — ordinary Rust tests that run the library on concrete values
- `app/` — the program around the library: configuration files, logging,
  the SSH server, the terminal dashboard, system metrics and Git access

Calls into outside crates that stand in `src/` go through a few trusted
items, each documented where it is declared: the declarations of
`std::io::Error`, `anyhow::Error` and `russh::keys::PublicKey`, and
`fingerprint_of`, whose result is named `key_fingerprint`.
