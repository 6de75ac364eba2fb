# pub-design-system-tokens

The design tokens of the suite as a verified library: the Design Tokens Format Module
2025.10 with its Color Module, read from and written to the DTCG JSON interchange, held
as a `TokenSet` that is built in Rust and queried by path. Every function in `src/` carries
a contract that Verus proves, but for the few marked `#[verifier::external_body]`: the
calls into serde_json and std whose contracts are trusted.

## Layout

- `src/model.rs`: names, paths, token types, values, tokens, groups and the set; `get`,
  `node`, `tokens` and `resolve` with their specifications (`token_at`, `walk`,
  `resolve_spec`). A group's children carry a type invariant: valid names in strict name
  order, so every group and every set is well named and lists its tokens in path order.
- `src/json.rs`: reading, strict, with the path of every error (`spec_from_json`).
- `src/export.rs`: writing, canonical (`write_group`); `TokenSet::to_json_value` states
  that reading what it writes gives the set back whenever its values are writable.
- `src/round_trip.rs`: what is written reads back (`lemma_read_written`), and what is read
  can be written and read again to the same set (`lemma_read_written_read`).
- `src/listing.rs`: tokens are listed in path order (`lemma_tokens_in_path_order`).
- `src/color.rs`, `src/dimension.rs`, `src/number.rs`: colour spaces, hex fallbacks,
  units, and numbers held as binary64 bit patterns.
- `src/json_data.rs`, `src/entries.rs`, `src/text.rs`: JSON values, named entries in name
  order, characters.
- `src/suite.rs` and `src/suite/`: the suite's palette, roles and spacing scale, and the
  set they make.
- `app/lib.rs`: what needs binary floating point or serde_json's own types (colours from
  8-bit channels, the JSON text, the suite's set with its numbers).
