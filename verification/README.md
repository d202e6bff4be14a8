# rusty_fclone

A duplicate-file finder whose decision logic is verified with Verus.

- `src/` is the verified library: paths and their order, keep-selection
  rules, action plans and their guardrails, the apply-or-preview decision,
  folder-level duplicate detection and folder action plans, perceptual-image
  hashing and grouping, the staged hashing pipeline's grouping decisions,
  the hash-cache record format, the fclones cache import, the command-line
  and front-end text and payloads. Every function carries a
  `requires`/`ensures` contract; the public `lemma_*` proof functions state
  the laws the library keeps across calls.
- `app/` is ordinary Rust around it: the `rusty-fclone` command line
  (argument parsing, walking the tree, reading and hashing files, the hash
  caches, carrying out actions on disk, the SQLite scan history), and the
  desktop front end's commands as plain functions (`app/front_end.rs`),
  among them the perceptual similar-image pass, which the command line does
  not offer.
- `tests/` exercises the library on concrete values.

Outside crates are reached from `src/` only through a few trusted wrappers,
each documented where it is declared: `xxhash_rust::xxh3::xxh3_128`, the
`image` crate's decode-shrink-to-luma chain, and `str::to_lowercase`.
