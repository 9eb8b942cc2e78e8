# missingno-gamedb

Schema, validator and curation tooling for the MissingNo game database: one
RON manifest per game under `{gb,gbc,sg1000,vcs}/{slug}/manifest.ron`,
modelling games, their releases and the ROM dumps (by SHA-1) of each release.

## Layout

- `src/` is the library, written in Verus. Every function there carries a
  contract, proved by Verus for all but the trusted wrappers below: the schema types and their invariants (SHA-1s,
  slugs, dates), loading and validation of a tree, canonical formatting, the
  report, and the rules of each maintenance command (No-Intro DAT import
  from the DAT's text, slug and title fixes, flag import, the VCS and
  homebrew migrations, hash verification and its JSON replies). The XML and
  JSON parsers (roxmltree, serde_json) are called from `src/` through small
  trusted wrappers that name their results; everything read from those
  results is verified. Properties that span several calls, such as
  "an import never loses a dump the tree held", are stated and proved as
  public `lemma_*` proof functions.
- `app/` is the `gamedb` command-line tool: argument handling, reading and
  writing files, RON manifests through serde, writing the answer cache, and
  the network lookups of hash verification. It hands plain values to the
  library and acts on what comes back.
- `tests/` runs the library on concrete values.

## Commands

```
gamedb validate <root>        # schema + database rules
gamedb fmt <root>             # canonical formatting
```

Manifests are kept in canonical formatting (enforced by `validate`) so every
change reviews as a minimal git diff.
