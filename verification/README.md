# engrym

A knowledge base for a codebase, kept as Markdown documents with a small YAML
frontmatter contract, indexed into a rebuildable SQLite database for keyword,
semantic, topic and graph search.

## Layout

- `src/` — the verified library. Its executable functions carry
  `requires`/`ensures` contracts over a mathematical model (`Seq<char>` for
  text, views for the data types) and are proved by Verus, except a few small
  trusted wrappers (`#[verifier::external_body]`) around calls into std,
  pulldown-cmark and sha2, whose contracts name what those calls return.
  - `text` — character-sequence models and helpers (lines, trimming, joining,
    sorting) shared by the rest.
  - `parse` — frontmatter framing, heading chunking, wikilink extraction,
    content hashes.
  - `model`, `index`, `lint`, `author` — the frontmatter contract, what enters
    the index, validation, and the decisions behind `new`/`set`/`rm`/`relocate`.
  - `agents`, `install`, `lifecycle` — the agent table, the managed block in an
    agent's memory file, and the plans behind `install`, `init`, `reset` and
    `deinit` (including the `.gitignore` edits).
  - `config`, `registry`, `workspace` — paths and store keys, the registry that
    lets checkouts share a local store, and how a workspace of several
    repositories is named and addressed.
  - `search`, `browse`, `daemon` — query building and hit selection, the local
    web UI's pages and routing, and the embedding daemon's request handling.
- `app/` — the command-line program around the library: argument parsing,
  files, the SQLite index, the embedding model, the HTTP server and the daemon
  socket. It hands the library plain values and acts on what comes back.
- `tests/` — tests of the library on concrete values.

## Laws

Properties that span several calls are stated as public proof functions
(`lemma_*`) next to the code they are about, each with the conditions it
needs, for example: the memory block reads back the valid paths written into
it; rendering paths into a file without a block and then rendering none gives
the file back (when it is empty or ends with one newline); cleaning a
`.gitignore` after `init` edited it gives what cleaning it before would;
linking, unlinking and pruning keep the registry well formed, and a linked
clone's local key is the store it was linked to; the scp, https and ssh forms
of a remote have one identity; relocation is idempotent; a `<repo>:<id>`
reference addresses that repository, and a bare id that several repositories
hold is refused rather than guessed; the wikilink scanner finds the leftmost
non-overlapping `[[x]]` links with a non-empty `x` free of `]`.
