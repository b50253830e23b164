# plainnote

The core of a local-first note-taking app whose notes are plain Markdown
files with a YAML frontmatter block, indexed for hierarchical tags, a
four-mode tag query (strict/recursive, union/intersection), wikilinks with
backlinks, a link graph and reminders. The logic is written in Verus and
proved against its contracts.

## Layout

- `src/` — the verified library.
  - `text`: character-level helpers (case folding, lexicographic order).
  - `ids`: note ids (ULID text and value).
  - `frontmatter`, `framing`: writing and reading a note file, and the law that
    a written note splits back into its frontmatter and body.
  - `links`: wikilink extraction.
  - `tags`: tag paths, their ancestors, and the tag tables of the index.
  - `index`, `integrity`: the in-memory index tables and their well-formedness.
  - `query`, `order`: the tag query algebra and result ordering.
  - `reconcile`, `manifest`: bringing the index in line with the files of the
    vault, and the manifest hash that lets an unchanged vault be skipped.
  - `graph`: the note graph (nodes, edges, degree ranking, node cap).
  - `reminders`, `scheduler`: reminders and the scheduler's next step.
  - `vault`: note file names, decoding and listing.
  - `watcher`: debouncing of file-system events.
  - `audio`, `stt`: capture limits and speech-to-text error reporting.
  - `commands`: the decisions and wire values behind the app's commands.
- `tests/` — tests run against the compiled library.
- `app/` — the unverified shell: file and database I/O, the scheduler and
  watcher loops, audio capture, speech-to-text and the graph layout.
