# previewf

Preview and annotate markdown files with inline flags
(`<flag:N>Label: comment</flag>`), in the browser or in the terminal.

## Layout

- `src/` — the library, written and proved with Verus. Every function
  carries a contract; the properties that relate several operations are
  stated and proved as `law_*` proof functions:
  - `tags`, `flags`: the flag grammar; extracting, injecting, removing and
    updating flags (what extraction gives back after each edit, and that the
    final line feed of a document is kept).
  - `html`, `markdown`, `terminal`, `json_view`: escaping, finishing the HTML
    of a rendered page (highlighted code, laid-out diffs, flag markers),
    terminal flag markers, and the JSON viewer.
  - `listing`, `pages`, `server`, `edits`: directory listings, file trees,
    breadcrumbs, document pages, and the decisions behind the server's
    requests.
  - `source`, `docker`, `poll`: container paths (which never leave the base),
    parsing of `docker` output, and the polling watcher's decisions.
  - `duration`: the `--poll-interval` argument.
- `app/` — the command-line program and HTTP server around the library:
  file system and `docker` I/O, axum routes, file watching, and the call to
  the markdown renderer.
- `tests/` — tests of the library.

## Usage

```bash
previewf serve ./docs/            # serve a directory
previewf view ./README.md         # view markdown in the terminal
previewf flags ./plan.md --json   # extract flags
previewf docker ls                # list running containers
previewf docker serve my-app /app # serve files from a container
```
