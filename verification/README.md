# laura

A terminal workspace that hosts a shell (and the coding agent running in it) beside file
panels the agent tiles over a small per-tab socket protocol.

The engine is a Verus library: Verus proves its functions against their `requires`/`ensures`
contracts. The few calls into `syntect`, `pulldown-cmark` and std's `String::push`/`String::pop`
go through small trusted items (marked `external_body`, `external_type_specification` or
`assume_specification`) whose contracts are believed, not proved; each says in its doc comment
what it claims.

- `layout`: the binary split tree of panes, its rectangles (they tile the area exactly), and
  split / remove / collapse with their laws (closing what an `open` added restores the tree).
- `tab`: a tab's requests (`open`, `close`, `focus`, `highlight`, `diff`, `comment`, `ready`,
  `layout`) as state transitions over the tree and its panels.
- `panel`, `rows`, `wrap`: a panel's cursor, highlight, comment threads, review assembly and
  submission, and the row layout that wraps lines, boxes fenced code and places comment cards.
- `render`, `markdown`, `code`, `style`: turning file text into styled rows (plain, diff,
  markdown through `pulldown-cmark`, code through `syntect`).
- `gitdiff`: parsing `git diff --unified=0` into per-line gutter markers and deleted lines.
- `keys`, `mouse`, `pty`, `select`, `input`, `ui`: the bytes the front-end sends to the shell,
  mouse and clipboard encodings, selection and extraction, key routing, and the chrome's
  geometry (tab bar, scrollbar, draft box).
- `journal`, `protocol`, `text`: session journal naming, the request/response vocabulary, and
  character helpers.

`app/` is the program around it: the command line, the socket transport, the PTY, the file
system, `git`, and drawing with `ratatui`. `tests/` exercises the library from outside.
