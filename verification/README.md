# amp

The logic of a modal text editor, verified with Verus: key maps and leader trees,
terminal input parsing, the git gutter and hunk reverts, ripgrep and `:sed`
workflows, ex mode with history and completion, pick lists, block selection, the
status line and the file of remembered cursor positions.

## Layout

- `src/` is the verified library. Each module states what its functions do in
  `requires`/`ensures` over spec functions on plain values (`Seq`, `Map`, `int`), and
  the properties that relate several functions stand as public proof functions named
  `law_*`.
  - `input`: bytes from the terminal to keys and bracketed pastes.
  - `key_map`: reading key maps from YAML documents, merging them, looking up keys and
    key sequences, and the hints shown while a sequence is being typed.
  - `diff`, `hunk`: line statuses against the git index (an LCS diff), hunk navigation
    and the edits that revert a hunk.
  - `sed`, `rg`, `git_status`, `tags`, `github`: the text formats of the search,
    replace, status and tag workflows.
  - `ex_mode`, `completion`, `words`: the command line, its history and completions,
    and completion from the words of a buffer.
  - `pickers`, `search_select`: the pick lists (buffers, recent files, `fd`, the file
    picker, tags, symbols).
  - `select_block`, `brackets`, `cursor`, `view`, `repeat`: editing decisions on the
    text of a buffer.
  - `status_line`, `truncate`, `positions`, `buffer_registry`, `records`, `modes`,
    `order`, `text`: shared pieces.
- `app/` is the unverified shell around it: git2, the git and ripgrep command lines,
  the file system, the tag daemon's socket, YAML parsing and scribe buffers. It hands
  the library plain values and carries out what the library decides.
- `tests/` runs the library on concrete inputs.

Calls into other crates (`regex`, `fragment`, `unicode-segmentation`) and into parts of
std that vstd does not specify go through small wrappers marked
`#[verifier::external_body]`, whose contracts are trusted; each says in its doc comment
which function it calls.
