# herdr-glowr

The verified core of a terminal markdown viewer with line-anchored comments: reading a document
into commentable blocks, laying those out, keeping the comments written on them, and formatting
the open ones for a coding agent or the clipboard. It is written in [Verus](https://github.com/verus-lang/verus):
each function states in `requires` and `ensures` what it does, and Verus proves it.

- `src/` is the library. Terminal columns, markdown events, TOML entries, JSON objects, layout
  and the clock come from outside crates and from std, each through one small trusted function
  whose doc comment says what is taken on trust.
- `tests/` runs it on concrete values, with the real outside crates.
- `app/` is the program around it: arguments, files, the terminal, child processes. It is
  ordinary Rust and not verified.

| Modules | What they hold |
| --- | --- |
| `markdown`, `events`, `fold`, `offsets`, `shift` | source text to commentable blocks |
| `render`, `rows`, `style`, `width`, `elide` | blocks to styled, wrapped rows |
| `comments`, `model`, `export`, `order`, `delivery` | comments, their lifecycle, their export |
| `app`, `pane`, `keys`, `mouse`, `paging`, `snippet`, `scroll` | the state of a session and what keys and the mouse do to it |
| `geometry`, `docview`, `cards`, `composer`, `listing`, `footer`, `ui` | what stands where on the screen |
| `config`, `theme`, `file_list`, `text` | settings, the file list, text helpers |

Properties that span several functions are public proof functions named `law_*`, beside the
code that they speak of.
