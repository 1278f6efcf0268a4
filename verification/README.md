# RED (Remove Empty Directory)

RED finds directories with nothing in them that counts, and removes them.

- `src/` is the library, verified with Verus. Its contracts say which
  directories of a walk are empty, how they are laid out as a tree, in which
  order they are deleted and what is told of it.
- `app/` is the program around it: the command line, the window, the walk over
  the disk and the removals.
- `tests/` runs the library on small walks.

## The library

| module | what it holds |
|---|---|
| `text`, `wild` | text helpers, lists of names, wildcard patterns |
| `path` | paths below the scanned root, their order and text |
| `settings`, `session` | what a scan and a deletion are told |
| `entry`, `emptiness` | what a walk finds, and which directories are empty |
| `outline` | the empty directories and those above them, as a tree |
| `clean`, `delete` | making a directory ready, and the run of deletions |
| `rows`, `feed` | the rows of the window, and its log |
| `scan_laws`, `delete_laws`, `rows_laws` | what holds of the whole |

A directory is empty when it is not protected (off limits, hidden or too
young) and nothing below it, however deep, is a file that counts, a protected
directory, or deeper than the scan looks.

A name is the bytes that the system knows it by, which order it and tell it
apart, together with the text that the system shows for it, which patterns and
messages go by.
