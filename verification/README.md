# snippets

A library for a collection of code snippets: snippet files are split into a metadata
block and markdown parts, checked for consistent tags, unique identifiers and valid
links, indexed by keyword prefixes in a trie, searched by keywords and tags, rendered
from markdown into styled documents laid out for a terminal, and browsed through an
interface whose state changes are computed here.

- `src/` is the library, written and proved with Verus.
  - `util/`: attribute strings, cyclic indices, byte-string order, segment files,
    sorting, string helpers, tree traversal and the keyword trie.
  - `document/`: styles, spans, words, lines, fragments, themes and the markdown
    conversion.
  - `snippets/`: snippet files (`raw`, `source`), the archive and its checks, the
    library and its search, and the folder hierarchy.
  - `ui/`: the interface's states and transitions, filters, the tree outline, and the
    document layout.
  - `timing/`: measuring a computation.
- `tests/` runs the library on concrete values.
- `app/` is the program around it: the command line, file and archive I/O, YAML and
  binary formats, syntax highlighting, the clipboard and the terminal drawing.
