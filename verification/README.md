# notevault

The core of a local-first Markdown note vault, verified with Verus: block
segmentation and block ids, wiki links and block references, front matter,
tags and titles, flashcards (`#card`, `#card-reverse`, `#cloze`) and their
review schedule counters, link resolution and the link graph, full-text query
escaping, `git` output parsing and the commit steps, AI prompts and replies,
and static-site export arguments.

Layout:

- `src/`: the verified library. `text` holds the string model shared by the
  other modules; each other module states its functions over spec functions
  of its own, and its laws as public proof functions named `law_*`.
- `tests/`: tests of the library on concrete values.
- `app/`: the application shell around the library (files, SQLite, processes,
  the floating-point FSRS memory model). It calls the library for every
  decision it makes and is not verified.
