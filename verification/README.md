# toporepo

A token-budgeted code outline/retrieval map for LLM agents. Given a repository
(and optionally a natural-language query), it emits a compact, ranked outline of
the most relevant definitions.

The library (`src/`) is written in Verus and verified:

- `tags` — turning a file's tree-sitter tag-query matches into definition and
  reference tags, doc comments attached; `lang` — language detection, the
  grammars and the query runs.
- `index` — the define/reference tables of a repository.
- `graph` — which files each identifier connects, and its weighting factors.
- `render` — which lines of a file to show for a definition, and rendering them.
- `repomap` — grouping the ranked definitions by file, ordering the files,
  fitting the outline to the token budget.
- `semantic`, `cache` — the code text and content hash of each definition.
- `walk`, `importance`, `text`, `bytes`, `order` — paths, well-known files and
  helpers.

The binary (`app/`) does the rest: the command line, walking the repository,
the embedding model (model2vec), the SQLite embedding cache, and the
floating-point graph walk and scores, which it turns into ranks for the library.

The tag queries (`<language>-tags.scm`) are read at start-up from a `queries/`
directory: `TOPOREPO_QUERIES` if set, else next to the executable, else the
working directory.
