# lopdf

Random access to PDF files of any size: the reader finds the cross-reference
sections from the end of a file, keeps an index of where the objects stand, and
reads an object only when it is asked for. Every read, every decoded stream and
every walk is bounded by a limit.

- `src/` is the library, verified with Verus. The contracts speak of the bytes
  of a document (`Seq<u8>`), of objects as mathematical values (`ObjectView`) and
  of documents as `DocumentView`.
  - `lex`, `parser`, `writer`, `content`: the syntax of objects.
  - `framer`, `framing`: where an object ends when only a window of it is known.
  - `open`, `xref`, `recovery`, `locations`: the index of a document.
  - `resolve`, `object_stream`, `streams`, `filters`, `ascii`, `predictor`,
    `security`, `reader`: objects and the bytes of streams.
  - `page_map`, `page_content`: the pages.
  - `cache`, `shared`, `bounded_cache`, `batch`, `memory`, `stats`: what is kept,
    and what it weighs.
  - `errors`, `message`: what goes wrong, and what is said of it.
  - `budget`, `preflight`: resolution within an allowance of memory.
  - `cmap`: from character codes to Unicode and back.
- `app/` is the ordinary Rust around it: files, threads, and errors with their
  texts.
- `tests/` runs the library.

The proof functions whose names start with `law_` state what holds across
several operations.
