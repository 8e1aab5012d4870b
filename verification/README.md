# word_tools

Verified text statistics for files, written in Verus.

- `src/` is the library. Every function of it is verified except two small
  trusted wrappers around std, whose contracts Verus takes on trust:
  `text::push_char` (`String::push`) and `text::to_lowercase`
  (`str::to_lowercase`, whose result for non-ASCII text is only named).
  - `text`: white space, words (as `split_whitespace` finds them), lines (as
    `lines` counts them), characters; lower-casing goes through `str::to_lowercase`.
  - `frequency`: word frequency tables (a hash-indexed list of distinct words
    with positive counts) and the frequency of the lower-cased words of a text.
  - `paths`: the file name and extension of a path, read as on Unix (`/` is the
    only separator).
  - `analyzer`: statistics of one file, of many files, which files are read as
    text, and word search.
  - `treesave`: the line limit of a directory listing, which files it reads as
    text, and what each file adds to it.
  - `greet`: addition and a greeting.
- `app/` is the command-line program around it: a word counter, the directory
  listing, and an HTTP service (file system, network, JSON and clock).
- `tests/` runs the library on concrete inputs, many of them against std.
