# zipkirei

Cleans ZIP archives without unpacking them: it puts file names into Unicode Normalization Form C,
sets the UTF-8 flag of names that are not ASCII, turns backslashes in names into slashes, and drops
the files that macOS and Windows leave behind. Compressed data is never touched.

An archive is cleaned in place, with as few writes as possible, or written anew. The fast mode
rewrites only the central directory; a dry run shows what would be done.

## Layout

- `src/` is the library. Every function in it is verified with Verus.
  - `zip/eocd`, `zip/plan`, `zip/local_header`, `zip/extra`: reading the parts of an archive.
  - `zip/names`, `zip/options`: what a name becomes, and which entries are dropped.
  - `zip/write_new`, `zip/inplace`, `zip/cd_entry`, `zip/directory`: what is written.
  - `zip/job`, `zip/planner`, `zip/process`: whole archives, in memory or read piece by piece.
  - `zip/layout`, `zip/reread`, `zip/laws`, `zip/second_run`: what holds of an archive, of what is
    read back from a cleaned one, and of cleaning it once more.
  - `cli`, `wasm`: the command line, and the repair of an archive in memory.
- `app/` is the program: arguments, files, and bindings for JavaScript.
- `tests/` runs the library.

## What is taken on trust

`zip/names` calls `unicode-normalization` and two functions of the standard library that decode
UTF-8. What these return is stated there and not proved.
