# hw

A small collection of byte and text utilities, verified with Verus.

`src/` is the verified library:

- `byte_add`: checked, wrapping and saturating byte addition, the named
  addition modes, and reading two bytes from a line as `u8::from_str` does.
- `pixels`: an 8x8 bitmap codec between `#`/`.` text rows and row bytes,
  with the round-trip and inversion laws.
- `records`: the fixed-size records used as copy input.
- `buffers`: the bookkeeping of a buffered byte reader and writer, their
  laws over any sequence of calls, and a proof that a byte-by-byte copy
  through them loses nothing, whatever sizes the reads and writes return.
- `byte_count`, `word_count`: byte, line and word counts of an input read up
  to a 10 MiB limit.
- `word_sort`: merge sort of words in `String` order, with the proofs that
  the result is the sorted permutation of the input.
- `text`: whitespace classes, trimming and field splitting.
- `hangman`: the rules of a word-guessing game, turn by turn.
- `shell`: reading the command lines of a tiny shell.

`app/` holds the programs around it (file and terminal I/O, process
spawning, timing): `hw bytes|wc|sort|add|copy|hangman|shell`.
