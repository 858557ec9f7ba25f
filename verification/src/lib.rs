//! Small byte-oriented utilities: overflow-aware byte addition, an 8x8
//! bitmap codec, buffered byte streams, word statistics, word sorting,
//! a word-guessing game and a command-line splitter for a tiny shell.

pub mod byte_add;
pub mod pixels;
pub mod records;
pub mod byte_count;
pub mod word_count;
pub mod word_sort;
pub mod buffers;
pub mod text;
pub mod hangman;
pub mod shell;
