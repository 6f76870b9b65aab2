//! Spelling correction against a word-frequency table: generation of every
//! string within one or two edit operations of an input word, filtering
//! against the recorded vocabulary, and selection of the most frequent
//! candidate.

pub mod correcting;
pub mod counting;
pub mod edits;
pub mod wordcounter;
pub mod wordset;

pub use correcting::candidates;
pub use correcting::correction;
pub use correcting::known;
pub use correcting::word_probability;
pub use counting::WordCounts;
pub use edits::edits1;
pub use edits::edits2;
pub use wordcounter::count_words;
pub use wordcounter::get_words;
pub use wordcounter::parse_line;
pub use wordset::WordSet;
