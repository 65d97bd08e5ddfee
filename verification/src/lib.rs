//! Word search and anagramming over a lexicon of words and phrases.
//!
//! The central data structure is the [`Lexicon`], an ordered list of words and phrases. Each is
//! stored as an [`Entry`], which caches what the searches read: the letters of the phrase, the
//! same letters in alphabetical order, and the positions of its word breaks.

pub mod ascii_string;
pub mod dictionary;
pub mod lexicon;
pub mod lines;
pub mod plural;
pub mod popularity;
pub mod preview;
pub mod response;
pub mod sorted_ascii;
pub mod sorting;
pub mod text;
pub mod thesaurus;
pub mod word_breaks;
pub mod wordnet;

pub use ascii_string::{AsciiError, AsciiString};
pub use dictionary::Dictionary;
pub use lexicon::{parse_word, Entry, Lexicon, Results, SearchKey};
pub use plural::plural;
pub use popularity::{Popularity, Ranked};
pub use preview::{Preview, PreviewResponse, PreviewWord};
pub use sorted_ascii::SortedAscii;
pub use thesaurus::Thesaurus;
pub use word_breaks::WordBreaks;
