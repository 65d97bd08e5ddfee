//! Reading WordNet: the sense index, the data files, and the stemming of inflected forms.

pub mod import;
pub mod stemming;
pub mod word_type;

pub use import::{from_wordnet, lookup, ParseError, Sense, SenseList, WordnetData};
pub use stemming::{stem, Exceptions, ExclusionsTable, StemmedWord};
pub use word_type::WordType;
