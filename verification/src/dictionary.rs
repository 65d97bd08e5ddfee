//! Definitions of words and phrases, looked up by lemma and, failing that, by stem.

use crate::lexicon::parse_word::{transliterate, transliterated};
use crate::text::{chars_of, string_of};
use crate::wordnet::import::data::WordnetData;
use crate::wordnet::import::{from_wordnet, leading_senses, text_lines, wordnet_entries};
use crate::wordnet::stemming::{
    no_exceptions, stem, stems_of, stems_view, Exceptions, ExceptionsView,
};
use crate::wordnet::word_type::WordType;
use vstd::hash_map::StringHashMap;
use vstd::prelude::*;
use vstd::string::StringSliceAdditionalSpecFns;

verus! {

/// A definition with the part of speech that it is for.
#[derive(Debug, PartialEq, Eq)]
pub struct Definition {
    pub word_type: WordType,
    pub text: String,
}

impl View for Definition {
    type V = (WordType, Seq<char>);

    open spec fn view(&self) -> (WordType, Seq<char>) {
        (self.word_type, self.text@)
    }
}

/// What each of the definitions holds.
pub open spec fn definitions_view(definitions: Seq<Definition>) -> Seq<(WordType, Seq<char>)> {
    Seq::new(definitions.len(), |i: int| definitions[i]@)
}

/// What a table of definitions holds: for each lemma the definitions of it. The first
/// definition of a lemma is always the best if the part of speech is not known.
pub open spec fn entries_view(entries: Map<Seq<char>, Vec<Definition>>) -> Map<
    Seq<char>,
    Seq<(WordType, Seq<char>)>,
> {
    entries.map_values(|definitions: Vec<Definition>| definitions_view(definitions@))
}

/// The definitions that a dictionary has for a lemma, if it has the lemma.
pub open spec fn definitions_of(
    entries: Map<Seq<char>, Seq<(WordType, Seq<char>)>>,
    lemma: Seq<char>,
) -> Option<Seq<(WordType, Seq<char>)>> {
    if entries.contains_key(lemma) {
        Some(entries[lemma])
    } else {
        None
    }
}

/// The dictionary with one more definition of a lemma: it follows those that the dictionary
/// has for the lemma.
pub open spec fn with_definition(
    entries: Map<Seq<char>, Seq<(WordType, Seq<char>)>>,
    lemma: Seq<char>,
    definition: (WordType, Seq<char>),
) -> Map<Seq<char>, Seq<(WordType, Seq<char>)>> {
    if entries.contains_key(lemma) {
        entries.insert(lemma, entries[lemma].push(definition))
    } else {
        entries.insert(lemma, seq![definition])
    }
}

/// The first of the definitions, if there is any.
pub open spec fn first_definition(definitions: Seq<(WordType, Seq<char>)>) -> Option<Seq<char>> {
    if definitions.len() > 0 {
        Some(definitions[0].1)
    } else {
        None
    }
}

/// The first of the definitions that is for the given part of speech, if there is one.
pub open spec fn definition_for_type(
    definitions: Seq<(WordType, Seq<char>)>,
    word_type: WordType,
) -> Option<Seq<char>>
    decreases definitions.len(),
{
    if definitions.len() == 0 {
        None
    } else if definitions[0].0 == word_type {
        Some(definitions[0].1)
    } else {
        definition_for_type(definitions.drop_first(), word_type)
    }
}

/// The definition that a stem leads to: that of its base form for its part of speech.
pub open spec fn stem_definition(
    entries: Map<Seq<char>, Seq<(WordType, Seq<char>)>>,
    stem: (WordType, Seq<char>),
) -> Option<Seq<char>> {
    match definitions_of(entries, stem.1) {
        Some(definitions) => definition_for_type(definitions, stem.0),
        None => None,
    }
}

/// The definition that the first of the stems leads to that leads to any.
pub open spec fn stemmed_definition(
    entries: Map<Seq<char>, Seq<(WordType, Seq<char>)>>,
    stems: Seq<(WordType, Seq<char>)>,
) -> Option<Seq<char>>
    decreases stems.len(),
{
    if stems.len() == 0 {
        None
    } else {
        match stem_definition(entries, stems[0]) {
            Some(definition) => Some(definition),
            None => stemmed_definition(entries, stems.drop_first()),
        }
    }
}

/// The character of a search term that stands for a character of a query: the lowercase form of
/// an uppercase ASCII letter, an underscore for a space, and any other character as it is.
pub open spec fn term_char(c: char) -> char {
    if 'A' <= c <= 'Z' {
        ((c as u8) + 0x20) as char
    } else if c == ' ' {
        '_'
    } else {
        c
    }
}

/// The term under which a query in ASCII is looked up.
pub open spec fn search_term(ascii: Seq<char>) -> Seq<char> {
    Seq::new(ascii.len(), |i: int| term_char(ascii[i]))
}

/// What a [`Dictionary`] holds, as mathematical values.
pub ghost struct DictionaryView {
    /// The lemmas with their definitions.
    pub entries: Map<Seq<char>, Seq<(WordType, Seq<char>)>>,
    /// The tables of irregular forms by which a term is stemmed.
    pub exceptions: ExceptionsView,
}

/// The definition that a dictionary gives for a query in ASCII: the first definition of the
/// search term, or, where the dictionary has none, the definition that a stem of the term
/// leads to.
pub open spec fn lookup_of(dictionary: DictionaryView, ascii: Seq<char>) -> Option<Seq<char>> {
    let term = search_term(ascii);
    let direct = match definitions_of(dictionary.entries, term) {
        Some(definitions) => first_definition(definitions),
        None => None,
    };
    match direct {
        Some(definition) => Some(definition),
        None => stemmed_definition(dictionary.entries, stems_of(dictionary.exceptions, term)),
    }
}

/// A copy of the definitions.
fn copy_definitions(definitions: &Vec<Definition>) -> (r: Vec<Definition>)
    ensures
        definitions_view(r@) == definitions_view(definitions@),
{
    let mut copy: Vec<Definition> = Vec::new();
    let mut i: usize = 0;
    while i < definitions.len()
        invariant
            i <= definitions.len(),
            copy@.len() == i,
            forall|k: int| 0 <= k < i ==> (#[trigger] copy@[k])@ == definitions@[k]@,
        decreases definitions.len() - i,
    {
        copy.push(
            Definition { word_type: definitions[i].word_type, text: definitions[i].text.clone() },
        );
        i += 1;
    }
    assert(definitions_view(copy@) =~= definitions_view(definitions@));
    copy
}

/// The first of the definitions that is for the given part of speech.
fn for_type(definitions: &Vec<Definition>, word_type: WordType) -> (r: Option<&str>)
    ensures
        r is Some <==> definition_for_type(definitions_view(definitions@), word_type) is Some,
        r matches Some(text) ==> definition_for_type(definitions_view(definitions@), word_type)
            == Some(text@),
{
    let ghost all = definitions_view(definitions@);
    let mut i: usize = 0;
    proof {
        assert(all.skip(0) =~= all);
    }
    while i < definitions.len()
        invariant
            i <= definitions.len(),
            all == definitions_view(definitions@),
            definition_for_type(all, word_type) == definition_for_type(
                all.skip(i as int),
                word_type,
            ),
        decreases definitions.len() - i,
    {
        proof {
            assert(all.skip(i as int)[0] == all[i as int]);
            assert(all.skip(i as int).drop_first() =~= all.skip(i + 1));
        }
        if definitions[i].word_type == word_type {
            return Some(definitions[i].text.as_str());
        }
        i += 1;
    }
    None
}

/// Definitions of words and phrases, found by lemma.
pub struct Dictionary {
    entries: StringHashMap<Vec<Definition>>,
    exceptions: Exceptions,
}

impl View for Dictionary {
    type V = DictionaryView;

    closed spec fn view(&self) -> DictionaryView {
        DictionaryView { entries: entries_view(self.entries@), exceptions: self.exceptions@ }
    }
}

impl Dictionary {
    /// A dictionary without entries and without irregular forms.
    pub fn new() -> (r: Self)
        ensures
            r@.entries == Map::<Seq<char>, Seq<(WordType, Seq<char>)>>::empty(),
            r@.exceptions == no_exceptions(),
    {
        let r = Dictionary { entries: StringHashMap::new(), exceptions: Exceptions::new() };
        assert(r@.entries =~= Map::<Seq<char>, Seq<(WordType, Seq<char>)>>::empty());
        r
    }

    /// The dictionary that the sense index and the data files of WordNet give, with the given
    /// tables of irregular forms.
    pub fn from_wordnet(index_sense: &str, data: &WordnetData, exceptions: Exceptions) -> (r: Self)
        ensures
            r@.entries == wordnet_entries(
                leading_senses(text_lines(index_sense.spec_bytes())),
                data@,
            ),
            r@.exceptions == exceptions@,
    {
        Dictionary { entries: from_wordnet(index_sense, data), exceptions }
    }

    /// The dictionary with the given tables of irregular forms in place of its own.
    pub fn with_exceptions(self, exceptions: Exceptions) -> (r: Self)
        ensures
            r@.entries == self@.entries,
            r@.exceptions == exceptions@,
    {
        Dictionary { entries: self.entries, exceptions }
    }

    /// Adds a definition of a lemma for a part of speech, after those that the lemma has.
    pub fn insert(&mut self, lemma: &str, defn: &str, word_type: WordType)
        ensures
            final(self)@.entries == with_definition(
                old(self)@.entries,
                lemma@,
                (word_type, defn@),
            ),
            final(self)@.exceptions == old(self)@.exceptions,
    {
        let ghost before = self.entries@;
        let mut definitions = match self.entries.get(lemma) {
            Some(had) => copy_definitions(had),
            None => Vec::new(),
        };
        let ghost had = definitions_view(definitions@);
        definitions.push(Definition { word_type, text: defn.to_owned() });
        proof {
            assert(definitions_view(definitions@) =~= had.push((word_type, defn@)));
            if !before.contains_key(lemma@) {
                assert(had =~= Seq::<(WordType, Seq<char>)>::empty());
                assert(had.push((word_type, defn@)) =~= seq![(word_type, defn@)]);
            }
        }
        self.entries.insert(lemma.to_owned(), definitions);
        proof {
            assert(self@.entries =~= with_definition(
                entries_view(before),
                lemma@,
                (word_type, defn@),
            ));
        }
    }

    /// Returns the number of entries in the dictionary
    pub fn len(&self) -> (n: usize)
        ensures
            n == self@.entries.len(),
    {
        proof {
            assert(self@.entries.dom() =~= self.entries@.dom());
        }
        self.entries.len()
    }

    /// Returns `true` if the dictionary is empty
    pub fn is_empty(&self) -> (r: bool)
        ensures
            r == (self@.entries.len() == 0),
    {
        self.len() == 0
    }

    /// Returns a definition of the given term, or `None` if no definition was found.
    ///
    /// If the term contains accented characters, they are converted to a rough ASCII
    /// equivalent. If a definition is not found, the search continues with the base forms that
    /// stemming gives for the term.
    pub fn lookup<'a>(&'a self, term: &str) -> (r: Option<&'a str>)
        ensures
            r is Some <==> lookup_of(self@, transliterated(term@)) is Some,
            r matches Some(text) ==> lookup_of(self@, transliterated(term@)) == Some(text@),
    {
        let ascii = transliterate(term);
        self.lookup_ascii(ascii.as_str())
    }

    /// Returns a definition of a term that is given in ASCII.
    pub fn lookup_ascii<'a>(&'a self, ascii: &str) -> (r: Option<&'a str>)
        ensures
            r is Some <==> lookup_of(self@, ascii@) is Some,
            r matches Some(text) ==> lookup_of(self@, ascii@) == Some(text@),
    {
        let given = chars_of(ascii);
        let mut term: Vec<char> = Vec::new();
        let mut i: usize = 0;
        while i < given.len()
            invariant
                i <= given.len(),
                given@ == ascii@,
                term@ == search_term(ascii@).take(i as int),
            decreases given.len() - i,
        {
            let c = given[i];
            let t = if 'A' <= c && c <= 'Z' {
                ((c as u8) + 0x20) as char
            } else if c == ' ' {
                '_'
            } else {
                c
            };
            term.push(t);
            proof {
                assert(search_term(ascii@).take(i + 1) =~= search_term(ascii@).take(i as int).push(
                    term_char(c),
                ));
            }
            i += 1;
        }
        proof {
            assert(search_term(ascii@).take(i as int) =~= search_term(ascii@));
        }
        let search = string_of(term.as_slice());
        match self.entries.get(search.as_str()) {
            Some(definitions) => {
                if definitions.len() > 0 {
                    return Some(definitions[0].text.as_str());
                }
            },
            None => {},
        }
        self.lookup_stemming(search.as_str())
    }

    /// The definition that the first base form of the term leads to that leads to any.
    pub fn lookup_stemming<'a>(&'a self, term: &str) -> (r: Option<&'a str>)
        ensures
            r is Some <==> stemmed_definition(
                self@.entries,
                stems_of(self@.exceptions, term@),
            ) is Some,
            r matches Some(text) ==> stemmed_definition(
                self@.entries,
                stems_of(self@.exceptions, term@),
            ) == Some(text@),
    {
        let stems = stem(term, &self.exceptions);
        let ghost all = stems_view(stems@);
        let ghost entries = self@.entries;
        let mut i: usize = 0;
        proof {
            assert(all.skip(0) =~= all);
        }
        while i < stems.len()
            invariant
                i <= stems.len(),
                all == stems_view(stems@),
                all == stems_of(self@.exceptions, term@),
                entries == entries_view(self.entries@),
                entries == self@.entries,
                stemmed_definition(entries, all) == stemmed_definition(entries, all.skip(i as int)),
            decreases stems.len() - i,
        {
            proof {
                assert(all.skip(i as int)[0] == all[i as int]);
                assert(all.skip(i as int).drop_first() =~= all.skip(i + 1));
            }
            match self.entries.get(stems[i].base_form.as_str()) {
                Some(definitions) => {
                    match for_type(definitions, stems[i].word_type) {
                        Some(text) => {
                            return Some(text);
                        },
                        None => {},
                    }
                },
                None => {},
            }
            i += 1;
        }
        None
    }
}

} // verus!
