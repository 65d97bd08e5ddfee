//! Stemming: from an inflected form to the base forms that it may stand for.

use crate::lines::{lemma_split_nonempty, lines, lines_of, split, split_chars, texts_of};
use crate::text::{chars_of, string_of};
use crate::wordnet::word_type::WordType;
use vstd::hash_map::StringHashMap;
use vstd::prelude::*;

verus! {

/// A word that another may be an inflected form of, with the part of speech as which it is one.
#[derive(Debug, Hash, PartialEq, Eq)]
pub struct StemmedWord {
    pub word_type: WordType,
    pub base_form: String,
}

impl Clone for StemmedWord {
    fn clone(&self) -> (r: Self)
        ensures
            r@ == self@,
    {
        StemmedWord { word_type: self.word_type, base_form: self.base_form.clone() }
    }
}

impl View for StemmedWord {
    type V = (WordType, Seq<char>);

    open spec fn view(&self) -> (WordType, Seq<char>) {
        (self.word_type, self.base_form@)
    }
}

impl StemmedWord {
    /// A base form with its part of speech.
    pub fn new(base_form: &str, word_type: WordType) -> (r: Self)
        ensures
            r@ == (word_type, base_form@),
    {
        StemmedWord { word_type, base_form: base_form.to_owned() }
    }
}

/// What each of the stemmed words holds.
pub open spec fn stems_view(stems: Seq<StemmedWord>) -> Seq<(WordType, Seq<char>)> {
    Seq::new(stems.len(), |i: int| stems[i]@)
}

/// The word ends with the suffix.
pub open spec fn ends_with(word: Seq<char>, suffix: Seq<char>) -> bool {
    suffix.len() <= word.len() && word.skip(word.len() - suffix.len()) == suffix
}

/// The word with the suffix at its end replaced.
pub open spec fn replace_suffix(word: Seq<char>, suffix: Seq<char>, replacement: Seq<char>) -> Seq<
    char,
> {
    word.take(word.len() - suffix.len()) + replacement
}

/// The base forms that the rules give for a word: one for each rule whose suffix the word ends
/// with, in the order of the rules.
pub open spec fn rule_stems(
    rules: Seq<(Seq<char>, Seq<char>)>,
    word_type: WordType,
    word: Seq<char>,
) -> Seq<(WordType, Seq<char>)>
    decreases rules.len(),
{
    if rules.len() == 0 {
        Seq::empty()
    } else if ends_with(word, rules.last().0) {
        rule_stems(rules.drop_last(), word_type, word).push(
            (word_type, replace_suffix(word, rules.last().0, rules.last().1)),
        )
    } else {
        rule_stems(rules.drop_last(), word_type, word)
    }
}

/// The suffixes of inflected nouns, each with what stands in its place in the base form.
pub open spec fn noun_rules() -> Seq<(Seq<char>, Seq<char>)> {
    seq![
        ("s"@, ""@),
        ("ses"@, "s"@),
        ("xes"@, "x"@),
        ("zes"@, "z"@),
        ("ches"@, "ch"@),
        ("shes"@, "sh"@),
        ("men"@, "man"@),
        ("ies"@, "y"@),
    ]
}

/// The suffixes of inflected verbs, each with what stands in its place in the base form.
pub open spec fn verb_rules() -> Seq<(Seq<char>, Seq<char>)> {
    seq![
        ("s"@, ""@),
        ("ies"@, "y"@),
        ("es"@, "e"@),
        ("es"@, ""@),
        ("ed"@, "e"@),
        ("ed"@, ""@),
        ("ing"@, "e"@),
        ("ing"@, ""@),
    ]
}

/// The suffixes of inflected adjectives, each with what stands in its place in the base form.
pub open spec fn adj_rules() -> Seq<(Seq<char>, Seq<char>)> {
    seq![("er"@, ""@), ("est"@, ""@), ("er"@, "e"@), ("est"@, "e"@)]
}

/// The texts of a list of rules.
pub open spec fn rules_view(rules: Seq<(&'static str, &'static str)>) -> Seq<
    (Seq<char>, Seq<char>),
> {
    Seq::new(rules.len(), |i: int| (rules[i].0@, rules[i].1@))
}

/// The rules for nouns.
pub fn noun_rule_list() -> (rules: Vec<(&'static str, &'static str)>)
    ensures
        rules_view(rules@) == noun_rules(),
{
    let rules = vec![
        ("s", ""),
        ("ses", "s"),
        ("xes", "x"),
        ("zes", "z"),
        ("ches", "ch"),
        ("shes", "sh"),
        ("men", "man"),
        ("ies", "y"),
    ];
    assert(rules_view(rules@) =~= noun_rules());
    rules
}

/// The rules for verbs.
pub fn verb_rule_list() -> (rules: Vec<(&'static str, &'static str)>)
    ensures
        rules_view(rules@) == verb_rules(),
{
    let rules = vec![
        ("s", ""),
        ("ies", "y"),
        ("es", "e"),
        ("es", ""),
        ("ed", "e"),
        ("ed", ""),
        ("ing", "e"),
        ("ing", ""),
    ];
    assert(rules_view(rules@) =~= verb_rules());
    rules
}

/// The rules for adjectives.
pub fn adj_rule_list() -> (rules: Vec<(&'static str, &'static str)>)
    ensures
        rules_view(rules@) == adj_rules(),
{
    let rules = vec![("er", ""), ("est", ""), ("er", "e"), ("est", "e")];
    assert(rules_view(rules@) =~= adj_rules());
    rules
}

/// Tells whether the word ends with the suffix.
fn has_suffix(word: &[char], suffix: &[char]) -> (r: bool)
    ensures
        r == ends_with(word@, suffix@),
{
    if suffix.len() > word.len() {
        return false;
    }
    let start = word.len() - suffix.len();
    let mut i: usize = 0;
    while i < suffix.len()
        invariant
            i <= suffix.len(),
            start + suffix.len() == word.len(),
            forall|k: int| 0 <= k < i ==> word@[start + k] == suffix@[k],
        decreases suffix.len() - i,
    {
        if word[start + i] != suffix[i] {
            assert(word@.skip(start as int)[i as int] != suffix@[i as int]);
            return false;
        }
        i += 1;
    }
    assert(word@.skip(start as int) =~= suffix@);
    true
}

/// The base forms that one set of rules gives for a word.
pub fn stem_ruleset(
    rule_set: &Vec<(&'static str, &'static str)>,
    word_type: WordType,
    input: &[char],
) -> (stems: Vec<StemmedWord>)
    ensures
        stems_view(stems@) == rule_stems(rules_view(rule_set@), word_type, input@),
{
    let ghost rules = rules_view(rule_set@);
    let mut stems: Vec<StemmedWord> = Vec::new();
    let mut i: usize = 0;
    proof {
        assert(rules.take(0) =~= Seq::<(Seq<char>, Seq<char>)>::empty());
        assert(stems_view(stems@) =~= Seq::<(WordType, Seq<char>)>::empty());
    }
    while i < rule_set.len()
        invariant
            i <= rule_set.len(),
            rules == rules_view(rule_set@),
            stems_view(stems@) == rule_stems(rules.take(i as int), word_type, input@),
        decreases rule_set.len() - i,
    {
        let suffix = chars_of(rule_set[i].0);
        let replacement = chars_of(rule_set[i].1);
        let ghost before = stems_view(stems@);
        proof {
            assert(rules.take(i + 1).drop_last() =~= rules.take(i as int));
            assert(rules.take(i + 1).last() == rules[i as int]);
        }
        if has_suffix(input, suffix.as_slice()) {
            let keep = input.len() - suffix.len();
            let mut base: Vec<char> = Vec::new();
            let mut m: usize = 0;
            while m < keep
                invariant
                    m <= keep <= input.len(),
                    base@ == input@.take(m as int),
                decreases keep - m,
            {
                base.push(input[m]);
                assert(input@.take(m + 1) =~= input@.take(m as int).push(input@[m as int]));
                m += 1;
            }
            let mut n: usize = 0;
            while n < replacement.len()
                invariant
                    n <= replacement.len(),
                    base@ == input@.take(keep as int) + replacement@.take(n as int),
                decreases replacement.len() - n,
            {
                base.push(replacement[n]);
                assert(replacement@.take(n + 1) =~= replacement@.take(n as int).push(
                    replacement@[n as int],
                ));
                assert(base@ =~= input@.take(keep as int) + replacement@.take(n + 1));
                n += 1;
            }
            proof {
                assert(replacement@.take(n as int) =~= replacement@);
            }
            let base_form = string_of(base.as_slice());
            stems.push(StemmedWord { word_type, base_form });
            proof {
                assert(stems_view(stems@) =~= before.push(
                    (word_type, replace_suffix(input@, suffix@, replacement@)),
                ));
            }
        }
        i += 1;
    }
    assert(rules.take(i as int) =~= rules);
    stems
}

/// The texts of a list of strings.
pub open spec fn strings_view(strings: Seq<String>) -> Seq<Seq<char>> {
    Seq::new(strings.len(), |i: int| strings[i]@)
}

/// What a table of irregular forms holds: for each inflected form the base forms that it may
/// stand for.
pub open spec fn exclusions_view(entries: Map<Seq<char>, Vec<String>>) -> Map<
    Seq<char>,
    Seq<Seq<char>>,
> {
    entries.map_values(|bases: Vec<String>| strings_view(bases@))
}

/// The base forms that a table gives for a word, if it holds the word.
pub open spec fn bases_of(table: Map<Seq<char>, Seq<Seq<char>>>, word: Seq<char>) -> Option<
    Seq<Seq<char>>,
> {
    if table.contains_key(word) {
        Some(table[word])
    } else {
        None
    }
}

/// The table with further base forms for an inflected form: they follow those that the table
/// has for it.
pub open spec fn with_exclusion(
    table: Map<Seq<char>, Seq<Seq<char>>>,
    inflected: Seq<char>,
    bases: Seq<Seq<char>>,
) -> Map<Seq<char>, Seq<Seq<char>>> {
    if table.contains_key(inflected) {
        table.insert(inflected, table[inflected] + bases)
    } else {
        table.insert(inflected, bases)
    }
}

/// The table that the lines of an exception list give. Each line holds an inflected form and
/// then its base forms, with one space between each two.
pub open spec fn exc_table(lines: Seq<Seq<char>>) -> Map<Seq<char>, Seq<Seq<char>>>
    decreases lines.len(),
{
    if lines.len() == 0 {
        Map::empty()
    } else {
        let words = split(lines.last(), ' ');
        with_exclusion(exc_table(lines.drop_last()), words[0], words.skip(1))
    }
}

/// A copy of the strings.
fn copy_strings(strings: &Vec<String>) -> (r: Vec<String>)
    ensures
        strings_view(r@) == strings_view(strings@),
{
    let mut copy: Vec<String> = Vec::new();
    let mut i: usize = 0;
    while i < strings.len()
        invariant
            i <= strings.len(),
            copy@.len() == i,
            forall|k: int| 0 <= k < i ==> (#[trigger] copy@[k])@ == strings@[k]@,
        decreases strings.len() - i,
    {
        copy.push(strings[i].clone());
        i += 1;
    }
    assert(strings_view(copy@) =~= strings_view(strings@));
    copy
}

/// Irregular inflected forms with their base forms.
pub struct ExclusionsTable {
    entries: StringHashMap<Vec<String>>,
}

impl View for ExclusionsTable {
    type V = Map<Seq<char>, Seq<Seq<char>>>;

    closed spec fn view(&self) -> Map<Seq<char>, Seq<Seq<char>>> {
        exclusions_view(self.entries@)
    }
}

impl ExclusionsTable {
    /// A table without entries.
    pub fn new() -> (r: Self)
        ensures
            r@ == Map::<Seq<char>, Seq<Seq<char>>>::empty(),
    {
        let r = ExclusionsTable { entries: StringHashMap::new() };
        assert(r@ =~= Map::<Seq<char>, Seq<Seq<char>>>::empty());
        r
    }

    /// The number of inflected forms in the table.
    pub fn len(&self) -> (n: usize)
        ensures
            n == self@.len(),
    {
        proof {
            assert(self@.dom() =~= self.entries@.dom());
        }
        self.entries.len()
    }

    /// The base forms that the table gives for a word, if it holds the word.
    pub fn get(&self, word: &str) -> (r: Option<&Vec<String>>)
        ensures
            r is Some <==> bases_of(self@, word@) is Some,
            r matches Some(bases) ==> bases_of(self@, word@) == Some(strings_view(bases@)),
    {
        self.entries.get(word)
    }

    /// Adds base forms for an inflected form.
    pub fn add(&mut self, inflected: &str, bases: Vec<String>)
        ensures
            final(self)@ == with_exclusion(old(self)@, inflected@, strings_view(bases@)),
    {
        let ghost before = self.entries@;
        let ghost more = strings_view(bases@);
        let mut bases = bases;
        let mut all = match self.entries.get(inflected) {
            Some(had) => copy_strings(had),
            None => Vec::new(),
        };
        let ghost had = strings_view(all@);
        all.append(&mut bases);
        proof {
            assert(strings_view(all@) =~= had + more);
            if !before.contains_key(inflected@) {
                assert(had + more =~= more);
            }
        }
        self.entries.insert(inflected.to_owned(), all);
        proof {
            assert(self@ =~= with_exclusion(exclusions_view(before), inflected@, more));
        }
    }
}

/// Reads a table of irregular forms from the text of an exception list.
pub fn exc_map(content: &str) -> (table: ExclusionsTable)
    ensures
        table@ == exc_table(lines(content@)),
{
    let text = chars_of(content);
    let all = lines_of(text.as_slice());
    let ghost given = lines(content@);
    let mut table = ExclusionsTable::new();
    let mut i: usize = 0;
    proof {
        assert(given.take(0) =~= Seq::<Seq<char>>::empty());
    }
    while i < all.len()
        invariant
            i <= all.len(),
            texts_of(all@) == given,
            table@ == exc_table(given.take(i as int)),
        decreases all.len() - i,
    {
        let words = split_chars(all[i].as_slice(), ' ');
        proof {
            lemma_split_nonempty(all@[i as int]@, ' ');
            assert(given.take(i + 1).drop_last() =~= given.take(i as int));
            assert(given.take(i + 1).last() == all@[i as int]@);
        }
        let ghost pieces = texts_of(words@);
        let mut bases: Vec<String> = Vec::new();
        let mut m: usize = 1;
        proof {
            assert(strings_view(bases@) =~= pieces.skip(1).take(0));
        }
        while m < words.len()
            invariant
                1 <= m <= words.len(),
                pieces == texts_of(words@),
                strings_view(bases@) == pieces.skip(1).take(m - 1),
            decreases words.len() - m,
        {
            let ghost had = strings_view(bases@);
            bases.push(string_of(words[m].as_slice()));
            proof {
                assert(strings_view(bases@) =~= had.push(pieces[m as int]));
                assert(pieces.skip(1).take(m as int) =~= pieces.skip(1).take(m - 1).push(
                    pieces[m as int],
                ));
            }
            m += 1;
        }
        proof {
            assert(pieces.skip(1).take(m - 1) =~= pieces.skip(1));
        }
        let inflected = string_of(words[0].as_slice());
        table.add(inflected.as_str(), bases);
        i += 1;
    }
    assert(given.take(i as int) =~= given);
    table
}

/// The four tables of irregular forms, one for each part of speech.
pub struct Exceptions {
    pub noun: ExclusionsTable,
    pub verb: ExclusionsTable,
    pub adj: ExclusionsTable,
    pub adv: ExclusionsTable,
}

impl Exceptions {
    /// Four tables without entries: every word is then stemmed by the rules.
    pub fn new() -> (r: Self)
        ensures
            r@ == no_exceptions(),
    {
        Exceptions {
            noun: ExclusionsTable::new(),
            verb: ExclusionsTable::new(),
            adj: ExclusionsTable::new(),
            adv: ExclusionsTable::new(),
        }
    }

    /// Reads the four tables from the texts of the four exception lists.
    pub fn from_text(noun: &str, verb: &str, adj: &str, adv: &str) -> (r: Self)
        ensures
            r@.noun == exc_table(lines(noun@)),
            r@.verb == exc_table(lines(verb@)),
            r@.adj == exc_table(lines(adj@)),
            r@.adv == exc_table(lines(adv@)),
    {
        Exceptions {
            noun: exc_map(noun),
            verb: exc_map(verb),
            adj: exc_map(adj),
            adv: exc_map(adv),
        }
    }
}

/// What the four tables hold.
pub ghost struct ExceptionsView {
    pub noun: Map<Seq<char>, Seq<Seq<char>>>,
    pub verb: Map<Seq<char>, Seq<Seq<char>>>,
    pub adj: Map<Seq<char>, Seq<Seq<char>>>,
    pub adv: Map<Seq<char>, Seq<Seq<char>>>,
}

/// Four tables without entries.
pub open spec fn no_exceptions() -> ExceptionsView {
    ExceptionsView {
        noun: Map::empty(),
        verb: Map::empty(),
        adj: Map::empty(),
        adv: Map::empty(),
    }
}

impl View for Exceptions {
    type V = ExceptionsView;

    open spec fn view(&self) -> ExceptionsView {
        ExceptionsView { noun: self.noun@, verb: self.verb@, adj: self.adj@, adv: self.adv@ }
    }
}

/// The base forms that one table gives for a word, each with the part of speech of the table.
pub open spec fn exception_stems(
    table: Map<Seq<char>, Seq<Seq<char>>>,
    word_type: WordType,
    word: Seq<char>,
) -> Seq<(WordType, Seq<char>)> {
    match bases_of(table, word) {
        Some(bases) => Seq::new(bases.len(), |i: int| (word_type, bases[i])),
        None => Seq::empty(),
    }
}

/// The base forms that the four tables give for a word: those as a noun first, then as a verb,
/// as an adjective and as an adverb.
pub open spec fn all_exception_stems(tables: ExceptionsView, word: Seq<char>) -> Seq<
    (WordType, Seq<char>),
> {
    exception_stems(tables.noun, WordType::Noun, word) + exception_stems(
        tables.verb,
        WordType::Verb,
        word,
    ) + exception_stems(tables.adj, WordType::Adj, word) + exception_stems(
        tables.adv,
        WordType::Adv,
        word,
    )
}

/// The base forms that the rules give for a word: those as a noun first, then as a verb and as
/// an adjective.
pub open spec fn all_rule_stems(word: Seq<char>) -> Seq<(WordType, Seq<char>)> {
    rule_stems(noun_rules(), WordType::Noun, word) + rule_stems(
        verb_rules(),
        WordType::Verb,
        word,
    ) + rule_stems(adj_rules(), WordType::Adj, word)
}

/// The stems without their repeats: each stands where it first occurs.
pub open spec fn unique_stems(stems: Seq<(WordType, Seq<char>)>) -> Seq<(WordType, Seq<char>)>
    decreases stems.len(),
{
    if stems.len() == 0 {
        Seq::empty()
    } else if unique_stems(stems.drop_last()).contains(stems.last()) {
        unique_stems(stems.drop_last())
    } else {
        unique_stems(stems.drop_last()).push(stems.last())
    }
}

/// The base forms of a word: those that the tables of irregular forms give, if they give any,
/// else those that the rules give; each once.
pub open spec fn stems_of(tables: ExceptionsView, word: Seq<char>) -> Seq<(WordType, Seq<char>)> {
    if all_exception_stems(tables, word).len() > 0 {
        unique_stems(all_exception_stems(tables, word))
    } else {
        unique_stems(all_rule_stems(word))
    }
}

/// Appends to `stems` the base forms that one table gives for a word.
pub fn find_exceptions(
    table: &ExclusionsTable,
    word_type: WordType,
    word: &str,
    stems: &mut Vec<StemmedWord>,
)
    ensures
        stems_view(final(stems)@) == stems_view(old(stems)@) + exception_stems(
            table@,
            word_type,
            word@,
        ),
{
    let ghost before = stems_view(stems@);
    match table.get(word) {
        Some(bases) => {
            let ghost found = strings_view(bases@);
            let mut i: usize = 0;
            proof {
                assert(stems_view(stems@) =~= before + Seq::new(
                    0,
                    |k: int| (word_type, found[k]),
                ));
            }
            while i < bases.len()
                invariant
                    i <= bases.len(),
                    found == strings_view(bases@),
                    stems_view(stems@) == before + Seq::new(
                        i as nat,
                        |k: int| (word_type, found[k]),
                    ),
                decreases bases.len() - i,
            {
                let ghost had = stems_view(stems@);
                stems.push(StemmedWord { word_type, base_form: bases[i].clone() });
                proof {
                    assert(stems_view(stems@) =~= had.push((word_type, found[i as int])));
                    assert(stems_view(stems@) =~= before + Seq::new(
                        (i + 1) as nat,
                        |k: int| (word_type, found[k]),
                    ));
                }
                i += 1;
            }
        },
        None => {
            assert(stems_view(stems@) =~= before + exception_stems(table@, word_type, word@));
        },
    }
}

/// The base forms that the four tables give for a word.
pub fn find_all_exceptions(tables: &Exceptions, word: &str) -> (stems: Vec<StemmedWord>)
    ensures
        stems_view(stems@) == all_exception_stems(tables@, word@),
{
    let mut stems: Vec<StemmedWord> = Vec::new();
    assert(stems_view(stems@) =~= Seq::<(WordType, Seq<char>)>::empty());
    find_exceptions(&tables.noun, WordType::Noun, word, &mut stems);
    find_exceptions(&tables.verb, WordType::Verb, word, &mut stems);
    find_exceptions(&tables.adj, WordType::Adj, word, &mut stems);
    find_exceptions(&tables.adv, WordType::Adv, word, &mut stems);
    assert(stems_view(stems@) =~= all_exception_stems(tables@, word@));
    stems
}

/// Appends each stem of `more` to `stems`.
fn append_stems(stems: &mut Vec<StemmedWord>, more: Vec<StemmedWord>)
    ensures
        stems_view(final(stems)@) == stems_view(old(stems)@) + stems_view(more@),
{
    let mut more = more;
    let ghost before = stems_view(stems@);
    let ghost added = stems_view(more@);
    stems.append(&mut more);
    assert(stems_view(stems@) =~= before + added);
}

/// The base forms that the rules give for a word.
pub fn stem_by_rules(input: &[char]) -> (stems: Vec<StemmedWord>)
    ensures
        stems_view(stems@) == all_rule_stems(input@),
{
    let mut stems = stem_ruleset(&noun_rule_list(), WordType::Noun, input);
    append_stems(&mut stems, stem_ruleset(&verb_rule_list(), WordType::Verb, input));
    append_stems(&mut stems, stem_ruleset(&adj_rule_list(), WordType::Adj, input));
    stems
}

/// Tells whether the stem is among the stems.
fn has_stem(stems: &Vec<StemmedWord>, stem: &StemmedWord) -> (r: bool)
    ensures
        r == stems_view(stems@).contains(stem@),
{
    let ghost all = stems_view(stems@);
    let mut i: usize = 0;
    while i < stems.len()
        invariant
            i <= stems.len(),
            all == stems_view(stems@),
            forall|k: int| 0 <= k < i ==> all[k] != stem@,
        decreases stems.len() - i,
    {
        if stems[i].word_type == stem.word_type && crate::text::str_eq(
            stems[i].base_form.as_str(),
            stem.base_form.as_str(),
        ) {
            assert(all[i as int] == stem@);
            return true;
        }
        i += 1;
    }
    false
}

/// Drops the repeats from a list of stems.
pub fn unique(stems: Vec<StemmedWord>) -> (r: Vec<StemmedWord>)
    ensures
        stems_view(r@) == unique_stems(stems_view(stems@)),
{
    let ghost given = stems_view(stems@);
    let mut stems = stems;
    let mut out: Vec<StemmedWord> = Vec::new();
    let n = stems.len();
    let mut i: usize = 0;
    proof {
        assert(given.take(0) =~= Seq::<(WordType, Seq<char>)>::empty());
        assert(stems_view(out@) =~= Seq::<(WordType, Seq<char>)>::empty());
    }
    while i < n
        invariant
            i <= n,
            n == stems@.len(),
            given == stems_view(stems@),
            stems_view(out@) == unique_stems(given.take(i as int)),
        decreases n - i,
    {
        proof {
            assert(given.take(i + 1).drop_last() =~= given.take(i as int));
            assert(given.take(i + 1).last() == stems@[i as int]@);
        }
        if !has_stem(&out, &stems[i]) {
            let ghost had = stems_view(out@);
            out.push(stems[i].clone());
            proof {
                assert(stems_view(out@) =~= had.push(stems@[i as int]@));
            }
        }
        i += 1;
    }
    assert(given.take(i as int) =~= given);
    out
}

/// The words that `s` may be an inflected form of. Where the tables of irregular forms know the
/// word, the base forms are theirs; else they are made by the rules for regular endings.
pub fn stem(s: &str, exceptions: &Exceptions) -> (stems: Vec<StemmedWord>)
    ensures
        stems_view(stems@) == stems_of(exceptions@, s@),
{
    let exc = find_all_exceptions(exceptions, s);
    if exc.len() > 0 {
        unique(exc)
    } else {
        let word = chars_of(s);
        unique(stem_by_rules(word.as_slice()))
    }
}

} // verus!
