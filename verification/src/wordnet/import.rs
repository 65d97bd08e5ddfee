//! Building the entries of a dictionary from the sense index and the data files.

pub mod data;
pub mod sense;

pub use data::{lookup, WordnetData};
pub use sense::{ParseError, Sense};

use crate::dictionary::{definitions_view, entries_view, Definition};
use crate::lines::{byte_lines, bytes_of, lines_str};
use crate::text::str_eq;
use crate::wordnet::word_type::WordType;
use data::{sense_definition, WordnetDataView};
use sense::{parsed_sense, SenseView};
use vstd::hash_map::StringHashMap;
use vstd::prelude::*;
use vstd::string::StringSliceAdditionalSpecFns;
use vstd::utf8::decode_utf8;

verus! {

/// What each of the senses holds.
pub open spec fn senses_view(senses: Seq<Sense>) -> Seq<SenseView> {
    Seq::new(senses.len(), |i: int| senses[i]@)
}

/// The lines of a text in UTF-8, as characters.
pub open spec fn text_lines(text: Seq<u8>) -> Seq<Seq<char>> {
    Seq::new(byte_lines(text).len(), |i: int| decode_utf8(byte_lines(text)[i]))
}

/// The senses on the lines of a sense index, up to the first line that cannot be read.
pub open spec fn leading_senses(lines: Seq<Seq<char>>) -> Seq<SenseView>
    decreases lines.len(),
{
    if lines.len() == 0 {
        Seq::empty()
    } else {
        match parsed_sense(lines[0]) {
            Ok(sense) => seq![sense] + leading_senses(lines.drop_first()),
            Err(_) => Seq::empty(),
        }
    }
}

/// The senses in runs: each run holds senses of one lemma that follow one another, and two
/// runs that follow one another are of different lemmas.
pub open spec fn runs(senses: Seq<SenseView>) -> Seq<Seq<SenseView>>
    decreases senses.len(),
{
    if senses.len() == 0 {
        Seq::empty()
    } else {
        let init = runs(senses.drop_last());
        if init.len() > 0 && init.last().len() > 0 && init.last().last().lemma
            == senses.last().lemma {
            init.drop_last().push(init.last().push(senses.last()))
        } else {
            init.push(seq![senses.last()])
        }
    }
}

/// The sense of a part of speech to go by: the one with the lowest sense number, and of two
/// with the same number the one that comes first.
pub open spec fn best_sense(run: Seq<SenseView>, word_type: WordType) -> Option<SenseView>
    decreases run.len(),
{
    if run.len() == 0 {
        None
    } else if run.last().word_type != word_type {
        best_sense(run.drop_last(), word_type)
    } else {
        match best_sense(run.drop_last(), word_type) {
            Some(best) => if run.last().sense_num < best.sense_num {
                Some(run.last())
            } else {
                Some(best)
            },
            None => Some(run.last()),
        }
    }
}

/// The definition of a run of senses for one part of speech, if it has one: that of the best
/// sense of that part of speech.
pub open spec fn definition_of_type(
    run: Seq<SenseView>,
    data: WordnetDataView,
    word_type: WordType,
) -> Seq<(WordType, Seq<char>)> {
    match best_sense(run, word_type) {
        Some(sense) => match sense_definition(sense, data) {
            Some(text) => seq![(word_type, text)],
            None => Seq::empty(),
        },
        None => Seq::empty(),
    }
}

/// The definitions of a run of senses: one as a noun, as a verb, as an adjective and as an
/// adverb, in this order, as far as the run has them.
pub open spec fn best_definitions(run: Seq<SenseView>, data: WordnetDataView) -> Seq<
    (WordType, Seq<char>),
> {
    definition_of_type(run, data, WordType::Noun) + definition_of_type(run, data, WordType::Verb)
        + definition_of_type(run, data, WordType::Adj) + definition_of_type(
        run,
        data,
        WordType::Adv,
    )
}

/// The entries that runs of senses give: each run sets the definitions of its lemma, in place
/// of those that an earlier run has set.
pub open spec fn entries_of_runs(all: Seq<Seq<SenseView>>, data: WordnetDataView) -> Map<
    Seq<char>,
    Seq<(WordType, Seq<char>)>,
>
    decreases all.len(),
{
    if all.len() == 0 {
        Map::empty()
    } else {
        entries_of_runs(all.drop_last(), data).insert(
            all.last()[0].lemma,
            best_definitions(all.last(), data),
        )
    }
}

/// The entries of the dictionary that senses and data files give.
pub open spec fn wordnet_entries(senses: Seq<SenseView>, data: WordnetDataView) -> Map<
    Seq<char>,
    Seq<(WordType, Seq<char>)>,
> {
    entries_of_runs(runs(senses), data)
}

/// The best sense of a part of speech is of that part of speech, is one of the run, and no
/// sense of that part of speech in the run has a lower number.
pub proof fn lemma_best_sense(run: Seq<SenseView>, word_type: WordType)
    ensures
        best_sense(run, word_type) matches Some(best) ==> run.contains(best) && best.word_type
            == word_type && forall|i: int|
            0 <= i < run.len() && run[i].word_type == word_type ==> best.sense_num <= (
            #[trigger] run[i]).sense_num,
        best_sense(run, word_type) is None ==> forall|i: int|
            0 <= i < run.len() ==> (#[trigger] run[i]).word_type != word_type,
    decreases run.len(),
{
    if run.len() > 0 {
        let init = run.drop_last();
        lemma_best_sense(init, word_type);
        assert(run[run.len() - 1] == run.last());
        match best_sense(run, word_type) {
            Some(best) => {
                if init.contains(best) {
                    let k = choose|k: int| 0 <= k < init.len() && init[k] == best;
                    assert(run[k] == best);
                }
                assert forall|i: int|
                    0 <= i < run.len() && run[i].word_type == word_type implies best.sense_num <= (
                #[trigger] run[i]).sense_num by {
                    if i < init.len() {
                        assert(init[i] == run[i]);
                    }
                }
            },
            None => {
                assert forall|i: int| 0 <= i < run.len() implies (#[trigger] run[i]).word_type
                    != word_type by {
                    if i < init.len() {
                        assert(init[i] == run[i]);
                    }
                }
            },
        }
    }
}

/// The senses of one lemma.
pub struct SenseList {
    senses: Vec<Sense>,
}

impl View for SenseList {
    type V = Seq<SenseView>;

    closed spec fn view(&self) -> Seq<SenseView> {
        senses_view(self.senses@)
    }
}

impl SenseList {
    /// The list of the given senses.
    pub fn from_iter(senses: Vec<Sense>) -> (r: Self)
        ensures
            r@ == senses_view(senses@),
    {
        SenseList { senses }
    }

    /// The sense of a part of speech to go by: the one with the lowest sense number.
    pub fn find(&self, word_type: WordType) -> (r: Option<&Sense>)
        ensures
            r is Some <==> best_sense(self@, word_type) is Some,
            r matches Some(sense) ==> best_sense(self@, word_type) == Some(sense@),
    {
        let ghost all = self@;
        let mut best: Option<&Sense> = None;
        let mut i: usize = 0;
        proof {
            assert(all.take(0) =~= Seq::<SenseView>::empty());
        }
        while i < self.senses.len()
            invariant
                i <= self.senses.len(),
                all == senses_view(self.senses@),
                best is Some <==> best_sense(all.take(i as int), word_type) is Some,
                best matches Some(sense) ==> best_sense(all.take(i as int), word_type) == Some(
                    sense@,
                ),
            decreases self.senses.len() - i,
        {
            proof {
                assert(all.take(i + 1).drop_last() =~= all.take(i as int));
                assert(all.take(i + 1).last() == self.senses@[i as int]@);
            }
            let sense = &self.senses[i];
            if sense.word_type == word_type {
                best = match best {
                    Some(found) => if sense.sense_num < found.sense_num {
                        Some(sense)
                    } else {
                        Some(found)
                    },
                    None => Some(sense),
                };
            }
            i += 1;
        }
        proof {
            assert(all.take(i as int) =~= all);
        }
        best
    }
}

/// Adds to `definitions` the definition of the senses for one part of speech, if they have one.
fn push_definition(
    senses: &SenseList,
    word_type: WordType,
    data: &WordnetData,
    definitions: &mut Vec<Definition>,
)
    ensures
        definitions_view(final(definitions)@) == definitions_view(old(definitions)@)
            + definition_of_type(senses@, data@, word_type),
{
    let ghost before = definitions_view(definitions@);
    if let Some(sense) = senses.find(word_type) {
        if let Some(text) = lookup(sense, data) {
            definitions.push(Definition { word_type, text });
            proof {
                assert(definitions_view(definitions@) =~= before + seq![(word_type, text@)]);
            }
            return ;
        }
    }
    proof {
        assert(definitions_view(definitions@) =~= before + Seq::<(WordType, Seq<char>)>::empty());
    }
}

/// Sets the definitions of the lemma of a run of senses: the best for each part of speech.
fn put_run(entries: &mut StringHashMap<Vec<Definition>>, run: Vec<Sense>, data: &WordnetData)
    requires
        run@.len() > 0,
    ensures
        entries_view(final(entries)@) == entries_view(old(entries)@).insert(
            run@[0]@.lemma,
            best_definitions(senses_view(run@), data@),
        ),
{
    let ghost before = entries@;
    let lemma = run[0].lemma.clone();
    let senses = SenseList::from_iter(run);
    let mut best_definitions: Vec<Definition> = Vec::new();
    proof {
        assert(definitions_view(best_definitions@) =~= Seq::<(WordType, Seq<char>)>::empty());
    }
    push_definition(&senses, WordType::Noun, data, &mut best_definitions);
    push_definition(&senses, WordType::Verb, data, &mut best_definitions);
    push_definition(&senses, WordType::Adj, data, &mut best_definitions);
    push_definition(&senses, WordType::Adv, data, &mut best_definitions);
    proof {
        assert(definitions_view(best_definitions@) =~= crate::wordnet::import::best_definitions(
            senses@,
            data@,
        ));
    }
    entries.insert(lemma, best_definitions);
    proof {
        assert(entries_view(entries@) =~= entries_view(before).insert(
            lemma@,
            definitions_view(best_definitions@),
        ));
    }
}

/// Reads the entries of a dictionary from the sense index and the data files of WordNet.
///
/// The senses are read from the lines of the index up to the first line that cannot be read.
/// Senses of one lemma that follow one another make a run, and each run sets the definitions
/// of its lemma: for each part of speech that of the sense with the lowest number.
pub fn from_wordnet(index_sense: &str, data: &WordnetData) -> (entries: StringHashMap<
    Vec<Definition>,
>)
    ensures
        entries_view(entries@) == wordnet_entries(
            leading_senses(text_lines(index_sense.spec_bytes())),
            data@,
        ),
{
    let lines = lines_str(index_sense);
    let ghost texts = text_lines(index_sense.spec_bytes());
    let mut entries: StringHashMap<Vec<Definition>> = StringHashMap::new();
    let mut run: Vec<Sense> = Vec::new();
    let ghost mut seen: Seq<SenseView> = Seq::empty();
    let ghost mut done: Seq<Seq<SenseView>> = Seq::empty();
    let mut i: usize = 0;
    proof {
        assert(texts.skip(0) =~= texts);
        assert(entries_view(entries@) =~= entries_of_runs(done, data@));
        assert(forall|k: int| 0 <= k < lines@.len() ==> (#[trigger] lines@[k])@ == texts[k]) by {
            assert forall|k: int| 0 <= k < lines@.len() implies (#[trigger] lines@[k])@
                == texts[k] by {
                assert(bytes_of(lines@)[k] == byte_lines(index_sense.spec_bytes())[k]);
                vstd::utf8::encode_utf8_decode_utf8(lines@[k]@);
            }
        }
    }
    loop
        invariant_except_break
            i <= lines@.len(),
            lines@.len() == texts.len(),
            forall|k: int| 0 <= k < lines@.len() ==> (#[trigger] lines@[k])@ == texts[k],
            leading_senses(texts) == seen + leading_senses(texts.skip(i as int)),
        invariant
            entries_view(entries@) == entries_of_runs(done, data@),
            run@.len() > 0 ==> runs(seen) == done.push(senses_view(run@)),
            run@.len() == 0 ==> seen.len() == 0 && done.len() == 0,
        ensures
            leading_senses(texts) == seen,
        decreases lines@.len() - i,
    {
        if i == lines.len() {
            proof {
                assert(texts.skip(i as int) =~= Seq::<Seq<char>>::empty());
                assert(seen + Seq::<SenseView>::empty() =~= seen);
            }
            break;
        }
        proof {
            assert(texts.skip(i as int)[0] == texts[i as int]);
            assert(texts.skip(i as int).drop_first() =~= texts.skip(i + 1));
        }
        let sense = match Sense::from_str(lines[i]) {
            Ok(sense) => sense,
            Err(_) => {
                proof {
                    assert(seen + Seq::<SenseView>::empty() =~= seen);
                }
                break;
            },
        };
        proof {
            let rest = leading_senses(texts.skip(i + 1));
            assert(seen + (seq![sense@] + rest) =~= seen.push(sense@) + rest);
            assert(seen.push(sense@).drop_last() =~= seen);
        }
        if run.len() > 0 && !str_eq(run[run.len() - 1].lemma.as_str(), sense.lemma.as_str()) {
            let ghost finished = senses_view(run@);
            let mut whole: Vec<Sense> = Vec::new();
            std::mem::swap(&mut whole, &mut run);
            put_run(&mut entries, whole, data);
            proof {
                assert(done.push(finished).drop_last() =~= done);
                done = done.push(finished);
            }
            run.push(sense);
            proof {
                assert(senses_view(run@) =~= seq![sense@]);
                let init = runs(seen);
                assert(init == done.drop_last().push(finished));
                assert(init.last() == finished);
                assert(finished.last().lemma != sense@.lemma);
                assert(runs(seen.push(sense@)) == init.push(seq![sense@]));
            }
        } else {
            let ghost had = senses_view(run@);
            run.push(sense);
            proof {
                assert(senses_view(run@) =~= had.push(sense@));
                let init = runs(seen);
                if had.len() > 0 {
                    assert(init == done.push(had));
                    assert(init.last() == had);
                    assert(had.last().lemma == sense@.lemma);
                    assert(done.push(had).drop_last() =~= done);
                    assert(runs(seen.push(sense@)) == done.push(had.push(sense@)));
                } else {
                    assert(senses_view(run@) =~= seq![sense@]);
                    assert(seen =~= Seq::<SenseView>::empty());
                    assert(runs(seen.push(sense@)) =~= done.push(seq![sense@]));
                }
            }
        }
        proof {
            seen = seen.push(sense@);
        }
        i += 1;
    }
    if run.len() > 0 {
        let ghost finished = senses_view(run@);
        put_run(&mut entries, run, data);
        proof {
            assert(done.push(finished).drop_last() =~= done);
        }
    } else {
        proof {
            assert(seen =~= Seq::<SenseView>::empty());
        }
    }
    entries
}

} // verus!
