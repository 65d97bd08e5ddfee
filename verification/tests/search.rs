use wordfun::lexicon::{Anagram, FindWord, Matches};
use wordfun::{Entry, WordBreaks};

#[test]
fn parse_anagram() {
    let search = Anagram::parse("retain");
    assert_eq!("aeinrt", search.sorted().to_str());
    assert_eq!(0, search.num_blanks());
    assert_eq!("retain", search.original());
}

#[test]
fn parse_anagram_blanks() {
    let search = Anagram::parse("r.t.in");
    assert_eq!("inrt", search.sorted().to_str());
    assert_eq!(2, search.num_blanks());
    assert_eq!("r.t.in", search.original());
}

#[test]
fn parse_anagram_accents() {
    let search = Anagram::parse("café");
    assert_eq!("acef", search.sorted().to_str());
    assert_eq!(0, search.num_blanks());
    assert_eq!("café", search.original());
}

#[test]
fn parse_anagram_case() {
    let search = Anagram::parse("Pioneering tsar");
    assert_eq!("aeegiinnoprrst", search.sorted().to_str());
    assert_eq!(0, search.num_blanks());
    assert_eq!("Pioneering tsar", search.original());
}

#[test]
fn parse_pattern_with_letters() {
    let pattern = FindWord::parse(".a.e");
    assert_eq!(pattern.display(), ".a.e");
    assert_eq!(pattern.pattern(), b".a.e");
    assert_eq!(pattern.breaks(), &WordBreaks::default());
    assert_eq!(pattern, FindWord::from_ascii(b".a.e"));
}

#[test]
fn parse_pattern_dotdotdot() {
    let pattern = FindWord::parse("...");
    assert_eq!(pattern.display(), "...");
    assert_eq!(pattern.pattern(), b"...");
    assert_eq!(pattern.breaks(), &WordBreaks::default());
}

#[test]
fn parse_pattern_slashes() {
    let pattern = FindWord::parse("h.r./...l../e.g");
    assert_eq!(pattern.display(), "h.r./...l../e.g");
    assert_eq!(pattern.pattern(), b"h.r....l..e.g");
    assert_eq!(pattern.breaks(), &WordBreaks::from_positions(&[4, 10]));
}

#[test]
fn pattern_matches() {
    assert!(FindWord::parse(".a.e").matches(&Entry::from("café")));
}

#[test]
fn match_pattern_with_one_break() {
    // A pattern with one break only matches an entry with
    // one break in the same place.
    let pattern = FindWord::parse("s.e/......");

    assert!(!pattern.matches(&Entry::from("scenarios")));
    assert!(pattern.matches(&Entry::from("see reason")));
    assert!(!pattern.matches(&Entry::from("see no evil")));
}

#[test]
fn match_pattern_with_two_breaks() {
    // A pattern specifying 2 breaks has to match
    // entries with exactly 2 breaks.
    let pattern = FindWord::parse("s.e/../....");

    assert!(!pattern.matches(&Entry::from("scenarios")));
    assert!(!pattern.matches(&Entry::from("see reason")));
    assert!(pattern.matches(&Entry::from("see no evil")));
}

#[test]
fn pattern_without_breaks_matches_any_breaks() {
    let pattern = FindWord::parse("s.e......");
    assert!(pattern.matches(&Entry::from("see no evil")));
    assert!(pattern.matches(&Entry::from("see reason")));
    assert!(pattern.matches(&Entry::from("seereason")));
    assert!(pattern.matches(&Entry::from("scenarios")));
    assert!(!pattern.matches(&Entry::from("scenario")));
    assert!(!pattern.matches(&Entry::from("sea reason")));
}

#[test]
fn pattern_is_lowercased_and_stripped() {
    let pattern = FindWord::parse("A.b 7/É!");
    assert_eq!(pattern.display(), "a.b/e");
    assert_eq!(pattern.pattern(), b"a.be");
    assert_eq!(pattern.breaks().to_vec(), vec![3]);
}

#[test]
fn find_word_length_signature() {
    assert_eq!(FindWord::parse("s.e/......").search_key().search_len(), "3,6");
    assert_eq!(FindWord::parse("s.e/../....").search_key().search_len(), "3,2,4");
    assert_eq!(FindWord::parse(".a.e").search_key().search_len(), "4");
    assert_eq!(FindWord::parse("h.r./...l../e.g").search_key().search_len(), "4,6,3");
    assert_eq!(FindWord::parse("...///.......").search_key().search_len(), "3,7");
    assert_eq!(FindWord::parse("............/.").search_key().search_len(), "12,1");
    assert_eq!(FindWord::parse("h.r./...l../e.g").search_key().search_string(), "h.r./...l../e.g");
}

#[test]
fn break_at_an_end_of_the_pattern_cuts_nothing() {
    let leading = FindWord::parse("/abc");
    assert_eq!(leading.breaks().to_vec(), vec![0]);
    assert_eq!(leading.search_key().search_len(), "3");
    assert!(!leading.matches(&Entry::from("abc")));

    let trailing = FindWord::parse("abc/");
    assert_eq!(trailing.breaks().to_vec(), vec![3]);
    assert_eq!(trailing.search_key().search_len(), "3");
    assert!(!trailing.matches(&Entry::from("abc")));

    let empty = FindWord::parse("");
    assert_eq!(empty.search_key().search_len(), "");
    assert_eq!(empty.search_key().search_string(), "");
    assert!(empty.matches(&Entry::from("")));
}

#[test]
fn anagram_needs_the_exact_length() {
    let search = Anagram::parse("acef");
    assert_eq!(search.len(), 4);
    assert!(search.matches(&Entry::from("face")));
    assert!(search.matches(&Entry::from("café")));
    assert!(!search.matches(&Entry::from("ace")));
    assert!(!search.matches(&Entry::from("efface")));
    assert!(!search.matches(&Entry::from("fact")));
}

#[test]
fn anagram_blanks_stand_for_any_letters() {
    let search = Anagram::parse("ac..");
    assert_eq!(search.len(), 4);
    assert!(search.matches(&Entry::from("face")));
    assert!(search.matches(&Entry::from("fact")));
    assert!(search.matches(&Entry::from("a c c a")));
    assert!(!search.matches(&Entry::from("fake")));
    assert!(!search.matches(&Entry::from("acc")));

    let doubled = Anagram::parse("aa.");
    assert!(doubled.matches(&Entry::from("aha")));
    assert!(doubled.matches(&Entry::from("aaa")));
    assert!(!doubled.matches(&Entry::from("abc")));
}

#[test]
fn anagram_search_key() {
    let key = Anagram::parse("Pioneering tsar").search_key();
    assert_eq!(key.search_string(), "Pioneering tsar");
    assert_eq!(key.search_len(), "14");
    assert_eq!(Anagram::parse("").search_key().search_len(), "0");
    assert_eq!(Anagram::parse("r.t.in").search_key().search_len(), "6");
    assert_eq!(Anagram::parse("abcdefghij").search_key().search_len(), "10");
}

#[test]
fn anagram_from_ascii() {
    let search = Anagram::from_ascii(b"T.o-B.e", "To be");
    assert_eq!(search.sorted().to_str(), "beot");
    assert_eq!(search.num_blanks(), 2);
    assert_eq!(search.original(), "To be");
    assert_eq!(search.len(), 6);
}
