use wordfun::thesaurus::{Word, WordLengths};
use wordfun::Thesaurus;

#[test]
fn pack_word_lengths_single() {
    let lengths = WordLengths::new(&[8]);
    assert_eq!("8", lengths.format());
}

#[test]
fn pack_word_lengths_multiple() {
    let lengths = WordLengths::new(&[3, 5]);
    assert_eq!("8 (3,5)", lengths.format());
}

fn example_thesaurus() -> Thesaurus {
    let mut t = Thesaurus::new();
    t.push(&["dog", "puppy"]);
    t.push(&["goat", "kid"]);
    t.push(&["human", "kid"]);
    t
}

#[test]
fn lookup_headword_found() {
    let t = example_thesaurus();
    let mut matches = t.lookup("dog").iter().map(|t| t.term).collect::<Vec<_>>();
    matches.sort_unstable();
    assert_eq!(matches, vec!["dog", "puppy"]);
}

#[test]
fn lookup_headword_not_found() {
    let t = example_thesaurus();
    let mut matches = t.lookup("kid").iter().map(|t| t.term).collect::<Vec<_>>();
    matches.sort_unstable();
    assert_eq!(matches, vec!["goat", "human"]);
}

#[test]
fn lookup_word_not_found_anywhere() {
    let t = example_thesaurus();
    let mut matches = t.lookup("kitten").into_iter();
    assert_eq!(matches.next(), None);
}

#[test]
fn lookup_gives_each_term_once_in_order() {
    let mut t = Thesaurus::new();
    t.push(&["big", "large", "huge", "large"]);
    t.push(&["vast", "huge"]);
    t.push(&["great", "huge", "big"]);
    t.push(&["vast", "wide"]);
    let terms = |word: &str| t.lookup(word).iter().map(|w| w.term).collect::<Vec<_>>();
    assert_eq!(terms("big"), vec!["big", "large", "huge"]);
    assert_eq!(terms("huge"), vec!["big", "vast", "great"]);
    assert_eq!(terms("vast"), vec!["vast", "huge"]);
    assert_eq!(terms("wide"), vec!["vast"]);
    assert_eq!(terms("large"), vec!["big"]);
    assert_eq!(terms(""), Vec::<&str>::new());
}

fn terms(thesaurus: &Thesaurus, word: &str) -> Vec<&'static str> {
    thesaurus.lookup(word).iter().map(|w| w.term).collect()
}

#[test]
fn import_reads_lines_of_synonyms() {
    let imported = Thesaurus::import(&["dog,puppy", "goat,kid", "human,kid"]);
    let from_text = Thesaurus::init("dog,puppy\r\ngoat,kid\nhuman,kid\n");
    let pushed = example_thesaurus();
    for word in ["dog", "puppy", "goat", "kid", "human", "kitten", ""] {
        assert_eq!(terms(&imported, word), terms(&pushed, word));
        assert_eq!(terms(&from_text, word), terms(&pushed, word));
    }
    assert_eq!(terms(&imported, "dog"), vec!["dog", "puppy"]);
    assert_eq!(terms(&imported, "kid"), vec!["goat", "human"]);
    assert!(terms(&Thesaurus::init(""), "dog").is_empty());
    assert!(terms(&Thesaurus::import(&[]), "").is_empty());
    assert!(terms(&Thesaurus::default(), "dog").is_empty());
    let odd = Thesaurus::import(&["a,,b", ""]);
    assert_eq!(terms(&odd, "a"), vec!["a", "", "b"]);
    assert_eq!(terms(&odd, ""), vec![""]);
    assert_eq!(terms(&odd, "b"), vec!["a"]);
}

#[test]
fn words_carry_the_lengths_of_their_words() {
    assert_eq!(Word::new("bacon").word_lengths.format(), "5");
    assert_eq!(Word::new("bacon and eggs").word_lengths.format(), "12 (5,3,4)");
    assert_eq!(Word::new("Jack-o'-lantern").word_lengths.format(), "12 (4,1,7)");
    assert_eq!(Word::new("  route 66 ").word_lengths.format(), "5");
    assert_eq!(Word::new("").word_lengths.format(), "0");
    assert_eq!(Word::new("42").word_lengths.format(), "0");
    assert_eq!(Word::new("café").word_lengths.format(), "3");
    assert_eq!(Word::new("Great Pyrenees").word_lengths, WordLengths::new(&[5, 8]));
    assert_eq!(Word::new("x").term, "x");
    let t = example_thesaurus();
    assert_eq!(t.lookup("puppy")[0].word_lengths.format(), "3");
}

#[test]
fn lengths_format() {
    assert_eq!(WordLengths::new(&[]).format(), "0");
    assert_eq!(WordLengths::new(&[0]).format(), "0");
    assert_eq!(WordLengths::new(&[255]).format(), "255");
    assert_eq!(WordLengths::new(&[5, 3, 5]).format(), "13 (5,3,5)");
    assert_eq!(WordLengths::new(&[100, 100, 55]).format(), "255 (100,100,55)");
    assert!(WordLengths::new(&[13]) < WordLengths::new(&[5, 3, 5]));
    assert!(WordLengths::new(&[5, 3, 5]) < WordLengths::new(&[5, 8]));
    assert!(WordLengths::new(&[12]) < WordLengths::new(&[13]));
}

#[test]
fn terms_of_more_than_255_letters_do_not_fit() {
    let long = "ab ".repeat(127) + "a";
    assert!(Word::fits(&long));
    let too_long = "ab ".repeat(127) + "ab";
    assert!(!Word::fits(&too_long));
    assert!(Word::fits(""));
    assert!(Word::fits(&"1".repeat(1000)));
    assert!(Thesaurus::importable(&["dog,puppy", "", &long]));
    assert!(!Thesaurus::importable(&["dog,puppy", &too_long]));
    assert!(!Thesaurus::importable(&[&format!("dog,{},puppy", too_long)]));
    assert!(Thesaurus::importable(&[]));
}
