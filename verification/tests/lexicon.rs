use wordfun::{Entry, Lexicon};

fn corpus() -> Lexicon {
    Lexicon::new(&["ace", "café", "efface", "face", "fact", "fake"])
}

#[test]
fn anagram_search() {
    let lex = corpus();
    let results = lex.anagram("acef");
    assert_eq!("4", results.search_key_len());
    assert_eq!("acef", results.search_string());
    assert_eq!(
        vec!["café", "face"],
        results.into_iter().collect::<Vec<_>>()
    );
}

#[test]
fn anagram_search_missing_letters() {
    let lex = corpus();
    let results = lex.anagram("ac..");
    assert_eq!("4", results.search_key_len());
    assert_eq!("ac..", results.search_string());
    assert_eq!(
        vec!["café", "face", "fact"],
        results.into_iter().collect::<Vec<_>>()
    );
}

#[test]
fn find_word() {
    let lex = corpus();
    let results = lex.find_word(".a.e");
    assert_eq!("4", results.search_key_len());
    assert_eq!(".a.e", results.search_string());
    assert_eq!(
        vec!["café", "face", "fake"],
        results.into_iter().collect::<Vec<_>>()
    );
}

#[test]
fn lexicon_anagram_search() {
    let lex = Lexicon::new(&["ace", "café", "efface", "face", "fact", "fake"]);
    let results = lex.anagram("acef");
    assert_eq!("4", results.search_key_len());
    assert_eq!("acef", results.search_string());
    assert_eq!(
        vec!["café", "face"],
        results.into_iter().collect::<Vec<_>>()
    );
}

#[test]
fn lexicon_anagram_search_missing_letters() {
    let lex = Lexicon::new(&["ace", "café", "efface", "face", "fact", "fake"]);
    let results = lex.anagram("ac..");
    assert_eq!("4", results.search_key_len());
    assert_eq!("ac..", results.search_string());
    assert_eq!(
        vec!["café", "face", "fact"],
        results.into_iter().collect::<Vec<_>>()
    );
}

#[test]
fn lexicon_find_word() {
    let lex = Lexicon::new(&["ace", "café", "efface", "face", "fact", "fake"]);
    let results = lex.find_word(".a.e");
    assert_eq!("4", results.search_key_len());
    assert_eq!(".a.e", results.search_string());
    assert_eq!(
        vec!["café", "face", "fake"],
        results.into_iter().collect::<Vec<_>>()
    );
}

#[test]
fn empty_lexicon_has_no_results() {
    let lex = Lexicon::new(&[]);
    let results = lex.anagram("acef");
    assert!(results.words.is_empty());
    assert_eq!(results.key.search_len(), "4");
    let results = lex.find_word("s.e/......");
    assert!(results.words.is_empty());
    assert_eq!(results.key.search_len(), "3,6");
    assert_eq!(results.key.search_string(), "s.e/......");
    assert!(lex.entries().next().is_none());
}

#[test]
fn results_keep_the_order_of_the_lexicon() {
    let lex = Lexicon::new(&["tars", "Arts", "star", "rats", "tsar", "rat", "stars"]);
    let results = lex.anagram("rats");
    assert_eq!(results.words, vec!["tars", "Arts", "star", "rats", "tsar"]);
    let results = lex.find_word("..ar");
    assert_eq!(results.words, vec!["star", "tsar"]);
}

#[test]
fn find_word_with_breaks() {
    let lex = Lexicon::new(&["scenarios", "see reason", "see no evil", "seereason"]);
    let results = lex.find_word("s.e/......");
    assert_eq!(results.search_key_len(), "3,6");
    assert_eq!(results.words, vec!["see reason"]);
    let results = lex.find_word("s.e/../....");
    assert_eq!(results.search_key_len(), "3,2,4");
    assert_eq!(results.words, vec!["see no evil"]);
    let results = lex.find_word("s.e......");
    assert_eq!(results.search_key_len(), "9");
    assert_eq!(results.words, vec!["scenarios", "see reason", "see no evil", "seereason"]);
}

#[test]
fn entries_are_walked_in_order() {
    let lex = Lexicon::new(&["one", "Two words", "three"]);
    let mut entries = lex.entries();
    assert_eq!(entries.next().unwrap().word(), "one");
    let second = entries.next().unwrap();
    assert_eq!(second.word(), "Two words");
    assert_eq!(second.letters().to_str(), "twowords");
    assert_eq!(entries.next().unwrap().word(), "three");
    assert!(entries.next().is_none());
    assert!(entries.next().is_none());
    assert_eq!(lex.entries_slice().len(), 3);
}

#[test]
fn entry_caches_letters_sorted_letters_and_breaks() {
    let entry = Entry::from("Île-de-France");
    assert_eq!("Île-de-France", entry.word());
    assert_eq!("iledefrance", entry.letters().to_str());
    assert_eq!("acdeeefilnr", entry.sorted().to_str());
    assert_eq!(vec![3, 5], entry.breaks().to_vec());
    assert_eq!(11, entry.len());
}

#[test]
fn entry_keeps_the_text_as_entered() {
    let entry = Entry::from("  Das Kapital ");
    assert_eq!(entry.word(), "  Das Kapital ");
    assert_eq!(entry.letters().to_str(), "daskapital");
    assert_eq!(entry.breaks().to_vec(), vec![3]);
    assert_eq!(entry.clone(), entry);
}

#[test]
fn sorted_is_the_letters_sorted() {
    for text in ["banana", "Pioneering tsar", "tête-à-tête", "", "zyx wvu"] {
        let entry = Entry::from(text);
        let mut letters = entry.letters().as_bytes().to_vec();
        letters.sort();
        assert_eq!(entry.sorted().as_bytes(), &letters[..]);
        assert_eq!(entry.sorted().len(), entry.letters().len());
    }
}

#[test]
fn letters_is_idempotent() {
    for text in ["banana", "Pioneering tsar", "tête-à-tête", "", " x ", "Ünïcödé 北"] {
        let entry1 = Entry::from(text);
        let entry2 = Entry::from(entry1.letters().to_str());
        assert_eq!(entry1.letters(), entry2.letters());
    }
}
