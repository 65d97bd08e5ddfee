use wordfun::response::{full_results, thesaurus_response, Match, WordGroup};
use wordfun::sorting::{bytes_leq, pair_order, stable_order};
use wordfun::wordnet::WordType;
use wordfun::{Dictionary, Popularity, Thesaurus};

#[test]
fn full_results_carry_definitions_and_scores() {
    let mut dict = Dictionary::new();
    dict.insert("star", "a celestial body", WordType::Noun);
    dict.insert("rat", "a rodent", WordType::Noun);
    let popularity = Popularity::from(&["star"]);
    let results = full_results(&["arts", "rats", "Star"], &dict, &popularity);
    assert_eq!(
        results.words,
        vec![
            Match { word: "arts".to_string(), definition: None, score: None },
            Match { word: "rats".to_string(), definition: Some("a rodent".to_string()), score: None },
            Match {
                word: "Star".to_string(),
                definition: Some("a celestial body".to_string()),
                score: Some(1)
            },
        ]
    );
    assert!(full_results(&[], &dict, &popularity).words.is_empty());
}

fn group(lengths: &str, words: &[&str]) -> WordGroup {
    WordGroup { lengths: lengths.to_string(), words: words.iter().map(|w| w.to_string()).collect() }
}

#[test]
fn thesaurus_words_are_grouped_by_length() {
    let mut thesaurus = Thesaurus::new();
    thesaurus.push(&[
        "dog",
        "turkey gobbler",
        "Siberian husky",
        "affenpinscher",
        "pluck the beard",
        "Great Pyrenees",
        "Border terrier",
        "cur",
        "pooch",
    ]);
    let found = thesaurus.lookup("dog");
    let response = thesaurus_response("dog", &found);
    assert_eq!(response.query, "dog");
    assert_eq!(response.count, "9 matches");
    assert_eq!(
        response.words,
        vec![
            group("3", &["cur", "dog"]),
            group("5", &["pooch"]),
            group("13", &["affenpinscher"]),
            group("13 (5,3,5)", &["pluck the beard"]),
            group("13 (5,8)", &["Great Pyrenees"]),
            group("13 (6,7)", &["Border terrier", "turkey gobbler"]),
            group("13 (8,5)", &["Siberian husky"]),
        ]
    );
}

#[test]
fn thesaurus_response_of_one_and_of_none() {
    let mut thesaurus = Thesaurus::new();
    thesaurus.push(&["kid"]);
    let found = thesaurus.lookup("kid");
    let response = thesaurus_response("kid", &found);
    assert_eq!(response.count, "1 match");
    assert_eq!(response.words, vec![group("3", &["kid"])]);
    let none = thesaurus_response("kitten", &thesaurus.lookup("kitten"));
    assert_eq!(none.count, "0 matches");
    assert_eq!(none.query, "kitten");
    assert!(none.words.is_empty());
}

#[test]
fn byte_strings_in_dictionary_order() {
    let words: [&[u8]; 8] = [b"", b"a", b"aa", b"ab", b"b", b"ba", b"\xff", b"A"];
    for a in words {
        for b in words {
            assert_eq!(bytes_leq(a, b), a <= b);
        }
    }
}

#[test]
fn orders_sort_their_keys() {
    assert_eq!(stable_order(&vec![3, 1, 2, 1, 3, 0]), vec![5, 1, 3, 2, 0, 4]);
    assert_eq!(stable_order(&vec![]), Vec::<usize>::new());
    assert_eq!(stable_order(&vec![7, 7, 7]), vec![0, 1, 2]);
    let first = vec![b"b".to_vec(), b"a".to_vec(), b"b".to_vec(), b"".to_vec()];
    let second = vec![b"y".to_vec(), b"z".to_vec(), b"x".to_vec(), b"w".to_vec()];
    assert_eq!(pair_order(&first, &second), vec![3, 1, 2, 0]);
}
