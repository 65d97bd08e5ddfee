use std::cmp::Ordering;
use wordfun::{AsciiString, Popularity, Ranked};

#[test]
fn test_cmp() {
    let ranked = vec!["one", "two", "three", "four", "five"];
    let one = AsciiString::try_from("one").unwrap();
    let two = AsciiString::try_from("two").unwrap();
    let alpha = AsciiString::try_from("alpha").unwrap();
    let beta = AsciiString::try_from("beta").unwrap();

    let popularity = Popularity::from(&ranked);
    assert_eq!(popularity.cmp(&one, &two), Ordering::Less);
    assert_eq!(popularity.cmp(&two, &one), Ordering::Greater);
    assert_eq!(popularity.cmp(&one, &one), Ordering::Equal);
    assert_eq!(popularity.cmp(&alpha, &two), Ordering::Greater);
    assert_eq!(popularity.cmp(&two, &beta), Ordering::Less);
    assert_eq!(popularity.cmp(&alpha, &beta), Ordering::Equal);
    assert_eq!(popularity.cmp(&alpha, &alpha), Ordering::Equal);
}

#[test]
fn test_sort() {
    let ranked = vec!["one", "two", "three", "one hundred"];
    let popularity = Popularity::from(&ranked);
    let mut list = vec![
        "THREE",
        "One-hundred",
        "four",
        "two",
        "bleep",
        "one",
        "bloop",
    ];
    popularity.sort(&mut list);
    assert_eq!(
        list,
        vec![
            "one",
            "two",
            "THREE",
            "One-hundred",
            "four",
            "bleep",
            "bloop"
        ]
    );
}

#[test]
fn test_rank_with_repeats() {
    let ranked = vec!["three", "one", "four", "one", "five"];
    let popularity = Popularity::from(&ranked);

    assert_eq!(popularity.to_ranked("three"), Ranked::Ranked("three", 1));
    assert_eq!(popularity.to_ranked("one").rank(), Some(2));
    assert_eq!(popularity.to_ranked("four").rank(), Some(3));
    assert_eq!(popularity.to_ranked("five").rank(), Some(4));
    assert_eq!(popularity.to_ranked("nine"), Ranked::Unranked("nine"));
    assert_eq!(popularity.to_ranked("nine").rank(), None);

    assert!(Ranked::Ranked((), 1) < Ranked::Ranked((), 2));

    assert!(popularity.to_ranked("three") < popularity.to_ranked("one"));
    assert!(popularity.to_ranked("one") < popularity.to_ranked("nine"));
    assert!(popularity.to_ranked("three") < popularity.to_ranked("nine"));
    assert!(popularity.to_ranked("xyz") == popularity.to_ranked("zzz"));
}

#[test]
fn empty_ranking_ranks_nothing() {
    let popularity = Popularity::new();
    assert!(!popularity.is_ranked("the"));
    assert_eq!(popularity.to_ranked("the"), Ranked::Unranked("the"));
    let mut list = vec!["b", "a", "c"];
    popularity.sort(&mut list);
    assert_eq!(list, vec!["b", "a", "c"]);
    let mut none: Vec<&str> = Vec::new();
    Popularity::default().sort(&mut none);
    assert!(none.is_empty());
}

#[test]
fn words_are_ranked_by_their_letters() {
    let popularity = Popularity::from(&["you", "I", "to", "the", "Don't", "dont", "café"]);
    assert!(popularity.is_ranked("YOU"));
    assert!(popularity.is_ranked("i"));
    assert!(popularity.is_ranked("t-o"));
    assert!(popularity.is_ranked("cafe"));
    assert!(!popularity.is_ranked("me"));
    assert_eq!(popularity.to_ranked("dont").rank(), Some(5));
    assert_eq!(popularity.to_ranked("Café").rank(), Some(6));
    assert_eq!(popularity.find(&AsciiString::try_from("the").unwrap()), Some(4));
    assert_eq!(popularity.find(&AsciiString::try_from("them").unwrap()), None);
}

#[test]
fn sort_keeps_the_order_of_equal_ranks() {
    let popularity = Popularity::from(&["b", "a"]);
    let mut list = vec!["x", "A", "y", "a", "B", "z", "b", "a!"];
    popularity.sort(&mut list);
    assert_eq!(list, vec!["B", "b", "A", "a", "a!", "x", "y", "z"]);
}

#[test]
fn ranked_values_compare_by_rank_alone() {
    let first = Ranked::Ranked("zebra", 1);
    let second = Ranked::Ranked("aardvark", 2);
    let none = Ranked::Unranked("aardvark");
    assert!(first < second);
    assert!(second > first);
    assert!(second < none);
    assert!(first <= Ranked::Ranked("other", 1));
    assert!(first == Ranked::Ranked("other", 1));
    assert!(first != second);
    assert!(none == Ranked::Unranked("zebra"));
    assert_eq!(first.partial_cmp(&none), Some(Ordering::Less));
    assert_eq!(none.partial_cmp(&first), Some(Ordering::Greater));
    assert_eq!(none.partial_cmp(&none), Some(Ordering::Equal));
    assert!(first.is_ranked());
    assert!(!none.is_ranked());
    assert_eq!(first.rank(), Some(1));
    assert_eq!(*second.value(), "aardvark");
    assert_eq!(*none.value(), "aardvark");
}

#[test]
fn ranked_words_are_shown_with_a_star() {
    assert_eq!(Ranked::Ranked("star", 7).to_text(), "star*");
    assert_eq!(Ranked::Unranked("tsar").to_text(), "tsar");
    assert_eq!(Ranked::Ranked("star", 7).as_ref(), "star");
    assert_eq!(Ranked::Unranked("tsar").as_ref(), "tsar");
}
