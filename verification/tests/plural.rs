use wordfun::plural;

#[test]
fn one_takes_the_singular() {
    assert_eq!(plural(1, "match", "matches"), "1 match");
}

#[test]
fn other_counts_take_the_plural() {
    assert_eq!(plural(0, "match", "matches"), "0 matches");
    assert_eq!(plural(2, "match", "matches"), "2 matches");
    assert_eq!(plural(137, "match", "matches"), "137 matches");
    assert_eq!(plural(10, "word", "words"), "10 words");
    assert_eq!(plural(1000000, "fée", "fées"), "1000000 fées");
    assert_eq!(plural(usize::MAX, "a", "b"), format!("{} b", usize::MAX));
}
