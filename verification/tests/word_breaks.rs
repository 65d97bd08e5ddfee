use wordfun::WordBreaks;

#[test]
fn find_breaks_one_word() {
    assert_eq!(WordBreaks::for_word("test"), Default::default());
}

#[test]
fn find_breaks_three_words() {
    let positions: Vec<usize> = WordBreaks::for_word("café au lait").positions();
    assert_eq!(positions, &[4, 6]);
}

#[test]
fn from_positions_holds_each_position_once() {
    let breaks = WordBreaks::from_positions(&[7, 3, 7, 3, 12]);
    assert_eq!(breaks.to_vec(), vec![3, 7, 12]);
    assert!(breaks.contains(3));
    assert!(breaks.contains(12));
    assert!(!breaks.contains(4));
    assert!(!breaks.contains(1000));
    assert!(!breaks.is_empty());
}

#[test]
fn default_is_empty() {
    let breaks = WordBreaks::default();
    assert!(breaks.is_empty());
    assert_eq!(breaks.to_vec(), Vec::<usize>::new());
    assert!(WordBreaks::from_positions(&[]).is_empty());
    assert_eq!(WordBreaks::from_positions(&[]), WordBreaks::default());
}

#[test]
fn equality_is_by_positions() {
    let a = WordBreaks::from_positions(&[4, 10]);
    let b = WordBreaks::from_positions(&[10, 4, 4]);
    let c = WordBreaks::from_positions(&[4]);
    assert!(a.equals(&b));
    assert!(b.equals(&a));
    assert!(!a.equals(&c));
    assert!(!c.equals(&a));
    assert_eq!(a, b);
    assert_ne!(a, c);
}

#[test]
fn positions_beyond_the_first_length() {
    let far = WordBreaks::from_positions(&[3, 75]);
    assert_eq!(far.to_vec(), vec![3, 75]);
    assert!(far.contains(75));
    assert!(far.equals(&WordBreaks::from_positions(&[75, 3])));
    assert!(!far.equals(&WordBreaks::from_positions(&[3])));
    assert!(!WordBreaks::from_positions(&[3]).equals(&far));
    assert!(far.is_superset(&WordBreaks::from_positions(&[3])));
    assert!(!WordBreaks::from_positions(&[3]).is_superset(&far));
}

#[test]
fn superset() {
    let big = WordBreaks::from_positions(&[2, 5, 9]);
    let small = WordBreaks::from_positions(&[5, 9]);
    assert!(big.is_superset(&small));
    assert!(!small.is_superset(&big));
    assert!(big.is_superset(&big));
    assert!(big.is_superset(&WordBreaks::default()));
}

#[test]
fn clone_keeps_the_positions() {
    let a = WordBreaks::from_positions(&[1, 2, 59]);
    let b = a.clone();
    assert_eq!(a, b);
    assert_eq!(b.to_vec(), vec![1, 2, 59]);
}

#[test]
fn breaks_of_a_phrase_are_interior() {
    assert!(WordBreaks::for_word(" hello ").is_empty());
    assert!(WordBreaks::for_word("...hello!").is_empty());
    assert_eq!(WordBreaks::for_word("  a -- b  ").to_vec(), vec![1]);
    assert_eq!(WordBreaks::for_word("bee's knees").to_vec(), vec![4]);
    assert_eq!(WordBreaks::for_word("route 66 revisited").to_vec(), vec![5]);
}
