use prefix_tree::{Case, PrefixTree};

#[test]
// A typical test for the contains_word() function
fn contains_word_test_1() {
    let mut pt: PrefixTree = PrefixTree::new(Case::Sensitive);
    pt.insert_word("cat");
    pt.insert_word("dog");
    pt.insert_word("fish");
    pt.insert_word("mouse");

    assert_eq!(true, pt.contains_word("dog"));
}

#[test]
// "dog" is a prefix of "doggy" but was never inserted, so it is not a word.
fn contains_word_test_2() {
    let mut pt: PrefixTree = PrefixTree::new(Case::Sensitive);
    pt.insert_word("doggy");

    assert_eq!(false, pt.contains_word("dog"));
}

#[test]
fn contains_word_test_3() {
    let mut pt: PrefixTree = PrefixTree::new(Case::Sensitive);
    pt.insert_word("doggy");
    pt.insert_word("dog");

    assert_eq!(true, pt.contains_word("dog"));
}

#[test]
fn get_word_count_test_1() {
    let mut pt: PrefixTree = PrefixTree::new(Case::Sensitive);
    pt.insert_word("a");

    assert_eq!(1, pt.get_word_count());
}

#[test]
// Duplicate words are not counted twice
fn get_word_count_test_2() {
    let mut pt: PrefixTree = PrefixTree::new(Case::Sensitive);
    pt.insert_word("a");
    pt.insert_word("a");

    assert_eq!(1, pt.get_word_count());
}

#[test]
fn get_word_count_test_3() {
    let mut pt: PrefixTree = PrefixTree::new(Case::Sensitive);
    pt.insert_word("a");
    pt.insert_word("an");
    pt.insert_word("am");
    pt.insert_word("are");
    pt.insert_word("a");

    assert_eq!(4, pt.get_word_count());
}

#[test]
fn get_letter_count_test_1() {
    let mut pt: PrefixTree = PrefixTree::new(Case::Sensitive);
    pt.insert_word("a");

    assert_eq!(1, pt.get_letter_count());
}

#[test]
fn get_letter_count_test_2() {
    let mut pt: PrefixTree = PrefixTree::new(Case::Sensitive);
    pt.insert_word("a");
    pt.insert_word("an");
    pt.insert_word("am");
    pt.insert_word("are");
    pt.insert_word("as");

    assert_eq!(6, pt.get_letter_count());
}

#[test]
fn test_symbol_insert() {
    let mut pt: PrefixTree = PrefixTree::new(Case::Sensitive);
    let text: String = String::from("$#**   ... {} /<>");

    pt.insert_word(text.as_str());

    assert_eq!(true, pt.contains_word(text.as_str()));

    let new_text: String = text + " ^$@";
    assert_eq!(false, pt.contains_word(new_text.as_str()));

    pt.insert_word((new_text).as_str());
    assert_eq!(true, pt.contains_word(new_text.as_str()));
}

#[test]
fn case_insensitive_test() {
    let mut pt: PrefixTree = PrefixTree::new(Case::Sensitive);
    let text = "CaSe InSeNsItIvE";

    pt.insert_word(text);
    assert_eq!(true, pt.contains_word(text));
}

#[test]
fn uppercase_test() {
    let mut pt: PrefixTree = PrefixTree::new(Case::FoldUpper);
    let text = "should be uppercase";

    pt.insert_word(text);
    assert_eq!(true, pt.contains_word(text.to_uppercase().as_str()));
}

#[test]
fn lowercase_test() {
    let mut pt: PrefixTree = PrefixTree::new(Case::FoldLower);
    let text = "SHOULD BE LOWERCASE";

    pt.insert_word(text);
    assert_eq!(true, pt.contains_word(text.to_lowercase().as_str()));
}
