use prefix_tree::{Case, PrefixNotFound, PrefixTree};

fn strings(words: &[&str]) -> Vec<String> {
    words.iter().map(|w| w.to_string()).collect()
}

#[test]
fn word_found_only_after_insert_and_after_repeats() {
    let mut pt = PrefixTree::new(Case::Sensitive);
    assert!(!pt.contains_word("trie"));
    pt.insert_word("trie");
    assert!(pt.contains_word("trie"));
    pt.insert_word("trie");
    pt.insert_word("trie");
    assert!(pt.contains_word("trie"));
    assert_eq!(1, pt.get_word_count());
    assert_eq!(4, pt.get_letter_count());
}

#[test]
fn duplicates_leave_counts_and_listing_unchanged() {
    let mut pt = PrefixTree::new(Case::Sensitive);
    pt.insert_word("tree");
    pt.insert_word("trie");
    let words = pt.print_all_words();
    let letters = pt.get_letter_count();
    pt.insert_word("tree");
    assert_eq!(2, pt.get_word_count());
    assert_eq!(letters, pt.get_letter_count());
    assert_eq!(words, pt.print_all_words());
}

#[test]
fn letter_count_counts_distinct_prefixes() {
    let mut pt = PrefixTree::new(Case::Sensitive);
    pt.insert_word("doggy");
    assert_eq!(5, pt.get_letter_count());
    pt.insert_word("dog");
    assert_eq!(5, pt.get_letter_count());
    pt.insert_word("dot");
    assert_eq!(6, pt.get_letter_count());
    pt.insert_word("cat");
    assert_eq!(9, pt.get_letter_count());
}

#[test]
fn longer_word_keeps_its_prefix_word() {
    let mut pt = PrefixTree::new(Case::Sensitive);
    pt.insert_word("doggy");
    pt.insert_word("dog");
    assert!(pt.contains_word("dog"));
    assert!(pt.contains_word("doggy"));
    assert!(!pt.contains_word("dogg"));
    assert!(!pt.contains_word("do"));
    assert!(!pt.contains_word("doggys"));
}

#[test]
fn listing_is_sorted_whatever_the_insertion_order() {
    let mut first = PrefixTree::new(Case::Sensitive);
    for w in ["pear", "apple", "app", "banana", "band", "ban"] {
        first.insert_word(w);
    }
    let mut second = PrefixTree::new(Case::Sensitive);
    for w in ["band", "ban", "app", "pear", "banana", "apple"] {
        second.insert_word(w);
    }
    let expected = strings(&["app", "apple", "ban", "banana", "band", "pear"]);
    assert_eq!(expected, first.print_all_words());
    assert_eq!(expected, second.print_all_words());
}

#[test]
fn listing_orders_by_code_point() {
    let mut pt = PrefixTree::new(Case::Sensitive);
    pt.insert_word("éclair");
    pt.insert_word("zebra");
    pt.insert_word("Zebra");
    pt.insert_word("a");
    assert_eq!(strings(&["Zebra", "a", "zebra", "éclair"]), pt.print_all_words());
}

#[test]
fn listing_twice_gives_the_same_words() {
    let mut pt = PrefixTree::new(Case::Sensitive);
    for w in ["one", "two", "three", "on"] {
        pt.insert_word(w);
    }
    let a = pt.print_all_words();
    let b = pt.print_all_words();
    assert_eq!(a, b);
    assert_eq!(strings(&["on", "one", "three", "two"]), a);
}

#[test]
fn empty_tree_lists_nothing() {
    let pt = PrefixTree::new(Case::Sensitive);
    assert!(pt.print_all_words().is_empty());
    assert_eq!(0, pt.get_word_count());
    assert_eq!(0, pt.get_letter_count());
    assert_eq!(Ok(Vec::<String>::new()), pt.print_all_words_with_prefix(""));
    assert_eq!(Err(PrefixNotFound), pt.print_all_words_with_prefix("a"));
}

#[test]
fn empty_word_is_never_stored() {
    let mut pt = PrefixTree::new(Case::Sensitive);
    pt.insert_word("");
    assert_eq!(0, pt.get_word_count());
    assert_eq!(0, pt.get_letter_count());
    assert!(!pt.contains_word(""));
    pt.insert_word("x");
    assert!(!pt.contains_word(""));
}

#[test]
fn sensitive_policy_keeps_case_variants_apart() {
    let mut pt = PrefixTree::new(Case::Sensitive);
    pt.insert_word("Dog");
    assert!(!pt.contains_word("dog"));
    pt.insert_word("dog");
    pt.insert_word("DOG");
    assert_eq!(3, pt.get_word_count());
    assert_eq!(strings(&["DOG", "Dog", "dog"]), pt.print_all_words());
}

#[test]
fn upper_policy_folds_inserts_and_queries() {
    let mut pt = PrefixTree::new(Case::FoldUpper);
    pt.insert_word("should be uppercase");
    assert!(pt.contains_word("SHOULD BE UPPERCASE"));
    assert!(pt.contains_word("Should Be Uppercase"));
    pt.insert_word("Should BE uppercase");
    assert_eq!(1, pt.get_word_count());
    assert_eq!(strings(&["SHOULD BE UPPERCASE"]), pt.print_all_words());
}

#[test]
fn lower_policy_folds_inserts_and_queries() {
    let mut pt = PrefixTree::new(Case::FoldLower);
    pt.insert_word("MiXeD");
    pt.insert_word("mixed");
    assert_eq!(1, pt.get_word_count());
    assert!(pt.contains_word("MIXED"));
    assert_eq!(strings(&["mixed"]), pt.print_all_words());
    assert_eq!(Ok(strings(&["mixed"])), pt.print_all_words_with_prefix("MI"));
}

#[test]
fn prefix_listing_includes_the_prefix_word() {
    let mut pt = PrefixTree::new(Case::Sensitive);
    for w in ["apple", "app", "apply", "banana", "ape"] {
        pt.insert_word(w);
    }
    assert_eq!(Ok(strings(&["app", "apple", "apply"])), pt.print_all_words_with_prefix("app"));
    assert_eq!(Ok(strings(&["ape", "app", "apple", "apply"])), pt.print_all_words_with_prefix("ap"));
    assert_eq!(Ok(strings(&["apple"])), pt.print_all_words_with_prefix("apple"));
    assert_eq!(
        Ok(strings(&["ape", "app", "apple", "apply", "banana"])),
        pt.print_all_words_with_prefix("")
    );
}

#[test]
fn prefix_listing_reports_a_missing_prefix() {
    let mut pt = PrefixTree::new(Case::Sensitive);
    pt.insert_word("apple");
    assert_eq!(Err(PrefixNotFound), pt.print_all_words_with_prefix("b"));
    assert_eq!(Err(PrefixNotFound), pt.print_all_words_with_prefix("apples"));
    assert_eq!(Err(PrefixNotFound), pt.print_all_words_with_prefix("apx"));
}

#[test]
fn folded_variants_skip_folding() {
    let mut pt = PrefixTree::new(Case::FoldUpper);
    pt.insert_folded_word("lower");
    assert!(pt.contains_folded_word("lower"));
    assert!(!pt.contains_word("lower"));
    pt.insert_word("lower");
    assert!(pt.contains_word("lower"));
    assert!(pt.contains_folded_word("LOWER"));
    assert_eq!(2, pt.get_word_count());
    assert_eq!(10, pt.get_letter_count());
    assert_eq!(Ok(strings(&["lower"])), pt.print_all_words_with_folded_prefix("lo"));
    assert_eq!(Err(PrefixNotFound), pt.print_all_words_with_folded_prefix("LOX"));
    assert_eq!(Ok(strings(&["LOWER"])), pt.print_all_words_with_prefix("lo"));
}

#[test]
fn empty_folded_word_is_not_stored() {
    let mut pt = PrefixTree::new(Case::Sensitive);
    pt.insert_folded_word("");
    assert_eq!(0, pt.get_word_count());
    assert!(!pt.contains_folded_word(""));
}
