use prefix_tree::Level;

#[test]
fn small_insert_test() {
    let mut main_level: Level = Level {
        letter_vector: Vec::new(),
    };

    main_level.binary_insert('i');
    main_level.binary_insert('x');
    main_level.binary_insert('u');

    assert_eq!(
        true,
        main_level.letter_vector[0].letter == 'i'
            && main_level.letter_vector[1].letter == 'u'
            && main_level.letter_vector[2].letter == 'x'
    );
}

#[test]
fn big_insert_test() {
    let mut main_level: Level = Level {
        letter_vector: Vec::new(),
    };

    main_level.binary_insert('i');
    main_level.binary_insert('x');
    main_level.binary_insert('u');
    main_level.binary_insert('m');
    main_level.binary_insert('c');
    main_level.binary_insert('h');
    main_level.binary_insert('p');
    main_level.binary_insert('z');
    main_level.binary_insert('d');
    main_level.binary_insert('y');
    main_level.binary_insert('b');
    main_level.binary_insert('w');
    main_level.binary_insert('j');
    main_level.binary_insert('e');
    main_level.binary_insert('s');
    main_level.binary_insert('q');
    main_level.binary_insert('n');
    main_level.binary_insert('f');
    main_level.binary_insert('k');
    main_level.binary_insert('v');
    main_level.binary_insert('a');
    main_level.binary_insert('l');
    main_level.binary_insert('o');
    main_level.binary_insert('g');
    main_level.binary_insert('t');

    let mut in_order: bool = true;

    for x in 1..main_level.letter_vector.len() {
        in_order = in_order
            && (main_level.letter_vector[x - 1].letter < main_level.letter_vector[x].letter);
    }

    assert_eq!(true, in_order);
}

#[test]
fn binary_insert_reports_index_and_insertion() {
    let mut level = Level::new();
    assert_eq!((0, true), level.binary_insert('m'));
    assert_eq!((0, true), level.binary_insert('c'));
    assert_eq!((2, true), level.binary_insert('x'));
    assert_eq!((1, false), level.binary_insert('m'));
    assert_eq!(3, level.letter_vector.len());
    assert_eq!((1, true), level.binary_insert('d'));
    assert_eq!(4, level.letter_vector.len());
    assert!(!level.letter_vector[1].is_end_of_word);
    assert!(level.letter_vector[1].level_below.is_none());
}

#[test]
fn binary_insert_keeps_existing_letter() {
    let mut level = Level::new();
    level.binary_insert('a');
    level.letter_vector[0].is_end_of_word = true;
    assert_eq!((0, false), level.binary_insert('a'));
    assert!(level.letter_vector[0].is_end_of_word);
    assert_eq!(1, level.letter_vector.len());
}

#[test]
fn find_does_not_insert() {
    let mut level = Level::new();
    level.binary_insert('k');
    level.binary_insert('b');
    assert_eq!(None, level.find('a'));
    assert_eq!(Some(1), level.find('k'));
    assert_eq!(Some(0), level.find('b'));
    assert_eq!(2, level.letter_vector.len());
}

#[test]
fn binary_insert_orders_by_code_point() {
    let mut level = Level::new();
    level.binary_insert('é');
    level.binary_insert('Z');
    level.binary_insert('a');
    assert_eq!('Z', level.letter_vector[0].letter);
    assert_eq!('a', level.letter_vector[1].letter);
    assert_eq!('é', level.letter_vector[2].letter);
}
