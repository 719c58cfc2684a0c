use wordcount::hash_table::HashTable;
use wordcount::str_cutter::StrCutter;
use wordcount::word_count::process_word;

#[test]
fn process_word_counts_from_one() {
    let mut ht = HashTable::new();
    process_word(&mut ht, "Potato");
    assert_eq!(ht.lookup(&String::from("Potato")), Some(&1));
    process_word(&mut ht, "Potato");
    process_word(&mut ht, "Tomato");
    process_word(&mut ht, "Potato");
    assert_eq!(ht.lookup(&String::from("Potato")), Some(&3));
    assert_eq!(ht.lookup(&String::from("Tomato")), Some(&1));
    assert_eq!(ht.size(), 2);
}

#[test]
fn process_word_raises_a_count_that_is_there() {
    let mut ht = HashTable::new();
    ht.insert(String::from("Potato"), 41);
    process_word(&mut ht, "Potato");
    assert_eq!(ht.lookup(&String::from("Potato")), Some(&42));
    assert_eq!(ht.size(), 1);
}

#[test]
fn words_of_a_text_are_counted() {
    let text = "the cat, the dog! The cat? the end.";
    let mut ht = HashTable::new();
    for w in StrCutter::new(text, &['.', ' ', ',', '!', '?', '\n']).collect() {
        process_word(&mut ht, w);
    }
    let mut pairs: Vec<(String, i32)> =
        ht.get_key_value_pairs().into_iter().map(|(k, v)| (k.clone(), *v)).collect();
    pairs.sort();
    assert_eq!(
        pairs,
        vec![
            (String::from("The"), 1),
            (String::from("cat"), 2),
            (String::from("dog"), 1),
            (String::from("end"), 1),
            (String::from("the"), 3),
        ]
    );
}
