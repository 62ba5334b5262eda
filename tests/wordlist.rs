use word_search::wordlist::{clean_word, dedup_words, sort_longest_first};

fn strings(list: &[&str]) -> Vec<String> {
    list.iter().map(|w| w.to_string()).collect()
}

#[test]
fn clean_word_drops_white_space_and_upper_cases() {
    assert_eq!(clean_word(&"Hello World".to_string()), "HELLOWORLD");
    assert_eq!(clean_word(&" ab c1 ".to_string()), "ABC1");
    assert_eq!(clean_word(&"a\tb".to_string()), "AB");
    assert_eq!(clean_word(&"x\r\ny\u{a0}z\u{3000}".to_string()), "XYZ");
    assert_eq!(clean_word(&"   ".to_string()), "");
    assert_eq!(clean_word(&"Z\u{fc}rich".to_string()), "Z\u{fc}RICH");
}

#[test]
fn longest_words_come_first_and_ties_keep_order() {
    let sorted = sort_longest_first(&strings(&["a", "ccc", "bb", "dd", "eeee"]));
    assert_eq!(sorted, vec!["eeee", "ccc", "bb", "dd", "a"]);
    assert!(sort_longest_first(&Vec::new()).is_empty());
    let repeated = sort_longest_first(&strings(&["x", "yy", "x"]));
    assert_eq!(repeated, vec!["yy", "x", "x"]);
}

#[test]
fn dedup_keeps_first_occurrences_in_order() {
    let out = dedup_words(&strings(&["CAT", "DOG", "CAT", "EMU", "DOG"]));
    assert_eq!(out, vec!["CAT", "DOG", "EMU"]);
    assert!(dedup_words(&Vec::new()).is_empty());
}
