use arg_cipher::{
    a1z26_decode, find_vigenere_key, find_vigenere_key_bruteforce, key_from_word, score,
    search_letter_keys, vigenere, Alpha, Dictionary, KeySearch, LetterKeys, SearchOutcome,
};

fn dictionary_of(words: &[&str]) -> Dictionary {
    let mut dictionary = Dictionary::new();
    for word in words {
        dictionary.insert(word);
    }
    dictionary
}

fn encrypt(key: &str, text: &str) -> String {
    let key = Alpha::from_str(key);
    let mut text = Alpha::from_str(text);
    vigenere(&key, &mut text, true);
    Alpha::to_str(&text)
}

fn decrypt(key: &str, text: &str) -> String {
    let key = Alpha::from_str(key);
    let mut text = Alpha::from_str(text);
    vigenere(&key, &mut text, false);
    Alpha::to_str(&text)
}

fn keys_of(words: &[&str]) -> Vec<Vec<Alpha>> {
    words.iter().map(|w| Alpha::from_str(w)).collect()
}

#[test]
fn test_vigenere() {
    let cases = [
        ("KEY", "TWOWORDS", "DAMGSPNW"),
        ("KEY", "TWO WORDS", "DAM GSPNW"),
    ];

    // Ensure we can encrypt these words correctly.
    for (key, plain_text, cipher_text) in cases {
        let key = Alpha::from_str(key);
        let mut text = Alpha::from_str(plain_text);
        vigenere(&key, &mut text, true);
        assert_eq!(Alpha::to_str(&text), cipher_text);
    }

    // Ensure we can decrypt these words correctly.
    for (key, plain_text, cipher_text) in cases {
        let key = Alpha::from_str(key);
        let mut text = Alpha::from_str(cipher_text);
        vigenere(&key, &mut text, false);
        assert_eq!(Alpha::to_str(&text), plain_text);
    }
}

#[test]
fn test_a1z26() {
    assert_eq!(a1z26_decode("1-2-3 24-25-26"), vec!["ABC", "XYZ"]);
}

#[test]
fn a1z26_out_of_range_and_empty_words() {
    assert_eq!(a1z26_decode("  8-9  0-27 "), vec!["HI", "  "]);
    assert_eq!(a1z26_decode("+1-0"), vec!["A "]);
    assert_eq!(a1z26_decode(""), Vec::<String>::new());
}

#[test]
fn ring_arithmetic_values() {
    let y = Alpha::from_ascii(b'Y');
    let c = Alpha::from_ascii(b'C');
    assert_eq!(y.add(c).to_ascii(), b'A');
    assert_eq!(c.sub(y).to_ascii(), b'E');
    assert_eq!(y.add(c).sub(c), y);
    assert_eq!(c.sub(y).add(y), c);
    assert_eq!(y.add(Alpha::space()), Alpha::space());
    assert_eq!(Alpha::from_ascii(b'-').sub(c), Alpha::space());
    assert_eq!(Alpha::from_ascii(b'a').to_num(), None);
}

#[test]
fn from_num_outside_range_is_separator() {
    assert_eq!(Alpha::from_num(0).to_ascii(), b'A');
    assert_eq!(Alpha::from_num(25).to_ascii(), b'Z');
    assert_eq!(Alpha::from_num(26), Alpha::space());
    assert_eq!(Alpha::from_num(-1), Alpha::space());
    assert_eq!(Alpha::from_ascii(b'Q').to_num(), Some(16));
}

#[test]
fn round_trip_with_separators() {
    let plain = "ATTACK AT DAWN, 5 AM";
    let cipher = encrypt("LEMON", plain);
    assert_eq!(cipher, "LXFOPV EF RNHR, 5 MA");
    assert_eq!(decrypt("LEMON", &cipher), plain);
}

#[test]
fn separators_do_not_advance_key() {
    assert_eq!(encrypt("AB", "AAAA"), "ABAB");
    assert_eq!(encrypt("AB", "A  A-A.A"), "A  B-A.B");
    assert_eq!(encrypt("AB", " A A "), " A B ");
}

#[test]
fn empty_text_stays_empty() {
    assert_eq!(encrypt("KEY", ""), "");
}

#[test]
fn score_counts_words_and_valid_words() {
    let dictionary = dictionary_of(&["two", "words"]);
    assert_eq!(score(&Alpha::from_str("TWO WORDS"), &dictionary), (2, 2));
    assert_eq!(score(&Alpha::from_str("TWO  WORDS"), &dictionary), (3, 2));
    assert_eq!(score(&Alpha::from_str(""), &dictionary), (1, 0));
    assert_eq!(score(&Alpha::from_str("TWO XYZ"), &dictionary), (2, 1));
}

#[test]
fn dictionary_holds_upper_case_words() {
    let dictionary = dictionary_of(&["Two", "words"]);
    assert!(dictionary.contains(b"TWO"));
    assert!(dictionary.contains(b"WORDS"));
    assert!(!dictionary.contains(b"two"));
    assert!(!dictionary.contains(b"WORD"));
}

#[test]
fn key_from_word_upper_cases() {
    assert_eq!(key_from_word("key"), Alpha::from_str("KEY"));
    assert_eq!(key_from_word("Key!"), Alpha::from_str("KEY!"));
}

#[test]
fn dictionary_search_finds_exact_key() {
    let dictionary = dictionary_of(&["TWO", "WORDS"]);
    let keys = keys_of(&["ABC", "LEMON", "KEY", "TWO"]);
    let found = find_vigenere_key("DAM GSPNW", &keys, &dictionary).unwrap();
    assert_eq!(Alpha::to_str(&found), "KEY");
}

#[test]
fn exact_match_stops_the_search() {
    let dictionary = dictionary_of(&["TWO", "WORDS"]);
    let cipher = Alpha::from_str("DAM GSPNW");
    let keys = keys_of(&["ABC", "KEY", "KEYKEY", "LEMON"]);
    let mut search = KeySearch::new();
    let mut evaluated = 0;
    for key in &keys {
        evaluated += 1;
        if search.consider(&cipher, key, &dictionary) {
            break;
        }
    }
    assert_eq!(evaluated, 2);
    assert!(search.is_done());
    match search.finish() {
        SearchOutcome::Exact(k) => assert_eq!(Alpha::to_str(&k), "KEY"),
        _ => panic!("expected an exact match"),
    }
    let found = find_vigenere_key("DAM GSPNW", &keys, &dictionary).unwrap();
    assert_eq!(Alpha::to_str(&found), "KEY");
}

#[test]
fn near_match_tie_keeps_first() {
    let dictionary = dictionary_of(&["TWO", "WORDS", "ARE"]);
    let cipher = encrypt("KEY", "TWO WORDS ARE QQQ");
    let keys = keys_of(&["KEY", "KEYKEY"]);
    let found = find_vigenere_key(&cipher, &keys, &dictionary).unwrap();
    assert_eq!(Alpha::to_str(&found), "KEY");
    let keys = keys_of(&["KEYKEY", "KEY"]);
    let found = find_vigenere_key(&cipher, &keys, &dictionary).unwrap();
    assert_eq!(Alpha::to_str(&found), "KEYKEY");
}

#[test]
fn near_match_needs_more_than_half() {
    let dictionary = dictionary_of(&["TWO", "WORDS"]);
    let cipher = encrypt("KEY", "TWO WORDS ARE QQQ");
    let keys = keys_of(&["KEY"]);
    assert_eq!(find_vigenere_key(&cipher, &keys, &dictionary), None);
    let mut search = KeySearch::new();
    assert!(!search.consider(&Alpha::from_str(&cipher), &keys[0], &dictionary));
    assert!(matches!(search.finish(), SearchOutcome::NoMatch));
}

#[test]
fn better_near_match_replaces_earlier() {
    let dictionary = dictionary_of(&["TWO", "WORDS", "ARE", "HERE"]);
    let cipher = encrypt("KEY", "TWO WORDS ARE HERE QQQ");
    let partial = "KEYKEYKEYKEAAAAAAA";
    assert_eq!(decrypt(partial, &cipher).split(' ').filter(|w| ["TWO", "WORDS", "ARE", "HERE"].contains(w)).count(), 3);
    let found = find_vigenere_key(&cipher, &keys_of(&[partial, "KEY"]), &dictionary).unwrap();
    assert_eq!(Alpha::to_str(&found), "KEY");
    let found = find_vigenere_key(&cipher, &keys_of(&["KEY", partial]), &dictionary).unwrap();
    assert_eq!(Alpha::to_str(&found), "KEY");
    let mut search = KeySearch::new();
    let text = Alpha::from_str(&cipher);
    assert!(!search.consider(&text, &Alpha::from_str(partial), &dictionary));
    match search.finish() {
        SearchOutcome::Near(k) => assert_eq!(Alpha::to_str(&k), partial),
        _ => panic!("expected a near match"),
    }
}

#[test]
fn empty_dictionary_finds_nothing() {
    let dictionary = Dictionary::new();
    let keys = keys_of(&["KEY", "ABC", "A"]);
    assert_eq!(find_vigenere_key("DAM GSPNW", &keys, &dictionary), None);
    assert_eq!(find_vigenere_key("", &keys, &dictionary), None);
}

#[test]
fn no_candidates_finds_nothing() {
    let dictionary = dictionary_of(&["TWO", "WORDS"]);
    assert_eq!(find_vigenere_key("DAM GSPNW", &Vec::new(), &dictionary), None);
}

#[test]
fn empty_keys_are_passed_over() {
    let dictionary = dictionary_of(&["TWO", "WORDS"]);
    let keys = keys_of(&["", "KEY"]);
    let found = find_vigenere_key("DAM GSPNW", &keys, &dictionary).unwrap();
    assert_eq!(Alpha::to_str(&found), "KEY");
}

#[test]
fn bruteforce_finds_three_letter_key() {
    let dictionary = dictionary_of(&["TWO", "WORDS"]);
    let cipher = encrypt("ABC", "TWO WORDS");
    assert_eq!(cipher, "TXQ WPTDT");
    let found = find_vigenere_key_bruteforce(&cipher, 3, &dictionary).unwrap();
    assert_eq!(Alpha::to_str(&found), "ABC");
}

#[test]
fn bruteforce_finds_late_key() {
    let dictionary = dictionary_of(&["TWO", "WORDS"]);
    let cipher = encrypt("ZY", "TWO WORDS");
    let found = find_vigenere_key_bruteforce(&cipher, 2, &dictionary).unwrap();
    assert_eq!(Alpha::to_str(&found), "ZY");
}

#[test]
fn bruteforce_skips_repeated_letters() {
    let dictionary = dictionary_of(&["TWO", "WORDS"]);
    let cipher = encrypt("AA", "TWO WORDS");
    let found = find_vigenere_key_bruteforce(&cipher, 2, &dictionary).map(|k| Alpha::to_str(&k));
    assert_ne!(found, Some("AA".to_string()));
}

#[test]
fn letter_keys_are_distinct_letter_permutations() {
    let mut keys = LetterKeys::new(2);
    let mut n = 0;
    while let Some(key) = keys.next_key() {
        assert_eq!(key.len(), 2);
        assert_ne!(key[0], key[1]);
        assert!(key.iter().all(|a| a.to_num().is_some()));
        n += 1;
    }
    assert_eq!(n, 26 * 25);
    assert_eq!(keys.next_key(), None);
    let mut zero = LetterKeys::new(0);
    assert_eq!(zero.next_key(), Some(Vec::new()));
    assert_eq!(zero.next_key(), None);
}

#[test]
fn bruteforce_with_zero_length_finds_nothing() {
    let dictionary = dictionary_of(&["TWO", "WORDS"]);
    assert_eq!(find_vigenere_key_bruteforce("TWO WORDS", 0, &dictionary), None);
}

#[test]
fn search_letter_keys_takes_at_most_budget() {
    let dictionary = dictionary_of(&["TWO", "WORDS"]);
    let cipher = Alpha::from_str(&encrypt("ZY", "TWO WORDS"));
    let mut keys = LetterKeys::new(2);
    let mut search = KeySearch::new();
    let (done, taken) = search_letter_keys(&cipher, &mut keys, &mut search, &dictionary, 100);
    assert!(!done);
    assert_eq!(taken, 100);
    let mut total = taken;
    loop {
        let (done, taken) = search_letter_keys(&cipher, &mut keys, &mut search, &dictionary, 100);
        total += taken;
        if done {
            break;
        }
    }
    assert_eq!(total, 26 * 25);
    match search.finish() {
        SearchOutcome::Exact(k) => assert_eq!(Alpha::to_str(&k), "ZY"),
        _ => panic!("expected an exact match"),
    }
}
