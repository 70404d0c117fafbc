use cipher_cracker::alphabet::{Alphabet, AlphabetIndex};
use cipher_cracker::analysis::{index_of_coincidence, Analyze};
use cipher_cracker::character_set::CharacterSet;
use cipher_cracker::cipher_type::CipherType;
use cipher_cracker::dictionary::{average_commonality_score, commonality_score, is_common_word, n_most_common, Dictionary};
use cipher_cracker::error::CipherError;
use cipher_cracker::frequency::{
    bigram_distribution_score, cased_counts, character_score, closest_english_letter, counts, distribution_score,
    english, english_lowercase, english_uppercase, mapped_to_english, UNIT,
};
use cipher_cracker::score::{coincidence_score, PossiblePlaintext};

#[test]
fn alphabet_validation() {
    assert!(Alphabet::cased("abcdefghijklmnopqrstuvwxyz").is_ok());
    assert!(Alphabet::cased("aBcDefghijklmnopqrstuvwxyz").is_ok());
    assert!(matches!(Alphabet::cased("abcdefghijklmnopqrstuvwxy"), Err(CipherError::InvalidAlphabet)));
    assert!(matches!(Alphabet::cased("abcdefghijklmnopqrstuvwxyzz"), Err(CipherError::InvalidAlphabet)));
    assert!(matches!(Alphabet::cased("abcdefghijklmnopqrstuvwxya"), Err(CipherError::InvalidAlphabet)));
    assert!(matches!(Alphabet::cased("abcdefghijklmnopqrstuvwxy1"), Err(CipherError::InvalidAlphabet)));
    assert!(matches!(Alphabet::cased("abcdefghijklmnopqrstuvwxy\u{e9}"), Err(CipherError::InvalidAlphabet)));
    assert!(Alphabet::caseless("abcdefghijklmnopqrstuvwxyz").is_ok());
    assert!(matches!(Alphabet::caseless("aAcdefghijklmnopqrstuvwxyz"), Err(CipherError::InvalidAlphabet)));
    assert!(matches!(Alphabet::caseless(""), Err(CipherError::InvalidAlphabet)));
    assert!(matches!(AlphabetIndex::new(0), Err(CipherError::InvalidArgument)));
    assert!(matches!(AlphabetIndex::new(27), Err(CipherError::InvalidArgument)));
    assert_eq!(26, AlphabetIndex::new(26).unwrap().get());
}

#[test]
fn alphabet_index_and_letter_round_trip() {
    let alphabet = Alphabet::caseless("AYCDWZIHGJKLQNOPMVSTXREUBF").unwrap();
    for (place, letter) in "AYCDWZIHGJKLQNOPMVSTXREUBF".chars().enumerate() {
        let index = alphabet.index_of(letter).unwrap();
        assert_eq!(place as u8 + 1, index.get());
        assert_eq!(letter, *alphabet.letter_at(index));
        assert_eq!(index, alphabet.index_of(letter.to_ascii_lowercase()).unwrap());
    }
    assert!(alphabet.index_of('1').is_none());
    let cased = Alphabet::cased("abcdefghijklmnopqrstuvwxyz").unwrap();
    assert!(cased.index_of('A').is_none());
    assert_eq!(1, cased.index_of('a').unwrap().get());
}

#[test]
fn alphabet_index_wraps_round() {
    let z = AlphabetIndex::new(26).unwrap();
    assert_eq!(1, z.add_mod(1).get());
    assert_eq!(26, z.add_mod(26).get());
    assert_eq!(21, z.add_mod(255).get());
    let a = AlphabetIndex::new(1).unwrap();
    assert_eq!(26, a.sub_mod(1).get());
    assert_eq!(1, a.sub_mod(52).get());
    assert_eq!(24, a.sub_mod(3).get());
}

#[test]
fn alphabet_constructions() {
    assert_eq!(&['h', 'e', 'l', 'o', ' ', 'w', 'r', 'd'][..], Alphabet::of_cased("hello world").characters());
    assert_eq!(0, Alphabet::of_cased("").characters().len());
    let ascii = Alphabet::from_ascii_range(0..128).unwrap();
    assert_eq!(128, ascii.characters().len());
    assert_eq!('A', ascii.characters()[65]);
    assert_eq!(&['}', '~', '\u{7f}'][..], Alphabet::from_ascii_range(125..128).unwrap().characters());
    assert!(matches!(Alphabet::from_ascii_range(0..127), Err(CipherError::InvalidAlphabet)));
    assert!(matches!(Alphabet::from_ascii_range(0..129), Err(CipherError::InvalidAlphabet)));
    let union = Alphabet::of_cased("abca").union(&Alphabet::of_cased("cdb"));
    assert_eq!(&['a', 'b', 'c', 'd'][..], union.characters());
    let turned = Alphabet::default().shift(3);
    assert_eq!("DEFGHIJKLMNOPQRSTUVWXYZABC", turned.characters().iter().collect::<String>());
    let small = Alphabet::cased("abcdefghijklmnopqrstuvwxyz").unwrap().shift(255);
    assert_eq!("VWXYZABCDEFGHIJKLMNOPQRSTU", small.characters().iter().collect::<String>());
    let random = Alphabet::default().random_index_of_coincidence();
    assert_eq!((1, 26), (random.numerator, random.denominator));
    assert_eq!(Alphabet::default(), Alphabet::caseless("abcdefghijklmnopqrstuvwxyz").unwrap());
}

#[test]
fn character_sets() {
    let set = CharacterSet::of("Hello, World 42!");
    assert!(set.contains('H') && set.contains('4') && set.contains('o'));
    assert!(!set.contains(',') && !set.contains(' ') && !set.contains('h'));
    assert_eq!(9, set.characters().len());
    let raw = CharacterSet::raw("Hello, World 42!");
    assert!(raw.contains(',') && raw.contains(' ') && raw.contains('!'));
    assert_eq!(12, raw.characters().len());
    assert!(CharacterSet::raw("abc\u{e9}").is_alphabetic());
    assert!(!CharacterSet::raw("abc1").is_alphabetic());
    assert!(CharacterSet::raw("abc1").is_alphanumeric());
    assert!(!CharacterSet::raw("abc 1").is_alphanumeric());
    assert!(CharacterSet::raw("").is_alphabetic());
    assert!(CharacterSet::hex().is_superset_of(&CharacterSet::raw("c0ffee")));
    assert!(!CharacterSet::octal().is_superset_of(&CharacterSet::raw("1780")));
    assert!(CharacterSet::base_64().is_superset_of(&CharacterSet::alphanumeric()));
    let union = CharacterSet::raw("ab").union(CharacterSet::raw("bc"));
    assert_eq!(3, union.characters().len());
    assert!(union.contains('a') && union.contains('b') && union.contains('c'));
    assert!(union.clone().is_superset_of(&union));
}

#[test]
fn index_of_coincidence_values() {
    let repeated = index_of_coincidence("aaaa");
    assert_eq!(repeated.numerator, repeated.denominator);
    assert_eq!(12, repeated.denominator);
    let mixed = index_of_coincidence("zZ");
    assert_eq!((2, 2), (mixed.numerator, mixed.denominator));
    for few in ["", "a", "1 2 3", "-q-"] {
        let ioc = index_of_coincidence(few);
        assert_eq!((0, 1), (ioc.numerator, ioc.denominator));
    }
    let text = index_of_coincidence("abc ABC, \u{e9}\u{e9}");
    assert_eq!((6, 30), (text.numerator, text.denominator));
    let distinct = "abcdefg".index_of_coincidence();
    assert_eq!((0, 42), (distinct.numerator, distinct.denominator));
    assert_eq!("abab".ioc(), index_of_coincidence("abab"));
    assert_eq!(&['a', 'b'][..], "abab".alphabet().characters());
}

#[test]
fn classifier_follows_its_rules() {
    assert_eq!(Some(CipherType::Morse), CipherType::best_match("... --- ... / .-"));
    assert_eq!(Some(CipherType::Morse), CipherType::best_match(".-/-."));
    assert_eq!(Some(CipherType::Morse), CipherType::best_match(""));
    assert_eq!(Some(CipherType::Octal), CipherType::best_match("0123456701"));
    assert_eq!(Some(CipherType::Hex), CipherType::best_match("0189"));
    assert_eq!(Some(CipherType::Hex), CipherType::best_match("DEADbeef"));
    assert_eq!(
        Some(CipherType::Base64),
        CipherType::best_match("VGhlIHF1aWNrIGJyb3duIGZveCBqdW1wcyBvdmVyIHRoZSBsYXp5IGRvZy4=")
    );
    assert_eq!(Some(CipherType::Base64), CipherType::best_match("110 145 154"));
    assert_eq!(
        Some(CipherType::Substitution),
        CipherType::best_match("wkh txlfn eurzq ira mxpsv ryhu wkh odcb grj")
    );
    assert_eq!(Some(CipherType::Transposition), CipherType::best_match("aaaab aaaab"));
    assert_eq!(Some(CipherType::Substitution), CipherType::best_match("aaaa aaaa x"));
    assert_eq!(Some(CipherType::Base64), CipherType::best_match("Abcdefghijk"));
    assert_eq!(Some(CipherType::Substitution), CipherType::best_match("Abcdefghijkl"));
    assert_eq!(Some(CipherType::Base64), CipherType::best_match("Abcdefghij!"));
}

#[test]
fn frequency_counts() {
    assert_eq!(vec![('h', 1), ('e', 1), ('l', 3), ('o', 2), (' ', 1), ('w', 1), ('r', 1), ('d', 1)], counts("Hello World"));
    assert_eq!(vec![('A', 1), ('a', 2)], cased_counts("Aaa"));
    assert_eq!(vec![('a', 3)], counts("Aaa"));
    assert!(counts("").is_empty());
    assert_eq!(26, english_lowercase().len());
    assert_eq!(('e', 12700), english_lowercase()[4]);
    assert_eq!(('Z', 74), english_uppercase()[25]);
    assert_eq!(52, english().len());
    assert_eq!(('Q', 95), english()[42]);
}

#[test]
fn frequency_scores() {
    assert_eq!(126_353_501, character_score("e"));
    assert_eq!(126_353_501, character_score("E"));
    assert_eq!(126_353_501, distribution_score("e"));
    assert_eq!(126_353_501, distribution_score("#"));
    assert_eq!(34_885_815, bigram_distribution_score("e"));
    assert_eq!(0, character_score(""));
    assert_eq!(0, character_score("123 !?"));
    assert_eq!(0, distribution_score(""));
    assert_eq!(0, bigram_distribution_score(""));
    let english = "the quick brown fox jumps over the lazy dog and runs away from the farmer";
    let shifted = "wkh txlfn eurzq ira mxpsv ryhu wkh odcb grj dqg uxqv dzdb iurp wkh iduphu";
    assert_eq!(distribution_score(english), distribution_score(shifted));
    assert!(character_score(english) > character_score(shifted));
    for text in [english, shifted, "zzzz", "a", "\u{e9}t\u{e9}"] {
        assert!(character_score(text) <= UNIT);
        assert!(distribution_score(text) <= UNIT);
        assert!(bigram_distribution_score(text) <= UNIT);
    }
}

#[test]
fn letters_by_frequency() {
    assert_eq!('e', closest_english_letter(127, 1000));
    assert_eq!('e', closest_english_letter(1, 1));
    assert_eq!('z', closest_english_letter(0, 1));
    assert_eq!('j', closest_english_letter(15, 10000));
    assert_eq!("eet", mapped_to_english("aab").unwrap());
    assert_eq!("", mapped_to_english("").unwrap());
    assert_eq!("ldcumwfgyprhbsnvkiojxqzate", mapped_to_english("abcdefghijklmnopqrstuvwxyz").unwrap());
    assert!(matches!(mapped_to_english("Aab"), Err(CipherError::InvalidArgument)));
    assert!(matches!(mapped_to_english("abcdefghijklmnopqrstuvwxyz0"), Err(CipherError::InvalidArgument)));
}

#[test]
fn dictionary_commonality() {
    let words = Dictionary::new("the of\nand\tto");
    assert_eq!(4, words.len());
    assert!(is_common_word(&words, "and"));
    assert!(!is_common_word(&words, "The"));
    assert!(!is_common_word(&words, ""));
    assert_eq!(vec!["and".to_owned(), "to".to_owned()], n_most_common(&words, 2));
    assert!(n_most_common(&words, 4).is_empty());
    assert_eq!(1_000_000_000, commonality_score(&words, "the"));
    assert_eq!(750_000_000, commonality_score(&words, "of"));
    assert_eq!(250_000_000, commonality_score(&words, "to"));
    assert_eq!(0, commonality_score(&words, "cipher"));
    assert_eq!(875_000_000, average_commonality_score(&words, "The, of!"));
    assert_eq!(333_333_333, average_commonality_score(&words, "the 42 xyz"));
    assert_eq!(0, average_commonality_score(&words, "   "));
    assert_eq!(0, commonality_score(&Dictionary::new(""), "the"));
}

#[test]
fn plaintext_scores_and_ranks() {
    let words = Dictionary::new("the of and to a in for is on that");
    assert_eq!(Some(928_533_161), coincidence_score(""));
    assert_eq!(Some(0), coincidence_score("aaaa"));
    let english = "the cat is on the mat and that is that".to_owned();
    let noise = "qzx jvk wpf gbh qzx jjj xqz vvv kqj zzz".to_owned();
    let shifted = "wkh fdw lv rq wkh pdw dqg wkdw lv wkdw".to_owned();
    let texts = vec![noise.clone(), english.clone(), shifted.clone()];
    let score = |text: &String| PossiblePlaintext::new(text).score(&words);
    assert!(score(&english) > score(&shifted));
    assert!(score(&english) > score(&noise));
    assert!(score(&english) <= 1_000_000_000);
    assert_eq!("the cat", PossiblePlaintext::new("the cat").text());
    assert_eq!(Some(english.clone()), PossiblePlaintext::best(&texts, &words));
    assert_eq!(None, PossiblePlaintext::best(&Vec::new(), &words));
    let mut expected = texts.clone();
    expected.sort_by_key(|text| score(text));
    expected.reverse();
    assert_eq!(english, expected[0]);
    assert_eq!(expected[..1].to_vec(), PossiblePlaintext::best_n(&texts, 1, &words).unwrap());
    assert_eq!(expected[..2].to_vec(), PossiblePlaintext::best_n(&texts, 2, &words).unwrap());
    assert_eq!(expected, PossiblePlaintext::best_n(&texts, 3, &words).unwrap());
    assert!(matches!(PossiblePlaintext::best_n(&texts, 0, &words), Err(CipherError::InvalidArgument)));
    assert!(matches!(PossiblePlaintext::best_n(&texts, 4, &words), Err(CipherError::InvalidArgument)));
    assert!(matches!(PossiblePlaintext::best_n(&Vec::new(), 1, &words), Err(CipherError::InvalidArgument)));
    assert!(matches!(PossiblePlaintext::best_n(&Vec::new(), 0, &words), Err(CipherError::InvalidArgument)));
    let twins = vec!["ab".to_owned(), "ba".to_owned(), "ab".to_owned()];
    assert_eq!(Some("ab".to_owned()), PossiblePlaintext::best(&twins, &words));
    let ranked = PossiblePlaintext::best_n(&twins, 3, &words).unwrap();
    assert_eq!(3, ranked.len());
    for pair in ranked.windows(2) {
        assert!(score(&pair[0]) >= score(&pair[1]));
    }
}

#[test]
fn well_known_alphabets_and_sets() {
    assert_eq!(26, Alphabet::lowercase_letters().characters().len());
    assert_eq!('Z', Alphabet::capital_letters().characters()[25]);
    assert_eq!(52, Alphabet::letters().characters().len());
    assert_eq!('a', Alphabet::letters().characters()[26]);
    assert_eq!(&['1', '2', '3', '4', '5', '6', '7', '8', '9', '0'][..], Alphabet::numbers().characters());
    assert_eq!(62, Alphabet::letters_and_numbers().characters().len());
    assert_eq!(64, Alphabet::base_64().characters().len());
    assert_eq!('/', Alphabet::base_64().characters()[63]);
    assert_eq!(Alphabet::from_ascii_range(0..128).unwrap(), Alphabet::ascii());
    assert_eq!(26, CharacterSet::lowercase_alphabetic().characters().len());
    assert_eq!(26, CharacterSet::uppercase_alphabetic().characters().len());
    assert_eq!(52, CharacterSet::alphabetic().characters().len());
    assert_eq!(64, CharacterSet::base_64().characters().len());
    assert_eq!(3, CharacterSet::morse().characters().len());
    assert_eq!(10, CharacterSet::numeric().characters().len());
    assert_eq!(62, CharacterSet::alphanumeric().characters().len());
    assert_eq!(22, CharacterSet::hex().characters().len());
    assert_eq!(8, CharacterSet::octal().characters().len());
    assert_eq!(2, CharacterSet::binary().characters().len());
    assert!(CharacterSet::morse().contains('/') && !CharacterSet::morse().contains(' '));
}
