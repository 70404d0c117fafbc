use cipher_cracker::enigma::alphabet::{Alphabet, AlphabetIndex, IntoAlphabetIndex};
use cipher_cracker::enigma::caeser_shift;
use cipher_cracker::enigma::machine::parse_plugboard;
use cipher_cracker::enigma::reflector::Reflector;
use cipher_cracker::enigma::rotor::{IntoRotors, Rotor};
use cipher_cracker::enigma::MachineOptions;
use cipher_cracker::error::CipherError;

#[test]
fn caesar_shift_moves_capitals_only() {
    assert_eq!("BCD xyz ZAB!", caeser_shift("ABC xyz YZA!", 1));
    assert_eq!("ABC", caeser_shift("ABC", 26));
    assert_eq!("ZAB", caeser_shift("ABC", 25));
    assert_eq!("WXY", caeser_shift("ABC", 230));
    assert_eq!("\u{e9}", caeser_shift("\u{e9}", 3));
    assert_eq!("D", caeser_shift("\u{141}", 3));
    assert_eq!("", caeser_shift("", 7));
}

#[test]
fn enigma_alphabet_lookups() {
    let standard = Alphabet::standard();
    assert_eq!("ABCDEFGHIJKLMNOPQRSTUVWXYZ", standard.letters());
    let rotor = Alphabet::new("EKMFLGDQVZNTOWYHXUSPAIBRCJ").unwrap();
    assert_eq!(0, rotor.index_of('E').unwrap().get());
    assert_eq!(0, rotor.index_of('e').unwrap().get());
    assert_eq!(25, rotor.index_of('j').unwrap().get());
    assert!(rotor.index_of('1').is_none());
    assert!(rotor.index_of('\u{e9}').is_none());
    assert_eq!(2, rotor.unchecked_index_of('M'));
    assert_eq!('F', rotor.letter_at(AlphabetIndex::try_from(3).unwrap()));
    assert_eq!('J', rotor.unchecked_letter_at(25));
    assert!(matches!(Alphabet::new("EKMFLGDQVZNTOWYHXUSPAIBRC"), Err(CipherError::InvalidAlphabet)));
    assert!(matches!(Alphabet::new("EKMFLGDQVZNTOWYHXUSPAIBRCE"), Err(CipherError::InvalidAlphabet)));
    assert!(matches!(Alphabet::new("EKMFLGDQVZNTOWYHXUSPAIBRC1"), Err(CipherError::InvalidAlphabet)));
    let small = Alphabet::new("ekmflgdqvzntowyhxuspaibrcj").unwrap();
    assert!(small.index_of('e').is_none());
    let loose = Alphabet::new_unchecked("AB");
    assert_eq!(1, loose.unchecked_index_of('B'));
    assert_eq!("AB", loose.letters());
}

#[test]
fn enigma_indices() {
    assert!(matches!(AlphabetIndex::try_from(26), Err(CipherError::InvalidConfiguration)));
    assert!(matches!(AlphabetIndex::try_from_i32(-1), Err(CipherError::InvalidConfiguration)));
    assert_eq!(25, AlphabetIndex::try_from_i32(25).unwrap().get());
    let a = AlphabetIndex::try_from(20).unwrap();
    let b = AlphabetIndex::try_from(10).unwrap();
    assert_eq!(4, a.add_mod(b).get());
    assert_eq!(16, b.sub_mod(a).get());
    assert_eq!(0, AlphabetIndex::try_from(25).unwrap().next().get());
    let (x, y, z) = (1u8, 2u8, 25u8).try_into_alphabet_index().unwrap();
    assert_eq!((1, 2, 25), (x.get(), y.get(), z.get()));
    assert!(matches!((1u8, 26u8, 3u8).try_into_alphabet_index(), Err(CipherError::InvalidConfiguration)));
    assert!(matches!((1i32, -2i32, 3i32).try_into_alphabet_index(), Err(CipherError::InvalidConfiguration)));
    assert!((0i32, 0i32, 0i32).try_into_alphabet_index().is_ok());
}

#[test]
fn rotors_and_their_notches() {
    assert_eq!(Rotor::I, Rotor::unchecked_from(1));
    assert_eq!(Ok(Rotor::VIII), Rotor::try_from(8));
    assert_eq!(Err(CipherError::InvalidConfiguration), Rotor::try_from(0));
    assert_eq!(Err(CipherError::InvalidConfiguration), Rotor::try_from(9));
    assert_eq!("EKMFLGDQVZNTOWYHXUSPAIBRCJ", Rotor::I.alphabet().letters());
    assert_eq!("FKQHTLXOCBJSPDZRAMEWNIUYGV", Rotor::VIII.alphabet().letters());
    assert_eq!(vec!['Q'], Rotor::I.notches());
    assert_eq!(vec!['E'], Rotor::II.notches());
    assert_eq!(vec!['V'], Rotor::III.notches());
    assert_eq!(vec!['J'], Rotor::IV.notches());
    assert_eq!(vec!['Z'], Rotor::V.notches());
    for rotor in [Rotor::VI, Rotor::VII, Rotor::VIII] {
        assert_eq!(vec!['M', 'Z'], rotor.notches());
    }
    assert_eq!(Ok((Rotor::I, Rotor::V, Rotor::III)), (1u8, 5u8, 3u8).try_into_rotors());
    assert_eq!(Err(CipherError::InvalidConfiguration), (1u8, 5u8, 9u8).try_into_rotors());
    assert_eq!((Rotor::II, Rotor::IV, Rotor::VI), (2u8, 4u8, 6u8).unchecked_into_rotors());
}

#[test]
fn reflectors_pair_the_letters() {
    let all = [
        Reflector::A,
        Reflector::B,
        Reflector::C,
        Reflector::BThin,
        Reflector::CThin,
        Reflector::Ukwr,
        Reflector::Ukwk,
    ];
    for reflector in all {
        let table = reflector.alphabet();
        assert_eq!(26, table.len());
        for (place, turned) in table.iter().enumerate() {
            let letter = (b'A' + place as u8) as char;
            assert_ne!(letter, *turned);
            assert_eq!(letter, table[(*turned as u8 - b'A') as usize]);
        }
    }
    assert_eq!('Y', Reflector::B.alphabet()[0]);
    assert_eq!('E', Reflector::A.alphabet()[0]);
    assert_eq!(Ok(Reflector::B), Reflector::try_from("b"));
    assert_eq!(Ok(Reflector::BThin), Reflector::try_from("BTHIN"));
    assert_eq!(Ok(Reflector::Ukwk), Reflector::try_from("UkwK"));
    assert_eq!(Err(CipherError::InvalidConfiguration), Reflector::try_from("D"));
    assert_eq!(Err(CipherError::InvalidConfiguration), Reflector::try_from(""));
    assert_eq!(Reflector::CThin, Reflector::unchecked_from("CThin"));
    assert_eq!(Reflector::Ukwr, Reflector::unchecked_from("UKWR"));
}

#[test]
fn plugboards_and_options() {
    let board = parse_plugboard("AZ BY").unwrap();
    assert_eq!(25, board[0]);
    assert_eq!(0, board[25]);
    assert_eq!(24, board[1]);
    assert_eq!(2, board[2]);
    let empty = parse_plugboard(" \n ").unwrap();
    for (place, to) in empty.iter().enumerate() {
        assert_eq!(place as u8, *to);
    }
    assert!(matches!(parse_plugboard("A"), Err(CipherError::InvalidConfiguration)));
    assert!(matches!(parse_plugboard("AB CA"), Err(CipherError::InvalidConfiguration)));
    assert!(matches!(parse_plugboard("A1"), Err(CipherError::InvalidConfiguration)));
    let options = MachineOptions::default();
    assert!(!options.clear_casing && !options.clear_punctuation && !options.debug);
}
