use cipher_cracker::alphabet::{Alphabet, AlphabetIndex};
use cipher_cracker::error::CipherError;
use cipher_cracker::gronsfeld::{Gronsfeld, GronsfeldBuilder};
use cipher_cracker::porta::{Porta, PortaBuilder};
use cipher_cracker::tabula_recta::{tabula_recta, TabulaRecta};
use cipher_cracker::vigenere::{Vigenere, VigenereBuilder};

#[test]
fn lib_encrypt_decrypt() {
    let ciphertext = "Xtbae hvxaf gvpxe xge jrfu, gppxflbfude czjblriqok bopb, raj wm bjiutsj xbssua jvghzgiise yf qcavwy fu jpnmbz rdqty cnjrcd. Yf upgt jg tkths tfeldx, sbgx muuefdw befwhjuixgmm imowedm ndhtbkb ogxj ib dpqnfgs zf fw gpssvqt zsttboajb. Iyqt cfez lbyyu zmoua jv yuvufmymhcegr je evpdmrcez efpqx bxrz hjpvbs zvxtba cb yflpze vdqnc sjajwfbu. Bulysucbu xjeb vigybwdc hatqwcrdc svv remgizse, edor gm lcoti nfg vgwjiqy zbrzaavf vmnopb dvqv gz fyb owwpuft.";
    let plaintext = "Lorem ipsum dolor sit amet, consectetur adipiscing elit, sed do eiusmod tempor incididunt ut labore et dolore magna aliqua. Ut enim ad minim veniam, quis nostrud exercitation ullamco laboris nisi ut aliquip ex ea commodo consequat. Duis aute irure dolor in reprehenderit in voluptate velit esse cillum dolore eu fugiat nulla pariatur. Excepteur sint occaecat cupidatat non proident, sunt in culpa qui officia deserunt mollit anim id est laborum.";
    let alphabet = "AYCDWZIHGJKLQNOPMVSTXREUBF";
    let key = 953461223;

    let gronsfeld = Gronsfeld::new().alphabet(alphabet).key(key).build().unwrap();

    assert_eq!(ciphertext, gronsfeld.encrypt(plaintext).unwrap());
    assert_eq!(plaintext, gronsfeld.decrypt(ciphertext).unwrap());
}

#[test]
fn tabula_recta_print_tabula_recta() {
    let alphabet = Alphabet::default();
    let tabula_recta = tabula_recta(&alphabet);

    for row in 1..=26 {
        let mut line = String::new();
        for column in 1..=26 {
            let row_character = alphabet.letter_at(AlphabetIndex::new(row).unwrap());
            let column_character = alphabet.letter_at(AlphabetIndex::new(column).unwrap());
            line.push(*tabula_recta.at(row_character, column_character).unwrap());
        }
        println!("{}", line)
    }
}

#[test]
fn lib_print_tabula_recta() {
    let alphabet = Alphabet::default();
    let tabula_recta = tabula_recta(&alphabet);

    for row in 1..=26 {
        let mut line = String::new();
        for column in 1..=26 {
            let row_character = alphabet.letter_at(AlphabetIndex::new(row).unwrap());
            let column_character = alphabet.letter_at(AlphabetIndex::new(column).unwrap());
            line.push(*tabula_recta.at(row_character, column_character).unwrap());
        }
        println!("{}", line)
    }
}

#[test]
fn tabula_recta_rows_are_turns_of_the_alphabet() {
    let alphabet = Alphabet::default();
    let table = tabula_recta(&alphabet);
    assert_eq!(Some(&'A'), table.at(&'A', &'A'));
    assert_eq!(Some(&'X'), table.at(&'L', &'M'));
    assert_eq!(Some(&'Y'), table.at(&'Z', &'Z'));
    assert_eq!(None, table.at(&'a', &'A'));
    assert_eq!(None, table.at(&'A', &'1'));
}

#[test]
fn vigenere_textbook_vector() {
    let vigenere = Vigenere::new().alphabet("ABCDEFGHIJKLMNOPQRSTUVWXYZ").key("LEMON").build().unwrap();
    assert_eq!("LXFOPVEFRNHR", vigenere.encrypt("ATTACKATDAWN").unwrap());
    assert_eq!("ATTACKATDAWN", vigenere.decrypt("LXFOPVEFRNHR").unwrap());
}

#[test]
fn vigenere_keeps_case_and_punctuation() {
    let vigenere = Vigenere::new().key("lemon").alphabet("abcdefghijklmnopqrstuvwxyz").build().unwrap();
    assert_eq!("Lxfopv, ef Rnhr!", vigenere.encrypt("Attack, at Dawn!").unwrap());
    assert_eq!("Attack, at Dawn!", vigenere.decrypt("Lxfopv, ef Rnhr!").unwrap());
}

#[test]
fn vigenere_reports_letters_outside_the_alphabet() {
    let vigenere = Vigenere::new().alphabet("ABCDEFGHIJKLMNOPQRSTUVWXYZ").key("KEY").build().unwrap();
    assert!(matches!(vigenere.encrypt("caf\u{e9}"), Err(CipherError::CharacterNotInAlphabet)));
    let odd_key = Vigenere::new().alphabet("ABCDEFGHIJKLMNOPQRSTUVWXYZ").key("K3Y").build().unwrap();
    assert!(matches!(odd_key.encrypt("ab"), Err(CipherError::CharacterNotInAlphabet)));
    assert_eq!("k", odd_key.encrypt("a").unwrap());
}

#[test]
fn builders_hand_failures_on() {
    assert!(matches!(Vigenere::new().key("KEY").build(), Err(CipherError::EmptyKeyOrAlphabet)));
    assert!(matches!(
        Vigenere::new().alphabet("ABCDEFGHIJKLMNOPQRSTUVWXYZ").build(),
        Err(CipherError::EmptyKeyOrAlphabet)
    ));
    assert!(matches!(
        Vigenere::new().alphabet("ABCDEFGHIJKLMNOPQRSTUVWXYZ").key("").build(),
        Err(CipherError::EmptyKeyOrAlphabet)
    ));
    assert!(matches!(Vigenere::new().alphabet("ABC").key("KEY").build(), Err(CipherError::InvalidAlphabet)));
    assert!(matches!(Gronsfeld::new().key(7).build(), Err(CipherError::EmptyKeyOrAlphabet)));
    assert!(matches!(
        Gronsfeld::new().alphabet("ABCDEFGHIJKLMNOPQRSTUVWXYZ").build(),
        Err(CipherError::EmptyKeyOrAlphabet)
    ));
    assert!(matches!(
        Gronsfeld::new().alphabet("AABCDEFGHIJKLMNOPQRSTUVWXY").key(1).build(),
        Err(CipherError::InvalidAlphabet)
    ));
    assert!(matches!(
        Gronsfeld::new().alphabet("ABCDEFGHIJKLMNOPQRSTUVWXYZ").key_str("12a").build(),
        Err(CipherError::InvalidArgument)
    ));
    assert!(matches!(
        Gronsfeld::new().alphabet("ABCDEFGHIJKLMNOPQRSTUVWXYZ").key_str("").build(),
        Err(CipherError::InvalidArgument)
    ));
    assert!(matches!(
        Gronsfeld::new()
            .alphabet("ABCDEFGHIJKLMNOPQRSTUVWXYZ")
            .key_str("340282366920938463463374607431768211456")
            .build(),
        Err(CipherError::InvalidArgument)
    ));
}

#[test]
fn gronsfeld_key_from_numeral() {
    let a = Gronsfeld::new().alphabet("ABCDEFGHIJKLMNOPQRSTUVWXYZ").key_str("+0031").build().unwrap();
    let b = Gronsfeld::new().alphabet("ABCDEFGHIJKLMNOPQRSTUVWXYZ").key(31).build().unwrap();
    assert_eq!("DCFE, z", a.encrypt("ABCD, w").unwrap());
    assert_eq!(a.encrypt("Hello").unwrap(), b.encrypt("Hello").unwrap());
    assert_eq!("ABCD, w", a.decrypt("DCFE, z").unwrap());
    let zero = Gronsfeld::new().alphabet("ABCDEFGHIJKLMNOPQRSTUVWXYZ").key(0).build().unwrap();
    assert_eq!("Same", zero.encrypt("Same").unwrap());
    assert!(matches!(b.encrypt("\u{e9}"), Err(CipherError::CharacterNotInAlphabet)));
}

#[test]
fn porta_is_built_like_the_others() {
    assert!(Porta::new().key("KEY").alphabet("ABCDEFGHIJKLMNOPQRSTUVWXYZ").build().is_ok());
    assert!(matches!(Porta::new().key("KEY").build(), Err(CipherError::EmptyKeyOrAlphabet)));
    assert!(matches!(Porta::new().alphabet("ABCDEFGHIJKLMNOPQRSTUVWXYZ").build(), Err(CipherError::EmptyKeyOrAlphabet)));
    assert!(matches!(Porta::new().alphabet("ABC").key("KEY").build(), Err(CipherError::InvalidAlphabet)));
}
