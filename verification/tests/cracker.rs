use cipher_cracker::dictionary::Dictionary;
use cipher_cracker::error::CipherError;
use cipher_cracker::gronsfeld::{Gronsfeld, GronsfeldBuilder};
use cipher_cracker::gronsfeld_cracker::GronsfeldCracker;

fn common_words() -> Dictionary {
    Dictionary::new(
        "\
        the of and to a in for is on that by this with i you it not or be are from at as your \
        all have new more an was we will home can us about if page my has search free but our \
        one other do no information time they site he up may what which their news out use any \
        there see only so his when contact here business who web also now help get pm view \
        online first am been would how were me services some these click its like service than \
        find price date back top people had list name just over state year day into email two \
        health world next used go work last most products music buy data make them should \
        product system post her city add policy number such please available support message \
        after best software then good video well where info rights public books high school \
        through each links she years order very privacy book items company read group need many \
        user said does set under general research university january mail full map program life \
        know games way days management part could great united hotel real item international \
        center must store travel comments made development report off member details line terms \
        before hotels did send right type because local those using results office education \
        national car design take posted internet address community within states area want phone \
        shipping reserved subject between forum family long based show even black special prices \
        website index being much sign file link open today technology south project same pages \
        section own found sports house related security both county american photo game members \
        power while care network down computer systems three total place end following download \
        him without per access think north resources current posts big media law dear friend \
        hope letter finds weather week working garden every morning write soon tell children \
        love hear going wishes holiday",
    )
}

const LETTER: &str = "Dear friend, I hope this letter finds you well. The weather here has been very good this week and we have been working in the garden every morning. Please write back soon and tell me about your new house and the children. I would love to hear how the school year is going for them. With all my love and best wishes for the holiday.";

#[test]
fn decrypt_with_known_alphabet_and_key_digits() {
    let alphabet = "AYCDWZIHGJKLQNOPMVSTXREUBF";
    let ciphertext = Gronsfeld::new().alphabet(alphabet).key(3481324).build().unwrap().encrypt(LETTER).unwrap();
    let plaintext = LETTER;

    let gronsfeld = GronsfeldCracker::new()
        .with_known_alphabet("AYCDWZIHGJKLQNOPMVSTXREUBF")
        .with_known_key_digits(&[1, 2, 3, 3, 4, 4, 8]);

    assert_eq!(plaintext, gronsfeld.decrypt(&ciphertext, &common_words()).unwrap());
}

#[test]
fn lib_decrypt_with_known_alphabet_and_key_digits() {
    let alphabet = "AYCDWZIHGJKLQNOPMVSTXREUBF";
    let ciphertext = Gronsfeld::new().alphabet(alphabet).key(8443321).build().unwrap().encrypt(LETTER).unwrap();
    let plaintext = LETTER;

    let gronsfeld = GronsfeldCracker::new()
        .with_known_alphabet("AYCDWZIHGJKLQNOPMVSTXREUBF")
        .with_known_key_digits(&[1, 2, 3, 3, 4, 4, 8]);

    assert_eq!(plaintext, gronsfeld.decrypt(&ciphertext, &common_words()).unwrap());
}

#[test]
fn encrypt_decrypt() {}

#[test]
fn gronsfeld_cracker_needs_alphabet_and_digits() {
    let words = common_words();
    assert!(matches!(GronsfeldCracker::new().decrypt("abc", &words), Err(CipherError::EmptyKeyOrAlphabet)));
    assert!(matches!(
        GronsfeldCracker::new().with_known_alphabet("ABC").decrypt("abc", &words),
        Err(CipherError::InvalidAlphabet)
    ));
    assert!(matches!(
        GronsfeldCracker::new().with_known_alphabet("ABCDEFGHIJKLMNOPQRSTUVWXYZ").with_known_key_digits(&[]).decrypt("abc", &words),
        Err(CipherError::InvalidArgument)
    ));
    assert!(matches!(
        GronsfeldCracker::new().with_known_alphabet("ABCDEFGHIJKLMNOPQRSTUVWXYZ").with_known_key_digits(&[1, 12]).decrypt("abc", &words),
        Err(CipherError::InvalidArgument)
    ));
    assert!(matches!(
        GronsfeldCracker::new().with_known_alphabet("ABCDEFGHIJKLMNOPQRSTUVWXYZ").with_known_key_digits(&[1, 2]).decrypt("caf\u{e9}", &words),
        Err(CipherError::CharacterNotInAlphabet)
    ));
}

#[test]
fn gronsfeld_cracker_single_arrangement() {
    let words = common_words();
    let cracker = GronsfeldCracker::new().with_known_alphabet("ABCDEFGHIJKLMNOPQRSTUVWXYZ").with_known_key_digits(&[3, 3]);
    assert_eq!("the letter", cracker.decrypt("wkh ohwwhu", &words).unwrap());
}
