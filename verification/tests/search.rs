use cipher_cracker::analysis::index_of_coincidence;
use cipher_cracker::base64::Base64;
use cipher_cracker::cipher_cracker::CipherCracker;
use cipher_cracker::dictionary::Dictionary;
use cipher_cracker::enigma::cracker::best_ring_settings;
use cipher_cracker::enigma::machine::{EnigmaBuilder, EnigmaMachine};
use cipher_cracker::error::CipherError;
use cipher_cracker::gronsfeld::{Gronsfeld, GronsfeldBuilder};
use cipher_cracker::gronsfeld_cracker::GronsfeldCracker;
use cipher_cracker::one_time_pad::OneTimePad;
use cipher_cracker::running_key::{RunningKey, RunningKeyBuilder};
use cipher_cracker::score::coincidence_score;

fn search_words() -> Dictionary {
    Dictionary::new(
        "\
        the of and to a in for is on that by this with i you it not or be are from at as your \
        all have new more an was we will home can us about if page my has search free but our \
        one other do no information time they site he up may what which their news out use any \
        there see only so his when contact here business who web also now help get pm view \
        online first am been would how were me services some these click its like service than \
        find price date back top people had list name just over state year day into email two \
        health world next used go work last most products music buy data make them should \
        product system post her city add policy number such please available support message \
        after best software then good video well where info rights public books high school \
        through each links she years order very privacy book items company read group need many \
        user said does set under general research university january mail full map program life \
        know games way days management part could great united hotel real item international \
        center must store travel comments made development report off member details line terms \
        before hotels did send right type because local those using results office education \
        national car design take posted internet address community within states area want phone \
        shipping reserved subject between forum family long based show even black special prices \
        website index being much sign file link open today technology south project same pages \
        section own found sports house related security both county american photo game members \
        power while care network down computer systems three total place end following download \
        him without per access think north resources current posts big media law dear friend \
        hope letter finds weather week working garden every morning write soon tell children \
        love hear going wishes holiday",
    )
}

const SEARCH_LETTER: &str = "Dear friend, I hope this letter finds you well. The weather here has been very good this week and we have been working in the garden every morning. Please write back soon and tell me about your new house and the children. I would love to hear how the school year is going for them. With all my love and best wishes for the holiday.";


#[test]
fn cracker_peels_base64() {
    let words = search_words();
    let cracker = CipherCracker::new();
    let once = Base64::encrypt(SEARCH_LETTER);
    assert_eq!(SEARCH_LETTER, cracker.crack(&once, &words, 3).unwrap());
    assert_eq!(SEARCH_LETTER, cracker.crack(&once, &words, 1).unwrap());
    assert!(matches!(cracker.crack(&once, &words, 0), Err(CipherError::SearchExhausted)));
}

#[test]
fn cracker_reports_what_it_cannot_decrypt() {
    let words = search_words();
    let cracker = CipherCracker::new().with_known_key("KEY").with_known_alphabet("ABCDEFGHIJKLMNOPQRSTUVWXYZ").unwrap();
    assert!(matches!(cracker.crack("... --- ...", &words, 3), Err(CipherError::UnsupportedCipherType)));
    assert!(matches!(cracker.crack("DEADBEEF", &words, 3), Err(CipherError::UnsupportedCipherType)));
    assert!(matches!(cracker.crack("101", &words, 3), Err(CipherError::UnsupportedCipherType)));
    assert!(matches!(cracker.crack("1017", &words, 3), Err(CipherError::InvalidArgument)));
    assert!(matches!(cracker.crack("QUJD*", &words, 3), Err(CipherError::InvalidArgument)));
    assert!(matches!(cracker.crack("QQ==", &words, 1), Err(CipherError::SearchExhausted)));
    assert!(matches!(CipherCracker::new().with_known_alphabet("ABC"), Err(CipherError::InvalidAlphabet)));
}

#[test]
fn gronsfeld_search_without_key() {
    let words = search_words();
    let ciphertext = Gronsfeld::new().alphabet("ABCDEFGHIJKLMNOPQRSTUVWXYZ").key(31).build().unwrap().encrypt(SEARCH_LETTER).unwrap();
    let cracker = GronsfeldCracker::new().with_known_alphabet("abcdefghijklmnopqrstuvwxyz");
    assert_eq!(SEARCH_LETTER, cracker.decrypt(&ciphertext, &words).unwrap());
    let ioc = index_of_coincidence(&ciphertext);
    assert!(4 * ioc.denominator <= 100 * ioc.numerator && 100 * ioc.numerator <= 5 * ioc.denominator);
    assert_eq!(SEARCH_LETTER, CipherCracker::new().crack(&ciphertext, &words, 1).unwrap());
}

#[test]
fn one_time_pad_round_trip() {
    let text = "Attack at dawn, all 3 of you!";
    let (ciphertext, decryptor) = OneTimePad::encrypt(text).unwrap();
    assert_eq!(text.chars().count(), ciphertext.chars().count());
    for (plain, cipher) in text.chars().zip(ciphertext.chars()) {
        assert_eq!(plain.is_ascii_alphabetic(), cipher.is_ascii_alphabetic());
        assert_eq!(plain.is_ascii_uppercase(), cipher.is_ascii_uppercase());
        if !plain.is_ascii_alphabetic() {
            assert_eq!(plain, cipher);
        }
    }
    assert_eq!(text, decryptor.decrypt(&ciphertext).unwrap());
    assert!(matches!(OneTimePad::encrypt(""), Err(CipherError::EmptyKeyOrAlphabet)));
    assert!(matches!(OneTimePad::encrypt("caf\u{e9}"), Err(CipherError::CharacterNotInAlphabet)));
    let (first, _) = OneTimePad::encrypt("aaaaaaaaaaaaaaaaaaaaaaaaaaaaaaaaaaaaaaaaaaaaaaaaaaaaaaaaaaaaaaaa").unwrap();
    assert!(first.chars().any(|c| c != first.chars().next().unwrap()));
}

#[test]
fn running_key_needs_a_long_key() {
    let cipher = RunningKey::new().alphabet("ABCDEFGHIJKLMNOPQRSTUVWXYZ").key("LEMONLEMONLE").build().unwrap();
    assert_eq!("LXFOPVEFRNHR", cipher.encrypt("ATTACKATDAWN").unwrap());
    assert_eq!("ATTACKATDAWN", cipher.decrypt("LXFOPVEFRNHR").unwrap());
    assert_eq!("Lx fo!", cipher.encrypt("At ta!").unwrap());
    assert!(matches!(cipher.encrypt("ATTACKATDAWNS"), Err(CipherError::InvalidArgument)));
    assert!(matches!(cipher.decrypt("ATTACK AT DAWN"), Err(CipherError::InvalidArgument)));
    assert!(matches!(cipher.encrypt("\u{e9}t\u{e9}"), Err(CipherError::CharacterNotInAlphabet)));
    assert!(matches!(cipher.encrypt("\u{20ac}\u{20ac}\u{20ac}\u{20ac}\u{20ac}"), Err(CipherError::InvalidArgument)));
    assert!(matches!(RunningKey::new().key("K").build(), Err(CipherError::EmptyKeyOrAlphabet)));
}

#[test]
fn enigma_ring_search_finds_the_fittest() {
    let ciphertext = "KDZVKMNTYQJPHFXI";
    let found = best_ring_settings("B", "BY EW FZ GI QM RV UX", (1, 2, 3), (5, 22, 3), ciphertext).unwrap();
    let fitness = |rings: (u8, u8, u8)| {
        let machine = EnigmaMachine::new()
            .rotors(1, 2, 3)
            .reflector("B")
            .ring_settings(rings.0, rings.1, rings.2)
            .ring_positions(5, 22, 3)
            .plugboard("BY EW FZ GI QM RV UX")
            .unwrap();
        coincidence_score(&machine.decrypt(ciphertext)).unwrap()
    };
    let best = fitness(found);
    for first in [1, 7, 10, 26] {
        for second in [1, 12, 26] {
            for third in 1..=26 {
                let other = fitness((first, second, third));
                assert!(other <= best);
                if other == best {
                    assert!(found <= (first, second, third));
                }
            }
        }
    }
    assert!(matches!(
        best_ring_settings("Z", "BY", (1, 2, 3), (1, 1, 1), ciphertext),
        Err(CipherError::InvalidConfiguration)
    ));
    assert!(matches!(
        best_ring_settings("B", "BYE", (1, 2, 3), (1, 1, 1), ciphertext),
        Err(CipherError::InvalidConfiguration)
    ));
    assert!(matches!(
        best_ring_settings("B", "BY", (0, 2, 3), (1, 1, 1), ciphertext),
        Err(CipherError::InvalidConfiguration)
    ));
    assert!(matches!(
        best_ring_settings("B", "BY", (1, 2, 3), (1, 27, 1), ciphertext),
        Err(CipherError::InvalidConfiguration)
    ));
}
