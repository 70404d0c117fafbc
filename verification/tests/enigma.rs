use cipher_cracker::enigma::machine::{EnigmaBuilder, EnigmaMachine};
use cipher_cracker::enigma::unchecked::UncheckedEnigmaBuilder;
use cipher_cracker::error::CipherError;

#[test]
fn encrypt_and_decrypt() {
    let ciphertext = "KDZVKMNTYQJPHFXI";
    let plaintext = "TOPSECRETMESSAGE";

    let machine = EnigmaMachine::new()
        .rotors(1, 2, 3)
        .reflector("B")
        .ring_settings(10, 12, 14)
        .ring_positions(5, 22, 3)
        .plugboard("BY EW FZ GI QM RV UX")
        .unwrap();

    let unchecked_machine = EnigmaMachine::unchecked()
        .rotors(1, 2, 3)
        .reflector("B")
        .ring_settings(10, 12, 14)
        .ring_positions(5, 22, 3)
        .plugboard("BY EW FZ GI QM RV UX")
        .build();

    assert_eq!(plaintext, machine.decrypt(ciphertext));
    assert_eq!(plaintext, unchecked_machine.decrypt_unchecked(ciphertext));

    assert_eq!(ciphertext, machine.encrypt(plaintext));
    assert_eq!(ciphertext, unchecked_machine.encrypt_unchecked(plaintext));
}

#[test]
fn debug_information() {
    let ciphertext = "HI";

    let machine = EnigmaMachine::new()
        .rotors(1, 2, 3)
        .reflector("B")
        .ring_settings(10, 12, 14)
        .ring_positions(5, 22, 3)
        .plugboard("BY EW FZ GI QM RV UX")
        .debug()
        .unwrap();

    assert_eq!("IJ", machine.decrypt(ciphertext));
}

#[test]
fn enigma_round_trip_returns_capitals() {
    let machine = EnigmaMachine::new()
        .rotors(5, 8, 3)
        .reflector("ukwk")
        .ring_settings(1, 26, 7)
        .ring_positions(26, 1, 13)
        .plugboard("AZ BY")
        .unwrap();
    let text = "Hello, World 42!";
    let once = machine.encrypt(text);
    assert_eq!(once, machine.decrypt(text));
    assert_eq!("HELLO, WORLD 42!", machine.decrypt(&once));
    for (plain, cipher) in "HELLOWORLD".chars().zip(once.chars().filter(|c| c.is_ascii_uppercase())) {
        assert_ne!(plain, cipher);
    }
}

#[test]
fn enigma_rejects_invalid_settings() {
    assert!(matches!(EnigmaMachine::new().rotors(0, 1, 2), Err(CipherError::InvalidConfiguration)));
    assert!(matches!(EnigmaMachine::new().rotors(1, 9, 2), Err(CipherError::InvalidConfiguration)));
    assert!(matches!(EnigmaMachine::new().reflector("D"), Err(CipherError::InvalidConfiguration)));
    assert!(matches!(EnigmaMachine::new().ring_settings(0, 1, 1), Err(CipherError::InvalidConfiguration)));
    assert!(matches!(EnigmaMachine::new().ring_settings(1, 27, 1), Err(CipherError::InvalidConfiguration)));
    assert!(matches!(EnigmaMachine::new().ring_positions(1, 1, 27), Err(CipherError::InvalidConfiguration)));
    assert!(matches!(EnigmaMachine::new().plugboard("AB BC"), Err(CipherError::InvalidConfiguration)));
    assert!(matches!(EnigmaMachine::new().plugboard("ABC"), Err(CipherError::InvalidConfiguration)));
    assert!(matches!(EnigmaMachine::new().plugboard("AA"), Err(CipherError::InvalidConfiguration)));
    assert!(matches!(EnigmaMachine::new().plugboard("ab"), Err(CipherError::InvalidConfiguration)));
    assert!(EnigmaMachine::new().plugboard("").is_ok());
    assert!(EnigmaMachine::new().plugboard("  AB\tCD\n").is_ok());
}

#[test]
fn enigma_failure_is_handed_on() {
    let failed = EnigmaMachine::new().rotors(9, 9, 9);
    assert!(matches!(failed.reflector("B").ring_settings(1, 1, 1).plugboard("AB").debug(), Err(CipherError::InvalidConfiguration)));
}
