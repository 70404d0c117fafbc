use cipher_cracker::base64::Base64;
use cipher_cracker::columnar_transposition::ColumnarTransposition;
use cipher_cracker::error::CipherError;
use cipher_cracker::hex::HexCipher;
use cipher_cracker::octal::OctalCipher;

#[test]
fn octal_round_trip() {
    assert_eq!("110 151 041", OctalCipher::encrypt("Hi!"));
    assert_eq!("Hi!", OctalCipher::decrypt("110 151 041").unwrap());
    assert_eq!("Hi!", OctalCipher::decrypt("  +110\t151\n41 ").unwrap());
    assert_eq!("", OctalCipher::encrypt(""));
    assert_eq!("", OctalCipher::decrypt("").unwrap());
    assert_eq!("\u{ff}", OctalCipher::decrypt("377").unwrap());
    assert_eq!("351", OctalCipher::encrypt("\u{e9}"));
    assert_eq!("254", OctalCipher::encrypt("\u{20ac}"));
}

#[test]
fn octal_rejects_what_is_no_numeral() {
    assert!(matches!(OctalCipher::decrypt("118"), Err(CipherError::InvalidArgument)));
    assert!(matches!(OctalCipher::decrypt("400"), Err(CipherError::InvalidArgument)));
    assert!(matches!(OctalCipher::decrypt("+"), Err(CipherError::InvalidArgument)));
    assert!(matches!(OctalCipher::decrypt("-1"), Err(CipherError::InvalidArgument)));
    assert!(matches!(OctalCipher::decrypt("110 x"), Err(CipherError::InvalidArgument)));
}

#[test]
fn hex_round_trip() {
    assert_eq!("048 069 021", HexCipher::encrypt("Hi!"));
    assert_eq!("Hi!", HexCipher::decrypt("048 069 021").unwrap());
    assert_eq!("Jz", HexCipher::decrypt("4A 7a").unwrap());
    assert_eq!("\u{ff}", HexCipher::decrypt("0ff").unwrap());
    assert!(matches!(HexCipher::decrypt("100"), Err(CipherError::InvalidArgument)));
    assert!(matches!(HexCipher::decrypt("4g"), Err(CipherError::InvalidArgument)));
    let text = "The quick brown fox.";
    assert_eq!(text, HexCipher::decrypt(&HexCipher::encrypt(text)).unwrap());
    assert_eq!(text, OctalCipher::decrypt(&OctalCipher::encrypt(text)).unwrap());
}

#[test]
fn base64_known_vectors() {
    assert_eq!("", Base64::encrypt(""));
    assert_eq!("TQ==", Base64::encrypt("M"));
    assert_eq!("TWE=", Base64::encrypt("Ma"));
    assert_eq!("TWFu", Base64::encrypt("Man"));
    assert_eq!("TWFueSBoYW5kcyBtYWtlIGxpZ2h0IHdvcmsu", Base64::encrypt("Many hands make light work."));
    assert_eq!("+/+/", Base64::encrypt("\u{fb}\u{ff}\u{bf}"));
    assert_eq!("M", Base64::decrypt("TQ==").unwrap());
    assert_eq!("Ma", Base64::decrypt("TWE=").unwrap());
    assert_eq!("Man", Base64::decrypt("TWFu").unwrap());
    assert_eq!("Many hands make light work.", Base64::decrypt("TWFueSBo YW5kcyBt\nYWtlIGxp\tZ2h0IHdvcmsu").unwrap());
    assert_eq!("\u{fb}\u{ff}\u{bf}", Base64::decrypt("+/+/").unwrap());
}

#[test]
fn base64_edges() {
    assert_eq!("", Base64::decrypt("").unwrap());
    assert_eq!("M", Base64::decrypt("TQ").unwrap());
    assert_eq!("Ma", Base64::decrypt("TWE").unwrap());
    assert_eq!("", Base64::decrypt("T").unwrap());
    assert_eq!("", Base64::decrypt("====").unwrap());
    assert_eq!("", Base64::decrypt("A==A").unwrap());
    assert!(matches!(Base64::decrypt("T=QQ"), Err(CipherError::InvalidArgument)));
    assert!(matches!(Base64::decrypt("==AA"), Err(CipherError::InvalidArgument)));
    assert!(matches!(Base64::decrypt("TW*u"), Err(CipherError::InvalidArgument)));
    assert!(matches!(Base64::decrypt("TWFu-"), Err(CipherError::InvalidArgument)));
}

#[test]
fn columnar_reads_columns_in_key_order() {
    let cipher = ColumnarTransposition::from_key_digits(&[1, 0, 2, 7, 1, 9, 7, 9]);
    assert_eq!("BJAIEMCKDLGOFNHP", cipher.encrypt("ABCDEFGHIJKLMNOP"));
    assert_eq!("BAC", cipher.encrypt("ABC"));
    assert_eq!("", cipher.encrypt(""));
    let worded = ColumnarTransposition::new("ZEBRA");
    assert_eq!("EODASREIEARCEWDVF", worded.encrypt("WEAREDISCOVEREDFA"));
    assert_eq!("", ColumnarTransposition::from_key_digits(&[]).encrypt(""));
}
