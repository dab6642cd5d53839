use rpkg_rs::encryption::xtea::{Xtea, XteaError};

const TEST_STRING: &str = "Lorem ipsum dolor sit amet consectetur adipisicing elit. Maxime mollitia";

#[test]
fn test_xtea_text_encoding() {
    let encrypted = Xtea::encrypt_text_file(TEST_STRING.to_string()).unwrap();
    let decrypted = Xtea::decrypt_text_file(encrypted.as_slice()).unwrap();

    assert_eq!(TEST_STRING, decrypted);
}

#[test]
fn test_xtea_string_encoding_default() {
    let encrypted = Xtea::encrypt_string(TEST_STRING.to_string(), &Xtea::DEFAULT_KEY).unwrap();
    let decrypted = Xtea::decrypt_string(encrypted.as_slice(), &Xtea::DEFAULT_KEY).unwrap();

    assert_eq!(TEST_STRING, decrypted);
}

#[test]
fn test_xtea_string_encoding_locr() {
    let encrypted = Xtea::encrypt_string(TEST_STRING.to_string(), &Xtea::LOCR_KEY).unwrap();
    let decrypted = Xtea::decrypt_string(encrypted.as_slice(), &Xtea::LOCR_KEY).unwrap();

    assert_eq!(TEST_STRING, decrypted);
}

#[test]
fn encrypted_text_file_starts_with_the_header() {
    let encrypted = Xtea::encrypt_text_file(TEST_STRING.to_string()).unwrap();
    let header: [u8; 16] = [
        0x22, 0x3d, 0x6f, 0x9a, 0xb3, 0xf8, 0xfe, 0xb6, 0x61, 0xd9, 0xcc, 0x1c, 0x62, 0xde, 0x83,
        0x41,
    ];
    assert_eq!(&encrypted[..16], &header);
    assert!(Xtea::is_encrypted_text_file(&encrypted));
    assert!(!Xtea::is_encrypted_text_file(TEST_STRING.as_bytes()));
    // 72 bytes of text are whole blocks already: header, checksum, cipher text.
    assert_eq!(encrypted.len(), 16 + 4 + 72);
    // The cipher text is not the plain text.
    assert_ne!(&encrypted[20..], TEST_STRING.as_bytes());
}

#[test]
fn encrypt_string_pads_to_whole_blocks() {
    let encrypted = Xtea::encrypt_string("abc".to_string(), &Xtea::DEFAULT_KEY).unwrap();
    assert_eq!(encrypted.len(), 8);
    let decrypted = Xtea::decrypt_string(&encrypted, &Xtea::DEFAULT_KEY).unwrap();
    assert_eq!(decrypted, "abc\0\0\0\0\0");
}

#[test]
fn decrypt_text_file_rejects_bad_input() {
    assert!(matches!(
        Xtea::decrypt_text_file(&[0u8; 10]),
        Err(XteaError::InvalidInput(_))
    ));
    assert!(matches!(
        Xtea::decrypt_text_file(&[0u8; 28]),
        Err(XteaError::InvalidInput(_))
    ));
    let mut encrypted = Xtea::encrypt_text_file(TEST_STRING.to_string()).unwrap();
    // A checksum that is not that of the text.
    encrypted[16] ^= 0xff;
    assert!(matches!(
        Xtea::decrypt_text_file(&encrypted),
        Err(XteaError::InvalidInput(_))
    ));
    encrypted[16] ^= 0xff;
    // No whole number of blocks.
    encrypted.push(0);
    assert!(matches!(
        Xtea::decrypt_text_file(&encrypted),
        Err(XteaError::InvalidInput(_))
    ));
    assert!(matches!(
        Xtea::decrypt_string(&[1, 2, 3], &Xtea::DEFAULT_KEY),
        Err(XteaError::InvalidInput(_))
    ));
}

#[test]
fn encrypted_text_comes_back_with_its_padding() {
    // Whole blocks come back as they went in.
    let whole = "sixteen bytes ok".to_string();
    let file = Xtea::encrypt_text_file(whole.clone()).unwrap();
    assert_eq!(file.len(), 20 + 16);
    assert_eq!(Xtea::decrypt_text_file(&file).unwrap(), whole);
    // Other texts come back with the NUL characters that filled their last block.
    let text = "héllo".to_string();
    let file = Xtea::encrypt_text_file(text.clone()).unwrap();
    assert_eq!(file.len(), 20 + 8);
    assert_eq!(Xtea::decrypt_text_file(&file).unwrap(), "héllo\0\0");
    // NUL characters at the end of the text are taken off before.
    let file = Xtea::encrypt_text_file("abc\0\0\0\0\0\0".to_string()).unwrap();
    assert_eq!(file.len(), 20 + 8);
    assert_eq!(Xtea::decrypt_text_file(&file).unwrap(), "abc\0\0\0\0\0");

    let cipher = Xtea::encrypt_string("nine chars".to_string(), &Xtea::LOCR_KEY).unwrap();
    assert_eq!(cipher.len(), 16);
    assert_eq!(
        Xtea::decrypt_string(&cipher, &Xtea::LOCR_KEY).unwrap(),
        "nine chars\0\0\0\0\0\0"
    );
    assert_eq!(Xtea::encrypt_string(String::new(), &Xtea::LOCR_KEY).unwrap().len(), 0);
}
