use cipher_crypt::{Cipher, Vigenere};
#[test]
fn vigenere_encrypt_test() {
    let message = "attackatdawn";
    let v = Vigenere::new(String::from("lemon")).unwrap();
    assert_eq!("lxfopvefrnhr", v.encrypt(message).unwrap());
}

#[test]
fn vigenere_decrypt_test() {
    let ciphertext = "lxfopvefrnhr";
    let v = Vigenere::new(String::from("lemon")).unwrap();
    assert_eq!("attackatdawn", v.decrypt(ciphertext).unwrap());
}

#[test]
fn vigenere_mixed_case() {
    let message = "Attack at Dawn!";
    let v = Vigenere::new(String::from("giovan")).unwrap();

    let ciphertext = v.encrypt(message).unwrap();
    let plain_text = v.decrypt(&ciphertext).unwrap();

    assert_eq!(plain_text, message);
}

#[test]
fn vigenere_with_utf8() {
    let v = Vigenere::new(String::from("utfeightisfun")).unwrap();
    let message = "Peace 🗡️ Freedom and Liberty!";
    let encrypted = v.encrypt(message).unwrap();
    let decrypted = v.decrypt(&encrypted).unwrap();

    assert_eq!(decrypted, message);
}

#[test]
fn vigenere_smaller_base_key() {
    let message = "We are under seige!"; //19 character message
    let v = Vigenere::new(String::from("lemon")).unwrap(); //key length of 5

    assert_eq!(
        vec![
            'l', 'e', 'm', 'o', 'n', 'l', 'e', 'm', 'o', 'n', 'l', 'e', 'm', 'o', 'n'
        ],
        v.keystream(message)
    );
}

#[test]
fn vigenere_larger_base_key() {
    let message = "hi";
    let v = Vigenere::new(String::from("lemon")).unwrap();

    assert_eq!(vec!['l', 'e'], v.keystream(message));
}

#[test]
fn vigenere_valid_key() {
    assert!(Vigenere::new(String::from("LeMon")).is_ok());
}

#[test]
fn vigenere_key_with_symbols() {
    assert!(Vigenere::new(String::from("!em@n")).is_err());
}

#[test]
fn vigenere_key_with_whitespace() {
    assert!(Vigenere::new(String::from("wow this key is a real lemon")).is_err());
}

