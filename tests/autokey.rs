use cipher_crypt::{Cipher, Autokey};
#[test]
fn autokey_with_utf8() {
    let m = "Attack 🗡️ the east wall";
    let a = Autokey::new(String::from("fort")).unwrap();

    assert_eq!(m, a.decrypt(&a.encrypt(m).unwrap()).unwrap());
}

#[test]
fn simple_encrypt_decrypt_test() {
    let message = "defend the east wall of the castle";
    let v = Autokey::new(String::from("fortification")).unwrap();

    let c_text = v.encrypt(message).unwrap();
    let p_text = v.decrypt(&c_text).unwrap();

    assert_eq!(message, p_text);
}

#[test]
fn autokey_decrypt_test() {
    let ciphertext = "lxfopktmdcgn";
    let v = Autokey::new(String::from("lemon")).unwrap();
    assert_eq!("attackatdawn", v.decrypt(ciphertext).unwrap());
}

#[test]
fn autokey_larger_base_key() {
    let message = "Hello";
    let v = Autokey::new(String::from("fortification")).unwrap();

    assert_eq!(vec!['f', 'o', 'r', 't', 'i'], v.encrypt_keystream(message));
}

#[test]
fn autokey_smaller_base_key() {
    let message = "We are under seige";
    let v = Autokey::new(String::from("lemon")).unwrap();

    assert_eq!(
        vec![
            'l', 'e', 'm', 'o', 'n', 'W', 'e', 'a', 'r', 'e', 'u', 'n', 'd', 'e', 'r'
        ],
        v.encrypt_keystream(message)
    );
}

#[test]
fn autokey_valid_key() {
    assert!(Autokey::new(String::from("LeMon")).is_ok());
}

#[test]
fn autokey_key_with_symbols() {
    assert!(Autokey::new(String::from("!em@n")).is_err());
}

#[test]
fn autokey_key_with_whitespace() {
    assert!(Autokey::new(String::from("wow this key is a real lemon")).is_err());
}

