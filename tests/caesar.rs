use cipher_crypt::{Cipher, Caesar};
#[test]
fn caesar_encrypt_message() {
    let c = Caesar::new(2).unwrap();
    assert_eq!("Cvvcem cv fcyp!", c.encrypt("Attack at dawn!").unwrap());
}

#[test]
fn caesar_decrypt_message() {
    let c = Caesar::new(2).unwrap();
    assert_eq!("Attack at dawn!", c.decrypt("Cvvcem cv fcyp!").unwrap());
}

#[test]
fn caesar_with_utf8() {
    let c = Caesar::new(3).unwrap();
    let message = "Peace, Freedom and Liberty! 🗡️";
    let encrypted = c.encrypt(message).unwrap();
    let decrypted = c.decrypt(&encrypted).unwrap();

    assert_eq!(decrypted, message);
}

#[test]
fn caesar_exhaustive_encrypt() {
    //Test with every possible shift combination
    let message = "abcdefghijklmnopqrstuvwxyzABCDEFGHIJKLMNOPQRSTUVWXYZ";

    for i in 1..27 {
        let c = Caesar::new(i).unwrap();
        let encrypted = c.encrypt(message).unwrap();
        let decrypted = c.decrypt(&encrypted).unwrap();
        assert_eq!(decrypted, message);
    }
}

#[test]
fn key_to_small() {
    assert!(Caesar::new(0).is_err());
}

#[test]
fn key_to_big() {
    assert!(Caesar::new(27).is_err());
}

