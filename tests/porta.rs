use cipher_crypt::{Cipher, Porta};
#[test]
fn encrypt() {
    let message = "attackatdawn";
    let porta = Porta::new("lemon".into()).unwrap();
    assert_eq!(porta.encrypt(message).unwrap(), "seauvppaxtel");
}

#[test]
fn decrypt() {
    let ciphertext = "seauvppaxtel";
    let porta = Porta::new("lemon".into()).unwrap();
    assert_eq!(porta.decrypt(ciphertext).unwrap(), "attackatdawn");
}

#[test]
fn porta_mixed_case() {
    let message = "Attack at Dawn!";
    let porta = Porta::new("lemon".into()).unwrap();
    let ciphertext = porta.encrypt(message).unwrap();
    let decrypted = porta.decrypt(&ciphertext).unwrap();

    assert_eq!(decrypted, message);
}

#[test]
fn porta_with_utf8() {
    let message = "Peace üó°Ô∏è Freedom and Liberty!";
    let porta = Porta::new("utfeightisfun".into()).unwrap();
    let ciphertext = porta.encrypt(message).unwrap();
    let decrypted = porta.decrypt(&ciphertext).unwrap();

    assert_eq!(decrypted, message);
}

#[test]
fn porta_valid_key() {
    assert!(Porta::new("LeMon".into()).is_ok());
}

#[test]
fn porta_key_with_symbols() {
    assert!(Porta::new("!em@n".into()).is_err());
}

#[test]
fn porta_key_with_whitespace() {
    assert!(Porta::new("wow this key is a real lemon".into()).is_err());
}

