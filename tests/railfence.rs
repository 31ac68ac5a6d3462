use cipher_crypt::Railfence;
#[test]
fn railfence_encrypt_test() {
    let message = "attackatdawn";
    let r = Railfence::new(6).unwrap();
    assert_eq!("awtantdatcak", r.encrypt(message));
}

#[test]
fn railfence_encrypt_mixed_case() {
    let message = "Hello, World!";
    let r = Railfence::new(3).unwrap();
    assert_eq!("Hoo!el,Wrdl l", r.encrypt(message));
}

#[test]
fn encrypt_short_key() {
    let message = "attackatdawn";
    let r = Railfence::new(1).unwrap();
    assert_eq!("attackatdawn", r.encrypt(message));
}

#[test]
fn railfence_encrypt_long_key() {
    let message = "attackatdawn";
    let r = Railfence::new(20).unwrap();
    assert_eq!("attackatdawn", r.encrypt(message));
}

#[test]
fn railfence_decrypt_test() {
    let message = "awtantdatcak";
    let r = Railfence::new(6).unwrap();
    assert_eq!("attackatdawn", r.decrypt(message));
}

#[test]
fn decrypt_short_key() {
    let message = "attackatdawn";
    let r = Railfence::new(1).unwrap();
    assert_eq!("attackatdawn", r.decrypt(message));
}

#[test]
fn railfence_decrypt_mixed_case() {
    let message = "Hoo!el,Wrdl l";
    let r = Railfence::new(3).unwrap();
    assert_eq!("Hello, World!", r.decrypt(message));
}

#[test]
fn decrypt_long_key() {
    let message = "attackatdawn";
    let r = Railfence::new(20).unwrap();
    assert_eq!("attackatdawn", r.decrypt(message));
}

#[test]
fn incorrect_key_test() {
    assert!(Railfence::new(0).is_err());
}

#[test]
fn unicode_test() {
    let r = Railfence::new(3).unwrap();
    let message = "ÂƮƮäƈķ ɑƬ Ðawŋ ✓";
    assert_eq!("ÂƈƬwƮäķɑ aŋ✓Ʈ Ð ", r.encrypt(message));
}

