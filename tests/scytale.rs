use cipher_crypt::{Cipher, Scytale};
#[test]
fn simple_encrypt() {
    let s = Scytale::new(6).unwrap();
    assert_eq!("aatttdaacwkn", s.encrypt("attackatdawn").unwrap());
}

#[test]
fn simple_decrypt() {
    let s = Scytale::new(6).unwrap();
    assert_eq!("attackatdawn", s.decrypt("aatttdaacwkn").unwrap());
}

#[test]
fn padding_required() {
    let s = Scytale::new(5).unwrap();
    let m = "attackatdawn";
    assert_eq!(m, s.decrypt(&s.encrypt(m).unwrap()).unwrap());
}

#[test]
fn invalid_height() {
    assert!(Scytale::new(0).is_err());
}

#[test]
fn scytale_with_utf8() {
    let s = Scytale::new(5).unwrap();
    let m = "Attack üó°Ô∏è at once.";
    assert_eq!(m, s.decrypt(&s.encrypt(m).unwrap()).unwrap());
}

#[test]
fn with_spaces() {
    //Spaces at the end of a message are not preserved
    let s = Scytale::new(5).unwrap();
    let m = "Attack At Dawn comrades!  ";
    assert_eq!(
        "Attack At Dawn comrades!",
        s.decrypt(&s.encrypt(m).unwrap()).unwrap()
    );
}

#[test]
fn longer_height() {
    let s = Scytale::new(20).unwrap();
    let m = "attackatdawn";
    assert_eq!(m, s.decrypt(&s.encrypt(m).unwrap()).unwrap());
}

