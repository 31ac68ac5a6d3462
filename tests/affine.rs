use cipher_crypt::{Affine, Cipher};
use num::integer::gcd;
#[test]
fn affine_encrypt_message() {
    let a = Affine::new((3, 7)).unwrap();
    assert_eq!("Hmmhnl hm qhvu!", a.encrypt("Attack at dawn!").unwrap());
}

#[test]
fn affine_decrypt_message() {
    let a = Affine::new((3, 7)).unwrap();
    assert_eq!("Attack at dawn!", a.decrypt("Hmmhnl hm qhvu!").unwrap());
}

#[test]
fn affine_with_utf8() {
    let a = Affine::new((15, 10)).unwrap();
    let message = "Peace ✌️ Freedom and Liberty!";

    assert_eq!(message, a.decrypt(&a.encrypt(message).unwrap()).unwrap());
}

#[test]
fn affine_exhaustive_encrypt() {
    //Test with every combination of a and b
    let message = "abcdefghijklmnopqrstuvwxyzABCDEFGHIJKLMNOPQRSTUVWXYZ";

    for a in 1..27 {
        if gcd(a, 26) > 1 {
            continue;
        }

        for b in 1..27 {
            let a = Affine::new((a, b)).unwrap();
            assert_eq!(message, a.decrypt(&a.encrypt(message).unwrap()).unwrap());
        }
    }
}

#[test]
fn affine_valid_key() {
    assert!(Affine::new((15, 17)).is_ok());
}

#[test]
fn b_shares_factor() {
    assert!(Affine::new((15, 2)).is_ok());
}

#[test]
fn a_shares_factor() {
    assert!(Affine::new((2, 15)).is_err());
}

#[test]
fn keys_to_small() {
    assert!(Affine::new((0, 10)).is_err());
}

#[test]
fn keys_to_big() {
    assert!(Affine::new((30, 51)).is_err());
}

