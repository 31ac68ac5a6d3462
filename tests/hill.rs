use cipher_crypt::{Cipher, Hill, Matrix};
#[test]
fn keygen_from_phrase() {
    assert!(Hill::from_phrase("CEFJCBDRH", 3).is_ok());
}

#[test]
fn invalid_phrase() {
    assert!(Hill::from_phrase("killer", 2).is_err());
}

#[test]
fn encrypt_no_padding_req() {
    let h = Hill::new(Matrix::new(3, 3, vec![2, 4, 5, 9, 2, 1, 3, 17, 7])).unwrap();

    let m = "ATTACKatDAWN";
    assert_eq!(m, h.decrypt(&h.encrypt(m).unwrap()).unwrap());
}

#[test]
fn encrypt_with_symbols() {
    let h = Hill::from_phrase("CEFJCBDRH", 3).unwrap();
    assert!(h.encrypt("This won!t w@rk").is_err());
}

#[test]
fn decrypt_with_symbols() {
    let h = Hill::from_phrase("CEFJCBDRH", 3).unwrap();
    assert!(h.decrypt("This won!t w@rk").is_err());
}

#[test]
fn encrypt_padding_req() {
    let h = Hill::new(Matrix::new(3, 3, vec![2, 4, 5, 9, 2, 1, 3, 17, 7])).unwrap();
    let m = "ATTACKATDAWNz";

    let e = h.encrypt(m).unwrap();
    assert_eq!("PFOGOANPGXFXyrx", e);

    let d = h.decrypt(&e).unwrap();
    assert_eq!("ATTACKATDAWNzaa", d);
}

#[test]
fn hill_valid_key() {
    assert!(Hill::new(Matrix::new(3, 3, vec![2, 4, 5, 9, 2, 1, 3, 17, 7])).is_ok());
}

#[test]
fn non_square_matrix() {
    //A 3 x 2 matrix
    assert!(Hill::new(Matrix::new(3, 2, vec![2, 4, 9, 2, 3, 17])).is_err());
}

#[test]
fn non_invertable_matrix() {
    assert!(Hill::new(Matrix::new(3, 3, vec![2, 2, 3, 6, 6, 9, 1, 4, 8])).is_err());
}

#[test]
fn hill_round_trip_without_padding() {
    let h = Hill::new(Matrix::new(3, 3, vec![2, 4, 5, 9, 2, 1, 3, 17, 7])).unwrap();
    let m = "ATTACKATDAWN";
    let c = h.encrypt(m).unwrap();
    assert_eq!(c.len(), 12);
    assert_eq!(m, h.decrypt(&c).unwrap());
}

#[test]
fn hill_padding_kept_after_decryption() {
    let h = Hill::new(Matrix::new(3, 3, vec![2, 4, 5, 9, 2, 1, 3, 17, 7])).unwrap();
    let m = "ATTACKATDAWNz";
    let c = h.encrypt(m).unwrap();
    assert_eq!(c.len(), 15);
    assert_eq!("ATTACKATDAWNzaa", h.decrypt(&c).unwrap());
}

#[test]
fn hill_encrypt_known_chunks() {
    let h = Hill::new(Matrix::new(3, 3, vec![2, 4, 5, 9, 2, 1, 3, 17, 7])).unwrap();
    assert_eq!("PFOGOAUCIMpf", h.encrypt("ATTACKEAST").unwrap());
}

#[test]
fn hill_case_follows_message() {
    let h = Hill::from_phrase("CEFJCBDRH", 3).unwrap();
    let m = "aTtAcKaTd";
    let c = h.encrypt(m).unwrap();
    for (x, y) in m.chars().zip(c.chars()) {
        assert_eq!(x.is_uppercase(), y.is_uppercase());
    }
    assert_eq!(m, h.decrypt(&c).unwrap());
}

#[test]
fn hill_phrase_key_round_trip() {
    let h = Hill::from_phrase("CEFJCBDRH", 3).unwrap();
    let m = "thingsfallapart";
    assert_eq!(m, h.decrypt(&h.encrypt(m).unwrap()).unwrap());
}

#[test]
fn hill_phrase_rejections() {
    assert!(Hill::from_phrase("killer", 2).is_err());
    assert!(Hill::from_phrase("a", 1).is_err());
    assert!(Hill::from_phrase("abc1", 2).is_err());
    assert!(Hill::from_phrase("", 0).is_err());
}

#[test]
fn hill_determinant_sharing_factor_rejected() {
    // determinant 2
    assert!(Hill::new(Matrix::new(2, 2, vec![2, 0, 0, 1])).is_err());
    // determinant 13
    assert!(Hill::new(Matrix::new(2, 2, vec![13, 0, 0, 1])).is_err());
    // determinant -1 is a unit modulo 26
    assert!(Hill::new(Matrix::new(2, 2, vec![0, 1, 1, 0])).is_ok());
    // determinant 27 is 1 modulo 26
    assert!(Hill::new(Matrix::new(2, 2, vec![27, 0, 0, 1])).is_ok());
}

#[test]
fn hill_empty_and_single_keys() {
    assert!(Hill::new(Matrix::new(0, 0, vec![])).is_err());
    let h = Hill::new(Matrix::new(1, 1, vec![3])).unwrap();
    // x -> 3x mod 26
    assert_eq!("adgJ", h.encrypt("abcD").unwrap());
    assert_eq!("abcD", h.decrypt("adgJ").unwrap());
}

#[test]
fn hill_rejects_non_letters() {
    let h = Hill::new(Matrix::new(2, 2, vec![3, 3, 2, 5])).unwrap();
    assert!(h.encrypt("hi there").is_err());
    assert!(h.decrypt("hi3").is_err());
    assert!(h.encrypt("").is_ok());
}

#[test]
fn hill_two_by_two_known_value() {
    // key [[3, 3], [2, 5]]: "HELP" -> "HIAT"
    let h = Hill::new(Matrix::new(2, 2, vec![3, 3, 2, 5])).unwrap();
    assert_eq!("HIAT", h.encrypt("HELP").unwrap());
    assert_eq!("HELP", h.decrypt("HIAT").unwrap());
}
