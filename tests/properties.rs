use cipher_crypt::alphabet::{find_position, get_letter, is_alphabetic_only, modulo, multiplicative_inverse, scrub_text};
use cipher_crypt::{Affine, Autokey, Caesar, Cipher, Hill, Matrix, Porta, Railfence, Scytale, Vigenere};

#[test]
fn alphabet_positions_and_letters() {
    assert_eq!(Some(0), find_position('a'));
    assert_eq!(Some(25), find_position('Z'));
    assert_eq!(None, find_position('1'));
    assert_eq!(None, find_position('é'));
    assert_eq!(Some('C'), get_letter(2, true));
    assert_eq!(Some('z'), get_letter(25, false));
    assert_eq!(None, get_letter(26, false));
}

#[test]
fn alphabet_modulo_wraps_negatives() {
    assert_eq!(25, modulo(-1));
    assert_eq!(0, modulo(-26));
    assert_eq!(1, modulo(27));
    assert_eq!(0, modulo(0));
}

#[test]
fn alphabet_inverse_and_scrub() {
    assert_eq!(Some(9), multiplicative_inverse(3));
    assert_eq!(Some(25), multiplicative_inverse(-1));
    assert_eq!(None, multiplicative_inverse(13));
    assert_eq!(None, multiplicative_inverse(0));
    assert_eq!("Helloworld", scrub_text("Hello, world! 42"));
    assert!(is_alphabetic_only("abcXYZ"));
    assert!(!is_alphabetic_only("abc XYZ"));
    assert!(is_alphabetic_only(""));
}

#[test]
fn hill_round_trip_on_aligned_messages() {
    let h = Hill::new(Matrix::new(2, 2, vec![3, 3, 2, 5])).unwrap();
    for m in ["ab", "HELPme", "zzZZ", "QwErTy"] {
        assert_eq!(m, h.decrypt(&h.encrypt(m).unwrap()).unwrap());
    }
}

#[test]
fn hill_padding_is_returned_by_decryption() {
    let h = Hill::new(Matrix::new(3, 3, vec![2, 4, 5, 9, 2, 1, 3, 17, 7])).unwrap();
    let m = "Dawn";
    let c = h.encrypt(m).unwrap();
    assert_eq!(6, c.len());
    assert_eq!("Dawnaa", h.decrypt(&c).unwrap());
}

#[test]
fn hill_rejects_whitespace_digits_and_symbols() {
    let h = Hill::new(Matrix::new(3, 3, vec![2, 4, 5, 9, 2, 1, 3, 17, 7])).unwrap();
    for m in ["at tack", "attack1", "attack!", "\tab"] {
        assert!(h.encrypt(m).is_err());
        assert!(h.decrypt(m).is_err());
    }
}

#[test]
fn hill_negative_entries() {
    // determinant 1 * 1 - (-1) * 0 = 1
    let h = Hill::new(Matrix::new(2, 2, vec![1, -1, 0, 1])).unwrap();
    // (b, a) = (1, 0) -> (1 * 1 - 1 * 0, 0 * 1 + 1 * 0) = (1, 0)
    assert_eq!("ba", h.encrypt("ba").unwrap());
    // (a, b) = (0, 1) -> (0 - 1, 1) = (25, 1)
    assert_eq!("zb", h.encrypt("ab").unwrap());
    assert_eq!("ab", h.decrypt("zb").unwrap());
}

#[test]
fn caesar_known_values() {
    let c = Caesar::new(26).unwrap();
    assert_eq!("Hello", c.encrypt("Hello").unwrap());
    let c = Caesar::new(1).unwrap();
    assert_eq!("Ifmmp, Zab!", c.encrypt("Hello, Yza!").unwrap());
    assert_eq!("Hello, Yza!", c.decrypt("Ifmmp, Zab!").unwrap());
}

#[test]
fn affine_key_rules() {
    assert!(Affine::new((13, 1)).is_err());
    assert!(Affine::new((26, 1)).is_err());
    assert!(Affine::new((1, 26)).is_ok());
    assert!(Affine::new((1, 27)).is_err());
    let a = Affine::new((5, 8)).unwrap();
    assert_eq!("IHHWVC", a.encrypt("AFFINE").unwrap());
    assert_eq!("AFFINE", a.decrypt("IHHWVC").unwrap());
}

#[test]
fn vigenere_skips_non_letters_in_keystream() {
    let v = Vigenere::new(String::from("b")).unwrap();
    assert_eq!("b c!", v.encrypt("a b!").unwrap());
    assert!(Vigenere::new(String::new()).is_err());
}

#[test]
fn autokey_keystream_and_round_trip() {
    let a = Autokey::new(String::from("queenly")).unwrap();
    let c = a.encrypt("attackatdawn").unwrap();
    assert_eq!("qnxepvytwtwp", c);
    assert_eq!("attackatdawn", a.decrypt(&c).unwrap());
    assert!(Autokey::new(String::new()).is_err());
}

#[test]
fn porta_is_reciprocal() {
    let p = Porta::new(String::from("melon")).unwrap();
    assert_eq!("Dt mpwx pb xtdl!", p.encrypt("We ride at dawn!").unwrap());
    assert_eq!("We ride at dawn!", p.encrypt("Dt mpwx pb xtdl!").unwrap());
    assert!(Porta::new(String::new()).is_err());
}

#[test]
fn railfence_round_trip_many_keys() {
    let m = "The quick brown fox, 123!";
    for key in 1..30 {
        let r = Railfence::new(key).unwrap();
        assert_eq!(m, r.decrypt(&r.encrypt(m)));
    }
    assert_eq!("", Railfence::new(4).unwrap().encrypt(""));
}

#[test]
fn scytale_pads_and_trims() {
    let s = Scytale::new(2).unwrap();
    assert_eq!("acebd ", s.encrypt("abcde").unwrap());
    assert_eq!("abcde", s.decrypt("acebd ").unwrap());
    let s = Scytale::new(1).unwrap();
    assert_eq!("abc ", s.encrypt("abc ").unwrap());
}
