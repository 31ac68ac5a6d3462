use cipher_crypt::{Cipher, Polybius};
#[test]
fn polybius_encrypt_message() {
    //     A B C D E F
    //  A| o r 0 a n g
    //  B| e 1 b c d f
    //  C| 2 h i j k 3
    //  D| l m p 4 q s
    //  E| 5 t u 6 v w
    //  F| 7 x 8 y 9 z
    let p = Polybius::new((
        "or0ange1bcdf2hijk3lmp4qs5tu6vw7x8y9z".to_string(),
        ['A', 'B', 'C', 'D', 'E', 'F'],
        ['A', 'B', 'C', 'D', 'E', 'F'],
    )).unwrap();

    assert_eq!(
        "BBAC AAabadaeafbadf adaebe CA ADdcdcdabadf!",
        p.encrypt("10 Oranges and 2 Apples!").unwrap()
    );
}

#[test]
fn polybius_decrypt_message() {
    let p = Polybius::new((
        "or0ange1bcdf2hijk3lmp4qs5tu6vw7x8y9z".to_string(),
        ['A', 'B', 'C', 'D', 'E', 'F'],
        ['A', 'B', 'C', 'D', 'E', 'F'],
    )).unwrap();

    assert_eq!(
        "10 Oranges and 2 Apples!",
        p.decrypt("BBAC AAabadaeafbadf adaebe CA ADdcdcdabadf!")
            .unwrap()
    );
}

#[test]
fn polybius_invalid_decrypt_sequence() {
    let p = Polybius::new((
        "or0ange1bcdf2hijk3lmp4qs5tu6vw7x8y9z".to_string(),
        ['A', 'B', 'C', 'D', 'E', 'F'],
        ['A', 'B', 'C', 'D', 'E', 'F'],
    )).unwrap();

    //The sequnce 'AZ' is unknown to the polybius square
    assert!(
        p.decrypt("BBAC AZabadaeazbadf adaebe CA ADdcdcdabadf!")
            .is_err()
    );
}

#[test]
fn polybius_with_utf8() {
    let m = "Attack 🗡️ the east wall";
    let p = Polybius::new((
        "or0ange1bcdf2hijk3lmp4qs5tu6vw7x8y9z".to_string(),
        ['A', 'B', 'C', 'D', 'E', 'F'],
        ['A', 'B', 'C', 'D', 'E', 'F'],
    )).unwrap();

    assert_eq!(m, p.decrypt(&p.encrypt(m).unwrap()).unwrap());
}

#[test]
fn polybius_invalid_key_phrase() {
    assert!(
        Polybius::new((
            "F@IL".to_string(),
            ['A', 'B', 'C', 'D', 'E', 'F'],
            ['A', 'B', 'C', 'D', 'E', 'F']
        )).is_err()
    );
}

#[test]
fn polybius_invalid_ids() {
    assert!(
        Polybius::new((
            "oranges".to_string(),
            ['A', '!', 'C', 'D', 'E', 'F'],
            ['A', 'B', '@', 'D', 'E', 'F']
        )).is_err()
    );
}

#[test]
fn polybius_repeated_ids() {
    assert!(
        Polybius::new((
            "oranges".to_string(),
            ['A', 'A', 'C', 'D', 'E', 'F'],
            ['A', 'C', 'C', 'D', 'E', 'F']
        )).is_err()
    );
}

