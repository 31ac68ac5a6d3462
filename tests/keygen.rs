use cipher_crypt::alphabet::{ALPHANUMERIC, STANDARD};
use cipher_crypt::keygen::{columnar_key, keyed_alphabet, polybius_square, PlayfairTable};
#[test]
fn polybius_hashmap_order() {
    let p = polybius_square(
        "abcdefghijklmnopqrstuvwxyz0123456789",
        ['a', 'b', 'c', 'd', 'e', 'f'],
        ['a', 'b', 'c', 'd', 'e', 'f'],
    ).unwrap();

    assert_eq!(&'a', p.get("aa").unwrap());
    assert_eq!(&'c', p.get("ac").unwrap());
    assert_eq!(&'e', p.get("ae").unwrap());
    assert_eq!(&'h', p.get("bb").unwrap());
    assert_eq!(&'z', p.get("eb").unwrap());
}

#[test]
fn polybius_duplicate_characters() {
    assert!(
        polybius_square(
            "abcdefghijklnnopqrstuvwxyz0123456789",
            ['a', 'b', 'c', 'd', 'e', 'f'],
            ['a', 'b', 'c', 'd', 'e', 'f']
        ).is_err()
    );
}

#[test]
fn polybius_missing_characters() {
    assert!(
        polybius_square(
            "adefghiklnnopqrstuvwxyz",
            ['a', 'b', 'c', 'd', 'e', 'f'],
            ['a', 'b', 'c', 'd', 'e', 'f']
        ).is_err()
    );
}

#[test]
fn polybius_non_alpha_characters() {
    assert!(
        polybius_square(
            "abcd@#!ghiklnnopqrstuvwxyz0123456789",
            ['a', 'b', 'c', 'd', 'e', 'f'],
            ['a', 'b', 'c', 'd', 'e', 'f']
        ).is_err()
    );
}

#[test]
fn polybius_repeated_column_ids() {
    assert!(
        polybius_square(
            "abcdefghijklmnopqrstuvwxyz0123456789",
            ['a', 'a', 'c', 'd', 'e', 'f'],
            ['a', 'b', 'c', 'd', 'e', 'f']
        ).is_err()
    );
}

#[test]
fn polybius_repeated_row_ids() {
    assert!(
        polybius_square(
            "abcdefghijklmnopqrstuvwxyz0123456789",
            ['a', 'b', 'c', 'd', 'e', 'f'],
            ['a', 'b', 'c', 'c', 'e', 'f']
        ).is_err()
    );
}

#[test]
fn generate_numeric_alphabet() {
    let keyed_alphabet = keyed_alphabet("or0ange", ALPHANUMERIC, false).unwrap();
    assert_eq!(keyed_alphabet, "or0angebcdfhijklmpqstuvwxyz123456789");
}

#[test]
fn generate_standard_alphabet() {
    let keyed_alphabet = keyed_alphabet("test", STANDARD, false).unwrap();
    assert_eq!(keyed_alphabet, "tesabcdfghijklmnopqruvwxyz");
}

#[test]
fn generate_alphabet_mixed_key() {
    let keyed_alphabet = keyed_alphabet("ALphaBEt", STANDARD, false).unwrap();
    assert_eq!(keyed_alphabet, "alphbetcdfgijkmnoqrsuvwxyz");
}

#[test]
fn generate_uppercase_alphabet() {
    let keyed_alphabet = keyed_alphabet("OranGE", STANDARD, true).unwrap();
    assert_eq!(keyed_alphabet, "ORANGEBCDFHIJKLMPQSTUVWXYZ");
}

#[test]
fn generate_alphabet_bad_key() {
    assert!(keyed_alphabet("bad key", STANDARD, false).is_err());
}

#[test]
fn generate_alphabet_no_key() {
    let keyed_alphabet = keyed_alphabet("", STANDARD, false).unwrap();
    assert_eq!(keyed_alphabet, "abcdefghijklmnopqrstuvwxyz");
}

#[test]
fn generate_alphabet_long_key() {
    let keyed_alphabet =
        keyed_alphabet("nnhhyqzabguuxwdrvvctspefmjoklii", STANDARD, true).unwrap();
    assert_eq!(keyed_alphabet, "NHYQZABGUXWDRVCTSPEFMJOKLI");
}

#[test]
fn generate_columnar_key() {
    assert_eq!(
        vec![
            ('z', vec![]),
            ('e', vec![]),
            ('b', vec![]),
            ('r', vec![]),
            ('a', vec![]),
            ('s', vec![]),
        ],
        columnar_key("zebras").unwrap()
    );
}

#[test]
fn generate_columnar_empty_key() {
    assert!(columnar_key("").is_err());
}

#[test]
fn generate_columnar_invalid_key() {
    assert!(columnar_key("Fx !@#$").is_err());
}

#[test]
fn playfairtable_new_accepts_alpha_key() {
    assert!(PlayfairTable::new("Foo").is_ok());
}

#[test]
fn playfairtable_new_accepts_spaced_key() {
    assert!(PlayfairTable::new("Foo Bar").is_ok());
}

#[test]
fn playfairtable_new_accepts_alphanumeric_key() {
    assert!(PlayfairTable::new("Bad123").is_err());
}

#[test]
fn playfairtable_new_rejects_symbolic_key() {
    assert!(PlayfairTable::new("Bad?").is_err());
}

#[test]
fn playfairtable_new_rejects_unicode_key() {
    assert!(PlayfairTable::new("Badâ˜¢").is_err());
}

#[test]
fn playfairtable_new_rejects_empty_key() {
    assert!(PlayfairTable::new("").is_err());
}

#[test]
fn playfairtable_new_rejects_long_key() {
    assert!(PlayfairTable::new("ABCDEFGHIJKLMNOPQRSTUVWXYZA").is_err());
}

#[test]
fn playfairtable_rows_and_columns() {
    let t = PlayfairTable::new("playfair example").unwrap();
    assert_eq!(
        vec!["PLAYF", "IREXM", "BCDGH", "KNOQS", "TUVWZ"],
        t.rows.iter().map(|r| r.as_str()).collect::<Vec<&str>>()
    );
    assert_eq!("PIBKT", t.cols[0]);
    assert_eq!("FMHSZ", t.cols[4]);
}

#[test]
fn playfairtable_reads_j_as_i() {
    let t = PlayfairTable::new("Jig").unwrap();
    assert_eq!("IGABC", t.rows[0]);
}

#[test]
fn polybius_square_digits_have_one_entry() {
    let p = polybius_square(
        "abcdefghijklmnopqrstuvwxyz0123456789",
        ['a', 'b', 'c', 'd', 'e', 'f'],
        ['a', 'b', 'c', 'd', 'e', 'f'],
    )
    .unwrap();
    assert_eq!(&'0', p.get("EC").unwrap());
    assert_eq!(None, p.get("ec"));
    assert_eq!(&'H', p.get("BB").unwrap());
    assert_eq!(None, p.get("abc"));
}
