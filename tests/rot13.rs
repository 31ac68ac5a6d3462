use cipher_crypt::rot13::apply;
#[test]
fn rot13_with_utf8() {
    let message = "Peace, Freedom and Liberty! 🗡️";
    let encrypted = apply(message);
    let decrypted = apply(&encrypted);

    assert_eq!(decrypted, message);
}

#[test]
fn alphabet_encrypt() {
    let message = "abcdefghijklmnopqrstuvwxyzABCDEFGHIJKLMNOPQRSTUVWXYZ";

    let encrypted = apply(message);
    let decrypted = apply(&encrypted);

    assert_eq!(decrypted, message);
}

