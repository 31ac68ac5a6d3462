//! The interface that every cipher of the library offers.
use vstd::prelude::*;

verus! {

/// A cipher made from a key, which encrypts and decrypts text.
pub trait Cipher: Sized {
    /// What a cipher is made from.
    type Key;

    /// Whether `key` makes a cipher.
    spec fn accepts(key: Self::Key) -> bool;

    /// Whether this cipher is the one that `key` makes.
    spec fn made_from(&self, key: Self::Key) -> bool;

    /// The encryption of `message`, or `None` where encryption fails.
    spec fn encrypted(&self, message: Seq<char>) -> Option<Seq<char>>;

    /// The decryption of `message`, or `None` where decryption fails.
    spec fn decrypted(&self, message: Seq<char>) -> Option<Seq<char>>;

    /// Makes a cipher from `key`, or tells why the key is refused.
    fn new(key: Self::Key) -> (r: Result<Self, &'static str>)
        ensures
            r is Ok <==> Self::accepts(key),
            r matches Ok(c) ==> c.made_from(key),
    ;

    /// Encrypts `message`.
    fn encrypt(&self, message: &str) -> (r: Result<String, &'static str>)
        ensures
            r is Ok <==> self.encrypted(message@) is Some,
            r matches Ok(s) ==> self.encrypted(message@) == Some(s@),
    ;

    /// Decrypts `message`.
    fn decrypt(&self, message: &str) -> (r: Result<String, &'static str>)
        ensures
            r is Ok <==> self.decrypted(message@) is Some,
            r matches Ok(s) ==> self.decrypted(message@) == Some(s@),
    ;
}

} // verus!
