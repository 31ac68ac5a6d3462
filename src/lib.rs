//! Classical ciphers, each with its encryption and decryption stated over
//! sequences of characters and proved.
pub mod affine;
pub mod alphabet;
pub mod autokey;
pub mod caesar;
pub mod cipher;
pub mod hill;
pub mod keygen;
pub mod matrix;
pub mod polybius;
pub mod porta;
pub mod railfence;
pub mod rot13;
pub mod scytale;
pub mod substitute;
pub mod vigenere;

pub use crate::affine::Affine;
pub use crate::autokey::Autokey;
pub use crate::caesar::Caesar;
pub use crate::cipher::Cipher;
pub use crate::hill::Hill;
pub use crate::matrix::Matrix;
pub use crate::polybius::Polybius;
pub use crate::porta::Porta;
pub use crate::railfence::Railfence;
pub use crate::rot13 as Rot13;
pub use crate::scytale::Scytale;
pub use crate::vigenere::Vigenere;
