//! Encryption of what lies on the disk.
use chacha20::cipher::{KeyIvInit, StreamCipher, StreamCipherSeek};
use chacha20::ChaCha20;
use rand::Rng;
use sha2::{Digest, Sha256};
use vstd::prelude::*;
use vstd::string::*;
use vstd::utf8::*;

verus! {

/// The SHA-256 digest of bytes.
pub uninterp spec fn sha256(data: Seq<u8>) -> Seq<u8>;

/// The 32-byte Argon2id hash, version 0x13, of a password and a salt with the given memory,
/// time and parallelism.
pub uninterp spec fn argon2id(
    password: Seq<u8>,
    salt: Seq<u8>,
    memory_cost: u32,
    time_cost: u32,
    parallelism: u32,
) -> Seq<u8>;

/// The byte at a position of the ChaCha20 keystream for a key and a nonce.
pub uninterp spec fn chacha20_keystream(key: Seq<u8>, nonce: Seq<u8>, pos: nat) -> u8;

/// Number of keystream bytes for one key and nonce.
pub const KEYSTREAM_LIMIT: u64 = 274_877_906_880;

/// `Sha256::digest` of the bytes.
#[verifier::external_body]
fn sha256_digest(data: &[u8]) -> (r: [u8; 32])
    ensures
        r@ == sha256(data@),
{
    let hash = Sha256::digest(data);
    let mut key = [0u8; 32];
    key.copy_from_slice(&hash);
    key
}

/// `Argon2::hash_password_into` with the Argon2id algorithm. `Params::new` refuses fewer
/// than eight memory blocks for each lane, no passes, and no or more than 2^24 - 1 lanes;
/// the hash refuses passwords above 2^32 - 1 bytes and salts under eight.
#[verifier::external_body]
fn argon2_hash(
    password: &[u8],
    salt: &[u8],
    memory_cost: u32,
    time_cost: u32,
    parallelism: u32,
) -> (r: [u8; 32])
    requires
        1 <= parallelism <= 0xFFFFFF,
        8 * parallelism <= memory_cost,
        1 <= time_cost,
        password@.len() <= 0xFFFFFFFF,
        8 <= salt@.len() <= 0xFFFFFFFF,
    ensures
        r@ == argon2id(password@, salt@, memory_cost, time_cost, parallelism),
{
    let mut key = [0u8; 32];
    let params = argon2::Params::new(memory_cost, time_cost, parallelism, Some(32)).expect(
        "invalid argon2 params",
    );
    argon2::Argon2::new(
        argon2::Algorithm::Argon2id,
        argon2::Version::V0x13,
        params,
    ).hash_password_into(password, salt, &mut key).expect("argon2 hash failed");
    key
}

/// `ChaCha20::new`, `seek` and `apply_keystream`: each byte is combined by exclusive or with
/// the keystream byte at its position. Past the last keystream block they panic.
#[verifier::external_body]
fn chacha20_apply(key: &[u8; 32], nonce: &[u8; 12], pos: u64, data: &mut Vec<u8>)
    requires
        pos + old(data)@.len() <= KEYSTREAM_LIMIT,
    ensures
        final(data)@ == Seq::new(
            old(data)@.len(),
            |i: int| old(data)@[i] ^ chacha20_keystream(key@, nonce@, (pos + i) as nat),
        ),
{
    let mut cipher = ChaCha20::new(&(*key).into(), &(*nonce).into());
    cipher.seek(pos);
    cipher.apply_keystream(data);
}

/// `Rng::fill_bytes` of the thread's generator. Nothing is known of the bytes.
#[verifier::external_body]
fn random_nonce() -> (r: [u8; 12]) {
    let mut nonce = [0u8; 12];
    let mut rng = rand::rng();
    rng.fill_bytes(&mut nonce);
    nonce
}

/// How a key is made from a password.
#[derive(Debug, Clone, Copy, PartialEq, Eq, Structural)]
pub enum KeyDerivation {
    Sha256,
    Argon2 { memory_cost: u32, time_cost: u32, parallelism: u32 },
}

impl Default for KeyDerivation {
    fn default() -> (r: Self)
        ensures
            r == KeyDerivation::Sha256,
    {
        KeyDerivation::Sha256
    }
}

/// Memory in KiB that Argon2 takes if nothing else is asked for.
pub fn default_memory_cost() -> (r: u32)
    ensures
        r == 65536,
{
    65536
}

/// Passes that Argon2 makes if nothing else is asked for.
pub fn default_time_cost() -> (r: u32)
    ensures
        r == 3,
{
    3
}

/// Lanes that Argon2 works in if nothing else is asked for.
pub fn default_parallelism() -> (r: u32)
    ensures
        r == 4,
{
    4
}

impl KeyDerivation {
    /// The costs are within the limits of the derivation.
    pub open spec fn valid(self) -> bool {
        match self {
            KeyDerivation::Sha256 => true,
            KeyDerivation::Argon2 { memory_cost, time_cost, parallelism } => 1 <= parallelism
                <= 0xFFFFFF && 8 * parallelism <= memory_cost && 1 <= time_cost,
        }
    }

    /// True if the costs are within the limits of the derivation.
    pub fn is_valid(&self) -> (r: bool)
        ensures
            r == self.valid(),
    {
        match self {
            KeyDerivation::Sha256 => true,
            KeyDerivation::Argon2 { memory_cost, time_cost, parallelism } => {
                1 <= *parallelism && *parallelism <= 0xFFFFFF && 8 * *parallelism <= *memory_cost
                    && 1 <= *time_cost
            },
        }
    }
}

/// A key and a nonce.
pub struct Cipher {
    pub key: Seq<u8>,
    pub nonce: Seq<u8>,
}

impl Cipher {
    /// The keystream byte for a position of the disk.
    pub open spec fn pad(self, pos: int) -> u8 {
        chacha20_keystream(self.key, self.nonce, pos as nat)
    }
}

/// `data`, which lies at `addr`, with the keystream applied; unchanged without a cipher.
pub open spec fn crypted(cipher: Option<Cipher>, addr: int, data: Seq<u8>) -> Seq<u8> {
    match cipher {
        Some(c) => Seq::new(data.len(), |i: int| data[i] ^ c.pad(addr + i)),
        None => data,
    }
}

/// The key for a password.
pub open spec fn derived_key(password: Seq<char>, nonce: Seq<u8>, kd: KeyDerivation) -> Seq<u8> {
    match kd {
        KeyDerivation::Sha256 => sha256(encode_utf8(password)),
        KeyDerivation::Argon2 { memory_cost, time_cost, parallelism } => argon2id(
            encode_utf8(password),
            nonce,
            memory_cost,
            time_cost,
            parallelism,
        ),
    }
}

/// Stream cipher over the addresses of a disk.
#[derive(Clone, Copy)]
pub struct Crypto {
    /// ChaCha20 takes a 256-bit key.
    key: [u8; 32],
    /// ChaCha20 takes a 96-bit nonce.
    pub nonce: [u8; 12],
}

impl View for Crypto {
    type V = Cipher;

    closed spec fn view(&self) -> Cipher {
        Cipher { key: self.key@, nonce: self.nonce@ }
    }
}

impl Crypto {
    /// The cipher for a password and a nonce.
    pub fn new(password: &str, nonce: [u8; 12], kd: &KeyDerivation) -> (r: Self)
        requires
            kd.valid(),
            *kd != KeyDerivation::Sha256 ==> encode_utf8(password@).len() <= 0xFFFFFFFF,
        ensures
            r@ == (Cipher { key: derived_key(password@, nonce@, *kd), nonce: nonce@ }),
    {
        let key = match kd {
            KeyDerivation::Sha256 => sha256_digest(password.as_bytes()),
            KeyDerivation::Argon2 { memory_cost, time_cost, parallelism } => argon2_hash(
                password.as_bytes(),
                nonce.as_slice(),
                *memory_cost,
                *time_cost,
                *parallelism,
            ),
        };
        Crypto { key, nonce }
    }

    /// Applies the keystream to `data`, which lies at `addr`.
    pub fn apply(&self, addr: u64, data: &mut Vec<u8>)
        requires
            addr + old(data)@.len() <= KEYSTREAM_LIMIT,
        ensures
            final(data)@ == crypted(Some(self@), addr as int, old(data)@),
    {
        let ghost before = data@;
        chacha20_apply(&self.key, &self.nonce, addr, data);
        assert(data@ =~= crypted(Some(self@), addr as int, before));
    }

    /// A random nonce.
    pub fn gen_nonce() -> (r: [u8; 12]) {
        random_nonce()
    }
}

proof fn lemma_xor_twice(a: u8, b: u8)
    ensures
        (a ^ b) ^ b == a,
{
    assert((a ^ b) ^ b == a) by (bit_vector);
}

/// Applying the keystream twice at one address gives the data back.
pub proof fn apply_undoes_itself(cipher: Option<Cipher>, addr: int, data: Seq<u8>)
    ensures
        crypted(cipher, addr, crypted(cipher, addr, data)) == data,
{
    if cipher is Some {
        assert forall|i: int| 0 <= i < data.len() implies crypted(
            cipher,
            addr,
            crypted(cipher, addr, data),
        )[i] == data[i] by {
            lemma_xor_twice(data[i], cipher->0.pad(addr + i));
        }
        assert(crypted(cipher, addr, crypted(cipher, addr, data)) =~= data);
    }
}

/// A part of the data can be decrypted by itself, at its own address.
pub proof fn apply_is_seekable(cipher: Option<Cipher>, addr: int, data: Seq<u8>, a: int, b: int)
    requires
        0 <= a <= b <= data.len(),
    ensures
        crypted(cipher, addr + a, data.subrange(a, b)) == crypted(cipher, addr, data).subrange(
            a,
            b,
        ),
{
    assert(crypted(cipher, addr + a, data.subrange(a, b)) =~= crypted(cipher, addr, data).subrange(
        a,
        b,
    ));
}

} // verus!
