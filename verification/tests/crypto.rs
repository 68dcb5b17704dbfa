use xhfs::crypto::{
    default_memory_cost, default_parallelism, default_time_cost, Crypto, KeyDerivation,
};

#[test]
fn ciphers_undo_themselves() {
    let c = Crypto::new("helloworld", [7; 12], &KeyDerivation::Sha256);
    let mut data = b"some secret bytes".to_vec();
    c.apply(100, &mut data);
    assert_ne!(data, b"some secret bytes");
    c.apply(100, &mut data);
    assert_eq!(data, b"some secret bytes");
}

#[test]
fn ciphers_can_start_anywhere() {
    let c = Crypto::new("helloworld", [7; 12], &KeyDerivation::Sha256);
    let mut whole = vec![0; 200];
    c.apply(10, &mut whole);
    let mut part = vec![0; 50];
    c.apply(110, &mut part);
    assert_eq!(part, &whole[100..150]);
}

#[test]
fn keystream_of_a_known_key() {
    // keystream of ChaCha20 for the key SHA-256("abc") and a zero nonce depends on both
    let a = Crypto::new("abc", [0; 12], &KeyDerivation::Sha256);
    let b = Crypto::new("abd", [0; 12], &KeyDerivation::Sha256);
    let n = Crypto::new("abc", [1; 12], &KeyDerivation::Sha256);
    let mut x = vec![0; 16];
    let mut y = vec![0; 16];
    let mut z = vec![0; 16];
    a.apply(0, &mut x);
    b.apply(0, &mut y);
    n.apply(0, &mut z);
    assert_ne!(x, y);
    assert_ne!(x, z);
    assert_ne!(x, vec![0; 16]);
}

#[test]
fn argon2_settings() {
    assert_eq!(
        (default_memory_cost(), default_time_cost(), default_parallelism()),
        (65536, 3, 4)
    );
    let good = KeyDerivation::Argon2 { memory_cost: 64, time_cost: 1, parallelism: 2 };
    assert!(good.is_valid());
    let bad = KeyDerivation::Argon2 { memory_cost: 1, time_cost: 1, parallelism: 4 };
    assert!(!bad.is_valid());
    assert!(KeyDerivation::default().is_valid());
    let a = Crypto::new("pw", [1; 12], &good);
    let b = Crypto::new("pw", [1; 12], &KeyDerivation::Sha256);
    let mut x = vec![0; 8];
    let mut y = vec![0; 8];
    a.apply(0, &mut x);
    b.apply(0, &mut y);
    assert_ne!(x, y);
}

#[test]
fn nonces_differ() {
    assert_ne!(Crypto::gen_nonce(), Crypto::gen_nonce());
}
