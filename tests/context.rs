use fuzzyhash::blockhash::{HASH_INIT, HASH_PRIME};
use fuzzyhash::{Context, Hasher, Modes};

#[test]
fn context_starts_blank() {
    let c = Context::new();
    assert_eq!(c.h, 0);
    assert_eq!(c.half_h, 0);
    assert_eq!(c.digest, vec![0u8; 64]);
    assert_eq!(c.half_digest, 0);
    assert_eq!(c.d_len, 0);
}

#[test]
fn context_hash_steps_both_accumulators() {
    let mut c = Context::new();
    c.reset(true);
    assert_eq!(c.h, HASH_INIT);
    c.hash(97);
    assert_eq!(c.h, 1649278276);
    assert_eq!(c.half_h, 1649278276);
    assert_eq!(c.hash_full(255, 123456789), 2860767472);
    assert_eq!(c.hash_full(0, 0), 0);
    assert_eq!(c.hash_full(0, 1), HASH_PRIME);
}

#[test]
fn context_reset_moves_past_character() {
    let mut c = Context::new();
    c.reset(true);
    c.digest[0] = b'Q';
    c.half_digest = b'R';
    c.hash(1);
    c.reset(false);
    assert_eq!(c.d_len, 1);
    assert_eq!(c.digest[0], b'Q');
    assert_eq!(c.digest[1], 0);
    assert_eq!(c.h, HASH_INIT);
    assert_eq!(c.half_h, HASH_INIT);
    assert_eq!(c.half_digest, 0);
}

#[test]
fn context_reset_keeps_half_after_first_half() {
    let mut c = Context::new();
    c.d_len = 31;
    c.half_h = 7;
    c.half_digest = b'R';
    c.reset(false);
    assert_eq!(c.d_len, 32);
    assert_eq!(c.half_h, 7);
    assert_eq!(c.half_digest, b'R');
    assert_eq!(c.h, HASH_INIT);
}

#[test]
fn default_hasher_is_fresh() {
    let mut a = Hasher::default();
    let mut b = Hasher::new();
    a.update(b"abc", 3);
    b.update(b"abc", 3);
    assert_eq!(a.digest(Modes::Normal), b.digest(Modes::Normal));
}
