use fuzzyhash::{FuzzyHash, Hasher, Modes, Roll};

fn pseudo_random(n: usize) -> Vec<u8> {
    let mut x: u64 = 12345;
    let mut out = Vec::new();
    for _ in 0..n {
        x = (x * 1103515245 + 12345) % (1u64 << 31);
        out.push(((x >> 16) & 0xff) as u8);
    }
    out
}

fn repeated_pattern() -> Vec<u8> {
    let pattern = pseudo_random(20);
    let mut out = Vec::new();
    for _ in 0..40 {
        out.extend_from_slice(&pattern);
    }
    out
}

fn digest_of(data: &[u8], mode: Modes) -> String {
    let mut h = Hasher::new();
    h.update(data, data.len());
    h.digest(mode)
}

fn is_base64(c: char) -> bool {
    c.is_ascii_alphanumeric() || c == '+' || c == '/'
}

fn assert_hash_form(h: &str) {
    let parts: Vec<&str> = h.split(':').collect();
    assert_eq!(parts.len(), 3, "{}", h);
    assert!(!parts[0].is_empty() && parts[0].chars().all(|c| c.is_ascii_digit()), "{}", h);
    for sig in &parts[1..] {
        assert!(sig.len() <= 64, "{}", h);
        assert!(sig.chars().all(is_base64), "{}", h);
    }
    let size: u64 = parts[0].parse().unwrap();
    assert!((0..31).any(|k| size == 3u64 << k), "{}", h);
}

#[test]
fn hash_short_text() {
    let h = FuzzyHash::new(b"this is our test data!");
    assert_eq!(h.to_string(), "3:YKKGhR0tn:YRGRmn");
}

#[test]
fn hash_single_byte_repeats_character_in_second_signature() {
    assert_eq!(FuzzyHash::new(b"a").to_string(), "3:E:E");
}

#[test]
fn hash_empty_input() {
    assert_eq!(FuzzyHash::new(b"").to_string(), "3::");
}

#[test]
fn hash_pseudo_random_all_modes() {
    let data = pseudo_random(20000);
    assert_eq!(
        digest_of(&data, Modes::Normal),
        "384:i3Czmxamnbhed1HQ6NTX1Z9RkTZw/1Kq/pzzb8cEtoGw0RKN2xUTxkDVCqxPm9/:9ubhew6lXkT6/0q1vN0o0RKAxQCkEPm1"
    );
    assert_eq!(
        digest_of(&data, Modes::EliminateSequences),
        "384:i3Czmxamnbhed1HQ6NTX1Z9RkTZw/1Kq/pzzb8cEtoGw0RKN2xUTxkDVCqxPm9/:9ubhew6lXkT6/0q1vN0o0RKAxQCkEPm1"
    );
    assert_eq!(
        digest_of(&data, Modes::DoNotTruncate),
        "384:i3Czmxamnbhed1HQ6NTX1Z9RkTZw/1Kq/pzzb8cEtoGw0RKN2xUTxkDVCqxPm9/:9ubhew6lXkT6/0q1vN0o0RKAxQCkEPm9/"
    );
}

#[test]
fn hash_repeated_pattern_modes() {
    let data = repeated_pattern();
    assert_eq!(
        digest_of(&data, Modes::Normal),
        "24:be2e2e2e2e2e2e2e2e2e2e2e2e2e2e2e2e2e2e2e2e2e2e2e2e2e2e2e2e2e2e2/:bDDDDDDDDDDDDDDDDDDDDDDDDDDDDDDL"
    );
    assert_eq!(
        digest_of(&data, Modes::EliminateSequences),
        "24:be2e2e2e2e2e2e2e2e2e2e2e2e2e2e2e2e2e2e2e2e2e2e2e2e2e2e2e2e2e2e2/:bDDDL"
    );
    assert_eq!(
        digest_of(&data, Modes::DoNotTruncate),
        "24:be2e2e2e2e2e2e2e2e2e2e2e2e2e2e2e2e2e2e2e2e2e2e2e2e2e2e2e2e2e2e2/:bDDDDDDDDDDDDDDDDDDDDDDDDDDDDDDDDDDDDDDDf"
    );
}

#[test]
fn digest_is_repeatable_and_hasher_keeps_going() {
    let data = pseudo_random(20000);
    let mut h = Hasher::new();
    h.update(&data[..7000], 7000);
    let early = h.digest(Modes::Normal);
    assert_eq!(early, h.digest(Modes::Normal));
    h.update(&data[7000..], data.len() - 7000);
    assert_eq!(
        h.digest(Modes::Normal),
        "384:i3Czmxamnbhed1HQ6NTX1Z9RkTZw/1Kq/pzzb8cEtoGw0RKN2xUTxkDVCqxPm9/:9ubhew6lXkT6/0q1vN0o0RKAxQCkEPm1"
    );
}

#[test]
fn update_takes_only_len_bytes() {
    let mut a = Hasher::new();
    a.update(b"this is our test data!XXXX", 22);
    assert_eq!(a.digest(Modes::Normal), "3:YKKGhR0tn:YRGRmn");
}

#[test]
fn fuzzy_hash_update_then_finalize() {
    let mut f = FuzzyHash::default();
    assert_eq!(f.to_string(), "");
    f.update(b"this is our ");
    f.update(b"test data!");
    f.finalize();
    assert_eq!(f.to_string(), "3:YKKGhR0tn:YRGRmn");
    f.update(b"more");
    f.finalize();
    assert_eq!(f.to_string(), "3:YKKGhR0tn:YRGRmn");
}

#[test]
fn digests_have_the_hash_form() {
    let inputs: Vec<Vec<u8>> = vec![
        Vec::new(),
        b"a".to_vec(),
        b"this is our test data!".to_vec(),
        pseudo_random(100),
        pseudo_random(5000),
        pseudo_random(70000),
        repeated_pattern(),
    ];
    for data in &inputs {
        for mode in [Modes::Normal, Modes::EliminateSequences, Modes::DoNotTruncate] {
            assert_hash_form(&digest_of(data, mode));
        }
    }
}

#[test]
fn own_digest_compares_at_100() {
    for n in [10usize, 300, 5000, 70000] {
        let h = FuzzyHash::new(&pseudo_random(n)).to_string();
        assert_eq!(FuzzyHash::compare(&h, &h).unwrap(), 100);
    }
}

#[test]
fn roll_sum_depends_on_last_seven_bytes() {
    let mut a = Roll::new();
    for c in b"abcdefg" {
        a.hash(*c);
    }
    let mut b = Roll::new();
    for c in b"xyzabcdefg" {
        b.hash(*c);
    }
    assert_eq!(a.sum(), 2181277295);
    assert_eq!(b.sum(), 2181277295);
}

#[test]
fn roll_sum_of_short_stream() {
    let mut a = Roll::new();
    for c in b"abc" {
        a.hash(*c);
    }
    assert_eq!(a.sum(), 102447);
    let mut b = Roll::new();
    for c in b"\0\0abc" {
        b.hash(*c);
    }
    assert_eq!(b.sum(), 102447);
    assert_eq!(Roll::new().sum(), 0);
}
