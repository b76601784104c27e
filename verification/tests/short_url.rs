use bookmarks::short_url::{
    decode, encode, seed_from, InvalidAliasError, ALPHABET, BASE, DEFAULT_SEED,
};

#[test]
fn test_short_url() {
    let value = encode(10000, DEFAULT_SEED);
    println!("10000 => {}", value);
    let value = encode(10124, DEFAULT_SEED);
    println!("10123 => {}", value);
    let value = decode("ASVasdfe", DEFAULT_SEED);
    println!("{:?}", value);
}

#[test]
fn aliases_under_the_default_seed() {
    assert_eq!(encode(10000, DEFAULT_SEED), "2HU");
    assert_eq!(encode(10124, DEFAULT_SEED), "2JQ");
    assert_eq!(decode("ASVasdfe", DEFAULT_SEED), Ok(162101904592870));
    assert_eq!(decode("2HU", DEFAULT_SEED), Ok(10000));
}

#[test]
fn alphabet_has_one_symbol_per_digit() {
    assert_eq!(BASE, 64);
    assert_eq!(ALPHABET.chars().count(), BASE);
    for (d, c) in ALPHABET.chars().enumerate() {
        let one: String = c.to_string();
        assert_eq!(decode(&one, 0), Ok(d));
        if d > 0 {
            assert_eq!(encode(d, 0), one);
        }
    }
}

#[test]
fn encode_known_values() {
    assert_eq!(encode(0, 0), "");
    assert_eq!(encode(1, 0), "1");
    assert_eq!(encode(63, 0), "_");
    assert_eq!(encode(64, 0), "10");
    assert_eq!(encode(0, 1000), "fE");
    assert_eq!(encode(1, 1000), "fF");
    assert_eq!(encode(123456789, 0), "7mYQl");
}

#[test]
fn decode_inverts_encode_on_a_range() {
    for seed in [0usize, 1, 63, 64, 1000, 4095, 4096, 1 << 40] {
        for id in (0usize..5000).chain([1 << 20, (1 << 32) + 17, usize::MAX - seed]) {
            let alias = encode(id, seed);
            assert_eq!(decode(&alias, seed), Ok(id), "id {} seed {}", id, seed);
        }
    }
}

#[test]
fn empty_alias_is_zero() {
    assert_eq!(decode("", 0), Ok(0));
    assert_eq!(decode("0", 0), Ok(0));
    assert_eq!(decode("000", 0), Ok(0));
}

#[test]
fn seed_changes_the_alias() {
    for id in 0usize..200 {
        assert_ne!(encode(id, 1000), encode(id, 1001));
        assert_ne!(encode(id, 0), encode(id, 64));
    }
}

#[test]
fn distinct_ids_have_distinct_aliases() {
    let mut seen = std::collections::HashSet::new();
    for id in 0usize..3000 {
        let alias = encode(id, DEFAULT_SEED);
        assert!(!alias.is_empty());
        assert!(seen.insert(alias));
    }
}

#[test]
fn decode_rejects_foreign_characters() {
    for bad in ["a b", "!", "abc+", "é", "12.3", "/", "a\n", "=", "ab~cd"] {
        assert_eq!(decode(bad, 0), Err(InvalidAliasError::UnknownSymbol), "{:?}", bad);
        assert_eq!(decode(bad, DEFAULT_SEED), Err(InvalidAliasError::UnknownSymbol));
    }
}

#[test]
fn decode_rejects_a_foreign_character_behind_an_overflow() {
    let long = format!("{}!", "_".repeat(40));
    assert_eq!(decode(&long, 0), Err(InvalidAliasError::UnknownSymbol));
}

#[test]
fn decode_rejects_numerals_beyond_the_word() {
    let long = "_".repeat(40);
    assert_eq!(decode(&long, 0), Err(InvalidAliasError::OutOfRange));
    let max = encode(usize::MAX, 0);
    assert_eq!(decode(&max, 0), Ok(usize::MAX));
    let beyond = format!("{}0", max);
    assert_eq!(decode(&beyond, 0), Err(InvalidAliasError::OutOfRange));
}

#[test]
fn decode_rejects_numbers_below_the_seed() {
    assert_eq!(decode("1", 1000), Err(InvalidAliasError::BelowSeed));
    assert_eq!(decode("", 1), Err(InvalidAliasError::BelowSeed));
    assert_eq!(decode("fD", 1000), Err(InvalidAliasError::BelowSeed));
    assert_eq!(decode("fE", 1000), Ok(0));
}

#[test]
fn seed_from_reads_the_setting() {
    assert_eq!(seed_from(None), 1000);
    assert_eq!(seed_from(None), DEFAULT_SEED);
    assert_eq!(seed_from(Some("0")), 0);
    assert_eq!(seed_from(Some("4242")), 4242);
    assert_eq!(seed_from(Some("+7")), 7);
    assert_eq!(seed_from(Some("")), 1000);
    assert_eq!(seed_from(Some("seed")), 1000);
    assert_eq!(seed_from(Some("-1")), 1000);
    assert_eq!(seed_from(Some(" 5")), 1000);
    assert_eq!(seed_from(Some("99999999999999999999999999")), 1000);
}
