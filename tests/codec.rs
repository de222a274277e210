use ulid_wasm::{
    decode_time, encode_random, encode_random_default, encode_time, increment_base32, index_of,
    random_char, replace_char_at, symbol_at, ulid, MonotonicContext, UlidError,
};

const ALPHABET: &str = "0123456789ABCDEFGHJKMNPQRSTVWXYZ";
const TIME_MAX: u64 = (1u64 << 48) - 1;

fn all_in_alphabet(s: &str) -> bool {
    s.chars().all(|c| ALPHABET.contains(c))
}

#[test]
fn alphabet_round_trip() {
    for (i, c) in ALPHABET.chars().enumerate() {
        assert_eq!(symbol_at(i as u8), c);
        assert_eq!(index_of(c), Ok(i as u8));
    }
    assert_eq!(index_of('I'), Err(UlidError::InvalidCharacter('I')));
    assert_eq!(index_of('L'), Err(UlidError::InvalidCharacter('L')));
    assert_eq!(index_of('O'), Err(UlidError::InvalidCharacter('O')));
    assert_eq!(index_of('U'), Err(UlidError::InvalidCharacter('U')));
    assert_eq!(index_of('a'), Err(UlidError::InvalidCharacter('a')));
}

#[test]
fn encode_time_reference_vector() {
    assert_eq!(encode_time(1469918176385, 10).unwrap(), "01ARYZ6S41");
}

#[test]
fn encode_time_bounds() {
    assert_eq!(encode_time(0, 10).unwrap(), "0000000000");
    assert_eq!(encode_time(TIME_MAX, 10).unwrap(), "7ZZZZZZZZZ");
    assert_eq!(encode_time(TIME_MAX + 1, 10), Err(UlidError::TimeTooLarge));
    assert_eq!(encode_time(u64::MAX, 10), Err(UlidError::TimeTooLarge));
}

#[test]
fn encode_time_other_lengths() {
    assert_eq!(encode_time(33, 0).unwrap(), "");
    assert_eq!(encode_time(33, 2).unwrap(), "11");
    assert_eq!(encode_time(33, 1).unwrap(), "1");
    assert_eq!(encode_time(31, 3).unwrap(), "00Z");
}

#[test]
fn decode_time_reference_vector() {
    let id = "01ARYZ6S41".to_string() + "0123456789ABCDEF";
    assert_eq!(decode_time(&id), Ok(1469918176385));
}

#[test]
fn decode_time_ignores_random_segment() {
    let id = "01ARYZ6S41".to_string() + "!!!!!!!!!!!!!!!!";
    assert_eq!(decode_time(&id), Ok(1469918176385));
}

#[test]
fn decode_time_wrong_length() {
    assert_eq!(decode_time(""), Err(UlidError::MalformedInput));
    assert_eq!(decode_time("01ARYZ6S41000000000000000"), Err(UlidError::MalformedInput));
    assert_eq!(decode_time("01ARYZ6S41000000000000000000"), Err(UlidError::MalformedInput));
}

#[test]
fn decode_time_invalid_character_rightmost() {
    let id = "I1ARYZ6S4U".to_string() + "0000000000000000";
    assert_eq!(decode_time(&id), Err(UlidError::InvalidCharacter('U')));
    let id = "01ARYZ6SL1".to_string() + "0000000000000000";
    assert_eq!(decode_time(&id), Err(UlidError::InvalidCharacter('L')));
}

#[test]
fn decode_time_too_large() {
    let id = "8000000000".to_string() + "0000000000000000";
    assert_eq!(decode_time(&id), Err(UlidError::TimeTooLarge));
    let id = "7ZZZZZZZZZ".to_string() + "0000000000000000";
    assert_eq!(decode_time(&id), Ok(TIME_MAX));
}

#[test]
fn decode_encode_round_trip() {
    for t in [0u64, 1, 31, 32, 1023, 1469918176385, TIME_MAX - 1, TIME_MAX] {
        let id = encode_time(t, 10).unwrap() + "ZZZZZZZZZZZZZZZZ";
        assert_eq!(decode_time(&id), Ok(t));
    }
}

#[test]
fn increment_simple() {
    assert_eq!(increment_base32("0").unwrap(), "1");
    assert_eq!(increment_base32("H").unwrap(), "J");
    assert_eq!(increment_base32("0Z").unwrap(), "10");
    assert_eq!(increment_base32("1ZZ").unwrap(), "200");
    assert_eq!(increment_base32("!A").unwrap(), "!B");
}

#[test]
fn increment_sorts_after() {
    for s in ["0000000000000000", "0123456789ABCDEF", "YZZZZZZZZZZZZZZZ", "ZZZZZZZZZZZZZZZY"] {
        let t = increment_base32(s).unwrap();
        assert_eq!(t.len(), s.len());
        assert!(t.as_str() > s);
    }
}

#[test]
fn increment_never_revisits() {
    let mut seen = vec!["ZZX".to_string()];
    let mut cur = "ZZX".to_string();
    loop {
        match increment_base32(&cur) {
            Ok(next) => {
                assert!(!seen.contains(&next));
                seen.push(next.clone());
                cur = next;
            }
            Err(e) => {
                assert_eq!(e, UlidError::Overflow);
                break;
            }
        }
    }
    assert_eq!(seen, vec!["ZZX", "ZZY", "ZZZ"]);
}

#[test]
fn increment_overflow() {
    assert_eq!(increment_base32("ZZZZZZZZZZZZZZZZ"), Err(UlidError::Overflow));
    assert_eq!(increment_base32(""), Err(UlidError::Overflow));
}

#[test]
fn increment_invalid_character() {
    assert_eq!(increment_base32("A!Z"), Err(UlidError::InvalidCharacter('!')));
    assert_eq!(increment_base32("AU"), Err(UlidError::InvalidCharacter('U')));
}

#[test]
fn replace_char_at_cases() {
    assert_eq!(replace_char_at("abc", 1, 'X'), "aXc");
    assert_eq!(replace_char_at("abc", 0, 'X'), "Xbc");
    assert_eq!(replace_char_at("abc", 2, 'X'), "abX");
    assert_eq!(replace_char_at("abc", 3, 'X'), "abc");
    assert_eq!(replace_char_at("abc", 100, 'X'), "abc");
    assert_eq!(replace_char_at("", 0, 'X'), "");
}

#[test]
fn random_char_picks_by_remainder() {
    assert_eq!(random_char(0), '0');
    assert_eq!(random_char(10), 'A');
    assert_eq!(random_char(31), 'Z');
    assert_eq!(random_char(32), '0');
    assert_eq!(random_char(33), '1');
    assert_eq!(random_char(u64::MAX), 'Z');
}

#[test]
fn encode_random_with_draws() {
    assert_eq!(encode_random(&vec![]), "");
    assert_eq!(encode_random(&vec![1, 33, 18, 31, 64]), "11JZ0");
}

#[test]
fn encode_random_default_shape() {
    let s = encode_random_default(16);
    assert_eq!(s.chars().count(), 16);
    assert!(all_in_alphabet(&s));
    assert_eq!(encode_random_default(0), "");
}

#[test]
fn ulid_with_draws() {
    let draws: Vec<u64> = (0..16).collect();
    let id = ulid(1469918176385, Some(draws)).unwrap();
    assert_eq!(id, "01ARYZ6S410123456789ABCDEF");
}

#[test]
fn ulid_default_round_trip() {
    for t in [0u64, 1469918176385, TIME_MAX] {
        let id = ulid(t, None).unwrap();
        assert_eq!(id.len(), 26);
        assert!(all_in_alphabet(&id));
        assert_eq!(decode_time(&id), Ok(t));
    }
}

#[test]
fn ulid_time_too_large() {
    assert_eq!(ulid(TIME_MAX + 1, None), Err(UlidError::TimeTooLarge));
}

#[test]
fn monotonic_sequence_increases() {
    let mut ctx = MonotonicContext::new();
    let seeds = [100u64, 100, 100, 50, 200];
    let mut out: Vec<String> = Vec::new();
    for (i, &seed) in seeds.iter().enumerate() {
        let draws: Vec<u64> = (0..16).map(|k| (k * 7 + i as u64) % 32).collect();
        out.push(ctx.ulid(seed, Some(draws)).unwrap());
    }
    for pair in out.windows(2) {
        assert!(pair[1] > pair[0]);
    }
    let time_100 = encode_time(100, 10).unwrap();
    assert_eq!(&out[2][..10], time_100);
    assert_eq!(&out[3][..10], time_100);
    assert_eq!(&out[4][..10], encode_time(200, 10).unwrap());
    assert_eq!(decode_time(&out[3]), Ok(100));
}

#[test]
fn monotonic_exact_values() {
    let mut ctx = MonotonicContext::new();
    let first = ctx.ulid(100, Some(vec![31; 16])).unwrap();
    assert_eq!(first, "0000000034ZZZZZZZZZZZZZZZZ");
    assert_eq!(ctx.ulid(100, None), Err(UlidError::Overflow));
    let draws: Vec<u64> = vec![0; 16];
    let next = ctx.ulid(101, Some(draws)).unwrap();
    assert_eq!(next, "00000000350000000000000000");
    assert_eq!(ctx.ulid(90, None).unwrap(), "00000000350000000000000001");
}

#[test]
fn monotonic_default_source() {
    let mut ctx = MonotonicContext::new();
    let a = ctx.ulid(5, None).unwrap();
    let b = ctx.ulid(5, None).unwrap();
    let c = ctx.ulid(6, None).unwrap();
    assert!(a < b && b < c);
    assert!(all_in_alphabet(&a) && all_in_alphabet(&c));
}

#[test]
fn monotonic_fresh_at_zero_overflows() {
    let mut ctx = MonotonicContext::new();
    assert!(!ctx.is_fresh(0));
    assert!(ctx.is_fresh(1));
    assert_eq!(ctx.ulid(0, None), Err(UlidError::Overflow));
}

#[test]
fn monotonic_time_too_large() {
    let mut ctx = MonotonicContext::new();
    assert_eq!(ctx.ulid(TIME_MAX + 1, None), Err(UlidError::TimeTooLarge));
    assert_eq!(ctx.ulid(3, None), Err(UlidError::TimeTooLarge));
}
