use geohash::base32;
use geohash::ErrorKind;

#[test]
fn base32_round_trip_values() {
    // every value below 2^60 survives the 12-symbol round trip
    let cases = [0u64, 1, 31, 32, 0xdfe082, 0xfff_ffff_ffff_ffff, 987654321987654321];
    for &x in &cases {
        let enc = base32::encode(x);
        assert_eq!(base32::decode(&enc), x);
    }
    // the top four bits of a 64-bit value have no symbol and are lost
    let x = (1u64 << 60) + 5;
    assert_eq!(base32::decode(&base32::encode(x)), 5);
}

#[test]
fn base32_decode_substitutes_zero() {
    // bytes outside the alphabet decode as the zero symbol
    assert_eq!(
        base32::decode("e!s42".as_bytes()),
        base32::decode("e0s42".as_bytes())
    );
    assert_eq!(base32::decode("e!s42".as_bytes()), 0xd06082);
    // uppercase and the four excluded letters count as zero too
    assert_eq!(base32::decode("EZS42".as_bytes()), base32::decode("00042".as_bytes()));
    assert_eq!(base32::decode("ailo0".as_bytes()), 0);
}

#[test]
fn valid_byte_alphabet() {
    for &b in "0123456789bcdefghjkmnpqrstuvwxyz".as_bytes() {
        assert!(base32::valid_byte(b), "alphabet byte {} should be valid", b);
    }
    // 'a' is accepted although it is not an alphabet symbol
    assert!(base32::valid_byte(b'a'));
    for &b in "AILOZ !-@[`{".as_bytes() {
        assert!(!base32::valid_byte(b), "byte {} should be invalid", b);
    }
    assert!(!base32::valid_byte(b'i'));
    assert!(!base32::valid_byte(b'l'));
    assert!(!base32::valid_byte(b'o'));
    assert!(!base32::valid_byte(200));
}

#[test]
fn validate_results() {
    assert_eq!(geohash::validate("ezs42"), Ok(()));
    assert_eq!(geohash::validate(""), Ok(()));
    assert_eq!(geohash::validate("0123456789bc"), Ok(()));
    // 'a' passes validation
    assert_eq!(geohash::validate("eza42"), Ok(()));
    // 13 characters would be 65 bits of precision
    assert_eq!(
        geohash::validate("0123456789bcd"),
        Err(ErrorKind::InvalidLength)
    );
    // the first offending byte is reported
    assert_eq!(
        geohash::validate("ez!4A"),
        Err(ErrorKind::InvalidCharacter(b'!'))
    );
    assert_eq!(
        geohash::validate("ezA42"),
        Err(ErrorKind::InvalidCharacter(b'A'))
    );
}

#[test]
fn hash_string_renders_tail_symbols() {
    assert_eq!(geohash::hash_string(0xdfe082, 5), "ezs42");
    assert_eq!(geohash::hash_string(0xdfe082, 12), "0000000ezs42");
    assert_eq!(geohash::hash_string(0, 1), "0");
    assert_eq!(geohash::hash_string(31, 1), "z");
}

#[test]
fn string_int_round_trip() {
    // decoding a rendered string recovers the integer it rendered
    let cases: [(u64, usize); 4] = [
        (0xdfe082, 5),
        (0, 1),
        ((1u64 << 60) - 1, 12),
        (987654321987 & ((1u64 << 40) - 1), 8),
    ];
    for &(h, k) in &cases {
        let s = geohash::hash_string(h, k);
        assert_eq!(base32::decode(s.as_bytes()), h);
    }
}

#[test]
fn neighbors_are_valid_hashes() {
    for n in geohash::neighbors("ezs42").iter() {
        assert_eq!(geohash::validate(n), Ok(()));
        assert_eq!(n.len(), 5);
    }
}

#[test]
fn prefix_property_of_hash_strings() {
    // the string of the top 5*k bits is a prefix of the next longer one
    let full = 0xdfe082u64 << 39;
    let mut previous = String::new();
    for k in 1..=12usize {
        let s = geohash::hash_string(full >> (64 - 5 * k), k);
        assert_eq!(s.len(), k);
        assert!(s.starts_with(&previous), "{} is no prefix of {}", previous, s);
        previous = s;
    }
}
