#[test]
fn interleaving() {
    let cases = [
        (0x00000000u32, 0x00000000u32, 0x0000000000000000u64),
        (0xffffffffu32, 0x00000000u32, 0x5555555555555555u64),
        (0x789e22e9u32, 0x8ed4182eu32, 0x95e8e37406845ce9u64),
        (0xb96346bbu32, 0xf8a80f02u32, 0xefc19c8510be454du64),
        (0xa1dfc6c2u32, 0x01c886f9u32, 0x4403f1d5d03cfa86u64),
        (0xfb59e296u32, 0xad2c6c02u32, 0xdde719e17ca4411cu64),
        (0x94e0bbf2u32, 0xb520e8b2u32, 0xcb325c00edc5df0cu64),
        (0x1638ca5fu32, 0x5e16a514u32, 0x23bc0768d8661375u64),
        (0xe15bbbf7u32, 0x0f6bf376u32, 0x54ab39cfef4f7f3du64),
        (0x06a476a7u32, 0x94f35ec7u32, 0x8234ee1a37bce43fu64),
    ];
    for c in &cases {
        let res = geohash::interleave(c.0, c.1);
        assert!(res == c.2, "incorrect interleave result");

        let (x, y) = geohash::deinterleave(c.2);
        assert!(c.0 == x && c.1 == y, "incorrect deinterleave result");
    }
}

#[test]
fn base32_decode() {
    let x = geohash::base32::decode("ezs42".as_bytes());
    assert!(0xdfe082 == x, "incorrect base64 decoding");
}

#[test]
fn base32_encode() {
    let enc = geohash::base32::encode(0xdfe082);
    let s = std::str::from_utf8(&enc).unwrap();
    assert!("0000000ezs42" == s, "incorrect base64 encoding");
}

#[test]
fn neighbors_test() {
    let cases = [
        (
            "ezs42",
            ["ezs48", "ezs49", "ezs43", "ezs41", "ezs40", "ezefp", "ezefr", "ezefx"],
        ),
        (
            "9q8yy",
            ["9q8zn", "9q8zp", "9q8yz", "9q8yx", "9q8yw", "9q8yt", "9q8yv", "9q8zj"],
        ),
        (
            "u4pruydqqvj",
            [
                "u4pruydqqvm",
                "u4pruydqqvq",
                "u4pruydqqvn",
                "u4pruydqquy",
                "u4pruydqquv",
                "u4pruydqquu",
                "u4pruydqqvh",
                "u4pruydqqvk",
            ],
        ),
    ];
    for c in &cases {
        let neighbors = geohash::neighbors(c.0);
        for i in 0..neighbors.len() {
            let neighbor = &neighbors[i];
            let expected = c.1[i];
            assert!(
                neighbor == expected,
                "actual: {} \n expected: {}\n",
                neighbor,
                expected
            );
        }
    }
}

#[test]
fn neighbors_int_test() {
    let cases = [(
        6456360425798343065u64,
        vec![
            6456360425798343068u64,
            6456360425798343070u64,
            6456360425798343067u64,
            6456360425798343066u64,
            6456360425798343064u64,
            6456360425798343058u64,
            6456360425798343059u64,
            6456360425798343062u64,
        ],
    )];

    for c in &cases {
        let neighbors = geohash::neighbors_int(c.0);
        for i in 0..neighbors.len() {
            let neighbor = &neighbors[i];
            let expected = &c.1[i];
            assert!(
                neighbor == expected,
                "neighbor: {} does not match expected: {}",
                neighbor,
                expected
            );
        }
    }
}

#[test]
fn neighbor_int_with_precision_test() {
    let cases = [
        (
            0xdfe082u64,
            25usize,
            [
                14672008u64, 14672009, 14672003, 14672001, 14672000, 14661077, 14661079, 14661085,
            ],
        ),
        (
            403522526612396441u64,
            60usize,
            [
                403522526612396444u64,
                403522526612396446,
                403522526612396443,
                403522526612396442,
                403522526612396440,
                403522526612396434,
                403522526612396435,
                403522526612396438,
            ],
        ),
    ];
    for c in &cases {
        for direction in 0..8 {
            let neighbor = geohash::neighbor_int_with_precision(c.0, c.1, direction);
            let expected = c.2[direction];
            assert!(
                neighbor == expected,
                "actual: {} \n expected: {}\n",
                neighbor,
                expected
            );
        }
    }
}

#[test]
fn neighbor_directions() {
    // the single-neighbor lookups agree with the full ring, in order
    let ns = geohash::neighbors("ezs42");
    for direction in 0..8 {
        assert_eq!(geohash::neighbor("ezs42", direction), ns[direction]);
    }
    let ni = geohash::neighbors_int(6456360425798343065);
    for direction in 0..8 {
        assert_eq!(geohash::neighbor_int(6456360425798343065, direction), ni[direction]);
    }
}

#[test]
fn neighbors_int_saturate_at_edges() {
    // the south-west corner cell: steps south or west stay at the edge
    assert_eq!(geohash::neighbors_int_with_precision(0, 4), [1, 3, 2, 2, 0, 0, 0, 1]);
    // the north-east corner cell: steps north or east stay at the edge
    assert_eq!(
        geohash::neighbors_int_with_precision(15, 4),
        [15, 15, 15, 14, 14, 12, 13, 13]
    );
}
