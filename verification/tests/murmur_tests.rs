use simplehash::murmur::hash128::Lanes;
use simplehash::murmur::{fmix32, MurmurHasher128, MurmurHasher32};
use simplehash::{murmurhash3_128, murmurhash3_32};
use std::hash::Hasher;

fn murmur_input(len: usize) -> Vec<u8> {
    (0..len).map(|i| i as u8).collect()
}

#[test]
fn test_murmurhash3_32() {
    let data1 = b"hello";
    let result = murmurhash3_32(data1, 0);
    println!(
        "MurmurHash3-32 for 'hello' (seed 0): 0x{:x} ({})",
        result, result
    );
    assert_eq!(result, 0x248bfa47);

    let data2 = b"hello world";
    let result2 = murmurhash3_32(data2, 0);
    println!(
        "MurmurHash3-32 for 'hello world' (seed 0): 0x{:x} ({})",
        result2, result2
    );
    assert_eq!(result2, 0x5e928f0f);

    let data3 = b"";
    let result3 = murmurhash3_32(data3, 0);
    println!(
        "MurmurHash3-32 for '' (seed 0): 0x{:x} ({})",
        result3, result3
    );
    assert_eq!(result3, 0x00000000);

    let data4 = b"aaaa";
    let result4 = murmurhash3_32(data4, 0x9747b28c);
    println!(
        "MurmurHash3-32 for 'aaaa' (seed 0x9747b28c): 0x{:x} ({})",
        result4, result4
    );
    assert_eq!(result4, 0x5a97808a);
}

#[test]
fn test_murmurhash3_128() {
    let data = b"hello world";
    let result = murmurhash3_128(data, 0);
    println!(
        "MurmurHash3-128 for 'hello world' (seed 0): 0x{:x} ({})",
        result, result
    );
    assert_eq!(result, 0xda5a83a45b5afa925441a75936baf4f9);

    let empty = b"";
    let result_empty = murmurhash3_128(empty, 0);
    println!(
        "MurmurHash3-128 for '' (seed 0): 0x{:x} ({})",
        result_empty, result_empty
    );
    assert_eq!(result_empty, 0x00000000000000000000000000000000);
}

#[test]
fn fmix32_known_values() {
    assert_eq!(fmix32(0), 0);
    assert_eq!(fmix32(1), 0x514e28b7);
    assert_eq!(fmix32(0xffffffff), 0x81f16f39);
}

#[test]
fn murmur32_boundary_lengths() {
    let expected: [(usize, u32, u32); 12] = [
        (0, 0x00000000, 0x087fcd5c),
        (1, 0x514e28b7, 0xdd4449c2),
        (3, 0x51d4d0d7, 0x55339868),
        (4, 0xf4c0ec39, 0xc07061b1),
        (7, 0x8d7e4914, 0x9f13d60e),
        (8, 0xd161d673, 0x0843e47c),
        (15, 0x5bd6952d, 0xe7226d27),
        (16, 0x191573dd, 0xda27e4eb),
        (17, 0xcbe58dc6, 0x8ddb6fb5),
        (31, 0x64426ad6, 0x6e7d6121),
        (32, 0xcac37638, 0x068eef47),
        (33, 0x5460867a, 0xceba6008),
    ];
    for &(len, seed0, seed42) in expected.iter() {
        let data = murmur_input(len);
        assert_eq!(murmurhash3_32(&data, 0), seed0, "seed 0 at length {}", len);
        assert_eq!(murmurhash3_32(&data, 42), seed42, "seed 42 at length {}", len);
    }
}

#[test]
fn murmur128_boundary_lengths() {
    let expected: [(usize, u128, u128); 16] = [
        (0, 0x00000000000000000000000000000000, 0xe65ae004e65ae004e65ae004fc5c8caa),
        (1, 0xcc0d53cdcc0d53cdcc0d53cd249cb285, 0xcec951bbcec951bbcec951bb2ed27265),
        (3, 0xfcb82ee2fcb82ee2fcb82ee240e0d167, 0xa67f6fd1a67f6fd1a67f6fd167cbbc23),
        (4, 0x8707a2fb8707a2fb8707a2fb3215b0f6, 0xf9b92260f9b92260f9b922607ec9e0ce),
        (7, 0xfa62ddf1fa62ddf1f1ad285ce6873f99, 0x31e72c5731e72c5778d909e6e033d283),
        (8, 0xf47db222f47db2221f9843328960eb14, 0xac713c2aac713c2a8a50062de4ea1509),
        (15, 0x54fbb90dec673ef5ed2b487146ed5be6, 0x84f10168baabd44ac5547597d0a55ec1),
        (16, 0x1d7f93ca7e2db84fe96bb8c9e70cc343, 0x771255dac6501a7b1335a6ad0f15d4bf),
        (17, 0x37ac0e76434cd6d2cad2f73024fdc063, 0x7096cdd1fd0eb42596c1c1e2bf2b9dc2),
        (31, 0x762a4ab5214a292a8771f6dc05c52833, 0xd868ed01666810ff484512a8a2ecf153),
        (32, 0xc12e1ed1e10c0a78cdc7ec8366af5531, 0x380b2493cbda5089f44584212c1fd9de),
        (33, 0xd12fb1c7d009a0b6261b7b7c898947c1, 0x1d1aa6df02ea6d4a566b17abd9d8de2b),
        (47, 0xea78f0a78040fea184eb50110576a7b7, 0x16453db944b34daf26bad74d78418769),
        (48, 0x610dc82b413c90544fbbe981ccfe4ebc, 0x27e216415abde3f0aec007d4bf49b81d),
        (49, 0x527733a89abe0bbf89e137a4f4041993, 0x1876d8fce8496516c811afc818763008),
        (64, 0xb6a55e713c260c12642022ba7547365b, 0x7567f29ebc17f922087cbd73a3b21537),
    ];
    for &(len, seed0, seed42) in expected.iter() {
        let data = murmur_input(len);
        assert_eq!(murmurhash3_128(&data, 0), seed0, "seed 0 at length {}", len);
        assert_eq!(murmurhash3_128(&data, 42), seed42, "seed 42 at length {}", len);
    }
}

#[test]
fn murmur128_every_tail_length() {
    let expected: [u128; 16] = [
        0x8df9fd2a4ca90208b9563f401b069351,
        0x2383b0a7972d65bec7388fadb5495967,
        0xb4be5fbc2a3f3c7e864676008d788b39,
        0x6023d944c4bf9a52912242f0481bb032,
        0xd2ccf010944ec4c8705fc51f8a35a3e0,
        0x5ef43bda74f1219442fd7a0c2ed5eb9c,
        0x6e119c592e9976ea189c05427c168ce5,
        0xfce829aa213bb06d944cf602d31a551d,
        0x34dd24e584faebe3c3a3aad06f2386ae,
        0xf32dcc42dd098b22a449bea579bcc609,
        0xc301b640421d182529bf3696e7374b99,
        0x571edaac8d7e34cdd01d207b3fd23987,
        0xc2daee2acab02cddf4c6ae2374f8cda2,
        0xa595f06edb30d7b144a6790e8e4fd219,
        0x7c92d27013b1fbf16debf019688e1f14,
        0x6f482cdc255f7847bbc3b11a1ed09d58,
    ];
    for tail in 0..16usize {
        let data: Vec<u8> = (0..16 + tail).map(|i| (7 * i + 3) as u8).collect();
        assert_eq!(murmurhash3_128(&data, 0x9747b28c), expected[tail], "tail of {}", tail);
    }
}

#[test]
fn murmur_is_deterministic() {
    let data = b"the same bytes";
    assert_eq!(murmurhash3_32(data, 7), murmurhash3_32(data, 7));
    assert_eq!(murmurhash3_128(data, 7), murmurhash3_128(data, 7));
}

#[test]
fn murmur_seeds_change_the_hash() {
    let seeds: [u32; 6] = [0, 1, 42, 12345, 0x9747b28c, u32::MAX];
    for len in [1usize, 3, 4, 7, 16, 33] {
        let data = murmur_input(len);
        for (i, &a) in seeds.iter().enumerate() {
            for &b in seeds[i + 1..].iter() {
                assert_ne!(murmurhash3_32(&data, a), murmurhash3_32(&data, b));
                assert_ne!(murmurhash3_128(&data, a), murmurhash3_128(&data, b));
            }
        }
    }
}

#[test]
fn murmur_one_changed_bit_changes_the_hash() {
    assert_ne!(murmurhash3_32(b"hello world", 0), murmurhash3_32(b"hello worlD", 0));
    assert_ne!(murmurhash3_128(b"hello world", 0), murmurhash3_128(b"hello worlD", 0));
}

#[test]
fn murmur32_hasher_ignores_how_input_is_split() {
    let data = murmur_input(40);
    for len in 0..=data.len() {
        let whole = &data[..len];
        let expected = murmurhash3_32(whole, 0x9747b28c);
        for cut in 0..=len {
            let mut h = MurmurHasher32::new(0x9747b28c);
            h.write(&whole[..cut]);
            h.write(&whole[cut..]);
            assert_eq!(h.finish_u32(), expected, "length {} cut at {}", len, cut);
            assert_eq!(h.finish(), expected as u64);
        }
    }
}

#[test]
fn murmur32_hasher_byte_by_byte() {
    let data = murmur_input(33);
    let mut h = MurmurHasher32::default();
    for b in data.iter() {
        h.write(&[*b]);
    }
    assert_eq!(h.finish_u32(), murmurhash3_32(&data, 0));
}

#[test]
fn murmur32_hasher_three_way_split() {
    let data = murmur_input(23);
    let expected = murmurhash3_32(&data, 42);
    for first in 0..=data.len() {
        for second in first..=data.len() {
            let mut h = MurmurHasher32::new(42);
            h.write(&data[..first]);
            h.write(&data[first..second]);
            h.write(&data[second..]);
            assert_eq!(h.finish_u32(), expected);
        }
    }
}

#[test]
fn murmur128_hasher_ignores_how_input_is_split() {
    let data = murmur_input(70);
    for len in [0usize, 1, 3, 4, 7, 8, 15, 16, 17, 31, 32, 33, 47, 48, 49, 70] {
        let whole = &data[..len];
        let expected = murmurhash3_128(whole, 0x9747b28c);
        for cut in 0..=len {
            let mut h = MurmurHasher128::new(0x9747b28c);
            h.write(&whole[..cut]);
            h.write(&whole[cut..]);
            assert_eq!(h.finish_u128(), expected, "length {} cut at {}", len, cut);
            assert_eq!(h.finish(), expected as u64);
        }
    }
}

#[test]
fn murmur128_hasher_byte_by_byte() {
    let data = murmur_input(49);
    let mut h = MurmurHasher128::default();
    for b in data.iter() {
        h.write(&[*b]);
    }
    assert_eq!(h.finish_u128(), murmurhash3_128(&data, 0));
}

#[test]
fn murmur_finish_can_be_asked_twice() {
    let mut h = MurmurHasher32::new(5);
    h.write(b"abcde");
    let first = h.finish_u32();
    assert_eq!(h.finish_u32(), first);
    h.write(b"fgh");
    assert_eq!(h.finish_u32(), murmurhash3_32(b"abcdefgh", 5));
    let mut w = MurmurHasher128::new(5);
    w.write(b"abcde");
    let first = w.finish_u128();
    assert_eq!(w.finish_u128(), first);
    w.write(b"fgh");
    assert_eq!(w.finish_u128(), murmurhash3_128(b"abcdefgh", 5));
}

#[test]
fn murmur_hasher_without_input_hashes_the_empty_input() {
    assert_eq!(MurmurHasher32::new(9).finish_u32(), murmurhash3_32(b"", 9));
    assert_eq!(MurmurHasher128::new(9).finish_u128(), murmurhash3_128(b"", 9));
    assert_eq!(MurmurHasher32::new(0).finish_u32(), 0);
}

#[test]
fn murmur128_tail_reaches_only_the_lanes_it_touches() {
    let lanes = Lanes { h1: 1, h2: 2, h3: 3, h4: 4 };
    let bytes = murmur_input(15);

    let none = MurmurHasher128::process_tail(lanes, &bytes, 0, 0);
    assert_eq!((none.h1, none.h2, none.h3, none.h4), (1, 2, 3, 4));

    let five = MurmurHasher128::process_tail(lanes, &bytes, 0, 5);
    assert_ne!(five.h1, 1);
    assert_ne!(five.h2, 2);
    assert_eq!((five.h3, five.h4), (3, 4));

    let twelve = MurmurHasher128::process_tail(lanes, &bytes, 0, 12);
    assert_eq!(twelve.h1, five.h1);
    assert_ne!(twelve.h2, five.h2);
    assert_ne!(twelve.h3, 3);
    assert_eq!(twelve.h4, 4);

    let all = MurmurHasher128::process_tail(lanes, &bytes, 0, 15);
    assert_eq!((all.h1, all.h2, all.h3), (twelve.h1, twelve.h2, twelve.h3));
    assert_ne!(all.h4, 4);
}
