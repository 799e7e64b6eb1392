use tmm::cipher::{decrypt_bytes, decrypt_mapper, encrypt_mapper, encrypt_text};

fn sample(len: usize) -> Vec<u8> {
    let mut v = Vec::with_capacity(len);
    let mut x: u32 = 0x1234_5678;
    for _ in 0..len {
        x = x.wrapping_mul(1_664_525).wrapping_add(1_013_904_223);
        v.push((x >> 24) as u8);
    }
    v
}

#[test]
fn round_trip_of_short_buffers() {
    for len in [0usize, 1, 2, 3, 4, 5, 15, 16, 17, 31, 32, 33, 47, 48, 49, 100, 255, 256, 1000] {
        let plain = sample(len);
        let secret = encrypt_mapper(&plain);
        assert_eq!(secret.len(), plain.len());
        assert_eq!(decrypt_bytes(&secret), plain, "length {}", len);
    }
}

#[test]
fn encrypt_of_empty_is_empty() {
    assert_eq!(encrypt_mapper(&[]), Vec::<u8>::new());
    assert_eq!(decrypt_bytes(&[]), Vec::<u8>::new());
}

#[test]
fn encrypt_single_byte_is_xor_with_first_key_byte() {
    assert_eq!(encrypt_mapper(&[0x00]), vec![b'G']);
    assert_eq!(encrypt_mapper(&[b'G']), vec![0x00]);
}

#[test]
fn encrypt_two_bytes_skips_the_swap() {
    assert_eq!(encrypt_mapper(&[0, 0]), vec![b'G', b'e']);
}

#[test]
fn encrypt_three_bytes_swaps_the_last_two() {
    // after XOR: 'G', 'e', 'n'; one swap of positions 1 and 2
    assert_eq!(encrypt_mapper(&[0, 0, 0]), vec![b'G', b'n', b'e']);
}

#[test]
fn encrypt_sixteen_zero_bytes() {
    // XOR gives the first 16 key bytes; four swaps exchange 1<->15, 3<->13,
    // 5<->11, 7<->9; then the block permutation.
    let key = b"GeneratePackageMapper";
    let mut buf: Vec<u8> = key[..16].to_vec();
    for (a, b) in [(1usize, 15usize), (3, 13), (5, 11), (7, 9)] {
        buf.swap(a, b);
    }
    let table = [12usize, 6, 9, 4, 3, 14, 1, 10, 13, 2, 7, 15, 0, 8, 5, 11];
    let expected: Vec<u8> = table.iter().map(|&i| buf[i]).collect();
    assert_eq!(encrypt_mapper(&[0u8; 16]), expected);
}

#[test]
fn trailing_partial_block_is_not_permuted() {
    let plain = sample(20);
    let secret = encrypt_mapper(&plain);
    // positions 16..20 are only XORed and mirror-swapped
    let key = b"GeneratePackageMapper";
    let mut buf: Vec<u8> = plain.iter().enumerate().map(|(i, b)| b ^ key[i % 21]).collect();
    let count = (20 / 2 + 1) / 2;
    let (mut a, mut b) = (1usize, 19usize);
    for _ in 0..count {
        buf.swap(a, b);
        a += 2;
        b -= 2;
    }
    assert_eq!(&secret[16..], &buf[16..]);
}

#[test]
fn text_round_trip() {
    let text = "a.gpk?X.Y.Z,e1,10,5,|!";
    let secret = encrypt_text(text);
    assert_ne!(secret, text.as_bytes().to_vec());
    assert_eq!(decrypt_mapper(&secret), text);
}

#[test]
fn decrypt_replaces_malformed_utf8() {
    let secret = encrypt_mapper(&[b'a', 0xff, b'b']);
    assert_eq!(decrypt_mapper(&secret), "a\u{fffd}b");
}
