use aes::cipher::generic_array::GenericArray;
use aes::cipher::{BlockEncrypt, KeyInit};
use aes::Aes128;
use kgg_decryptor::database::{
    aes_cbc_decrypt, decrypt_database, decrypt_page1, derive_iv_seed, derive_page_iv,
    derive_page_key, md5, u32, PAGE_SIZE, SQLITE_HEADER,
};

fn hex(text: &str) -> Vec<u8> {
    (0..text.len() / 2).map(|i| u8::from_str_radix(&text[2 * i..2 * i + 2], 16).unwrap()).collect()
}

fn cbc_encrypt(data: &[u8], key: &[u8], iv: &[u8]) -> Vec<u8> {
    let cipher = Aes128::new_from_slice(key).unwrap();
    let mut previous = iv.to_vec();
    let mut out = Vec::new();
    for chunk in data.chunks(16) {
        let mut block: Vec<u8> = chunk.iter().zip(&previous).map(|(a, b)| a ^ b).collect();
        cipher.encrypt_block(GenericArray::from_mut_slice(&mut block));
        out.extend_from_slice(&block);
        previous = block;
    }
    out
}

#[test]
fn low_bits() {
    assert_eq!(u32(0x1_2345_6789), 0x2345_6789);
    assert_eq!(u32(u64::MAX), 0xffff_ffff);
}

#[test]
fn digests_from_the_standard() {
    assert_eq!(md5(b"").to_vec(), hex("d41d8cd98f00b204e9800998ecf8427e"));
    assert_eq!(md5(b"abc").to_vec(), hex("900150983cd24fb0d6963f7d28e17f72"));
}

#[test]
fn chained_blocks_from_the_standard() {
    let key = hex("2b7e151628aed2a6abf7158809cf4f3c");
    let iv = hex("000102030405060708090a0b0c0d0e0f");
    let data = hex("7649abac8119b246cee98e9b12e9197d5086cb9b507219ee95db113a917678b2");
    let plain = hex("6bc1bee22e409f96e93d7e117393172aae2d8a571e03ac9c9eb76fac45af8e51");
    assert_eq!(aes_cbc_decrypt(&data, &key, &iv), plain);
    assert_eq!(aes_cbc_decrypt(&data[..16], &key, &iv), &plain[..16]);
    assert_eq!(aes_cbc_decrypt(&data[..17], &key, &iv), &data[..17]);
    assert_eq!(aes_cbc_decrypt(&[], &key, &iv), b"");
}

#[test]
fn seeds_by_hand() {
    assert_eq!(derive_iv_seed(0), 0);
    assert_eq!(derive_iv_seed(1), 40692);
    assert_eq!(derive_iv_seed(2), 81384);
    assert_eq!(derive_iv_seed(52774), 2147479608);
    assert_eq!(derive_iv_seed(0x7fff_ffff), 10091616);
    assert_eq!(derive_iv_seed(0xffff_ffff), 20223924);
}

#[test]
fn seeds_are_multiplied_modulo_a_prime() {
    let mut seed = 1u32;
    for _ in 0..10_000 {
        let next = derive_iv_seed(seed);
        assert_eq!(next as u64, seed as u64 * 40692 % 2147483399);
        seed = next;
    }
    for seed in [2147483399u32, 2147483400, 0x8000_0000, 0xdead_beef, 0xffff_ffff] {
        assert_eq!(derive_iv_seed(seed) as u64, seed as u64 * 40692 % 2147483399);
    }
}

#[test]
fn page_keys_and_initial_blocks() {
    assert_eq!(derive_page_iv(1).to_vec(), hex("20d7420f9c37a35dca6fe92a1c6999a9"));
    assert_eq!(derive_page_iv(2).to_vec(), hex("b2547aac5270eef583e1d267a725d988"));
    assert_eq!(derive_page_iv(1000).to_vec(), hex("fca0bda904208d25dabb12dc671b89ab"));
    assert_eq!(derive_page_key(1).to_vec(), hex("d0fba2c03d2ad43899f1fe05e012f700"));
    assert_eq!(derive_page_key(2).to_vec(), hex("7a823426e1aa883b700890e4aa435273"));
    assert_eq!(derive_page_key(1000).to_vec(), hex("6edc87cb65754225cacb663208519c3b"));
}

fn plain_database(pages: usize, rest: usize) -> Vec<u8> {
    let mut plain = SQLITE_HEADER.to_vec();
    plain.extend((16..pages * PAGE_SIZE + rest).map(|i| (i * i / 7) as u8));
    plain[0x10..0x18].copy_from_slice(&[4, 0, 1, 1, 0, 0x40, 0x20, 0x20]);
    plain
}

fn encrypted_database(plain: &[u8]) -> Vec<u8> {
    let mut data = plain.to_vec();
    let first = cbc_encrypt(&plain[16..PAGE_SIZE], &derive_page_key(1), &derive_page_iv(1));
    data[16..PAGE_SIZE].copy_from_slice(&first);
    let kept = data[16..24].to_vec();
    data[..8].copy_from_slice(&[0xee; 8]);
    data[8..16].copy_from_slice(&kept);
    data[16..24].copy_from_slice(&plain[16..24]);
    for page in 2..=plain.len() / PAGE_SIZE {
        let at = (page - 1) * PAGE_SIZE;
        let body = cbc_encrypt(
            &plain[at..at + PAGE_SIZE],
            &derive_page_key(page as u32),
            &derive_page_iv(page as u32),
        );
        data[at..at + PAGE_SIZE].copy_from_slice(&body);
    }
    data
}

#[test]
fn databases_come_back() {
    for (pages, rest) in [(1usize, 0usize), (2, 0), (5, 0), (3, 100)] {
        let plain = plain_database(pages, rest);
        let data = encrypted_database(&plain);
        assert_ne!(data, plain);
        assert_eq!(decrypt_database(&data), plain);
        assert_eq!(decrypt_database(&plain), plain);
    }
}

#[test]
fn pages_are_independent() {
    let plain = plain_database(4, 0);
    let mut data = encrypted_database(&plain);
    data[PAGE_SIZE + 5] ^= 1;
    let got = decrypt_database(&data);
    assert_eq!(got.len(), plain.len());
    assert_eq!(got[..PAGE_SIZE], plain[..PAGE_SIZE]);
    assert_ne!(got[PAGE_SIZE..2 * PAGE_SIZE], plain[PAGE_SIZE..2 * PAGE_SIZE]);
    assert_eq!(got[2 * PAGE_SIZE..], plain[2 * PAGE_SIZE..]);
}

#[test]
fn a_first_page_that_is_none_stays() {
    let data: Vec<u8> = (0..2 * PAGE_SIZE).map(|i| (i / 3) as u8).collect();
    let got = decrypt_database(&data);
    assert_eq!(got[..PAGE_SIZE], data[..PAGE_SIZE]);
    assert_ne!(got[PAGE_SIZE..], data[PAGE_SIZE..]);
    let short = vec![7u8; 0x18];
    assert_eq!(decrypt_database(&short), short);
}

#[test]
fn first_pages_are_told_by_their_page_size() {
    let mut found = Vec::new();
    for low in 0..=255u8 {
        for high in 0..=255u8 {
            let mut page = vec![0u8; PAGE_SIZE];
            page[0x10] = low;
            page[0x11] = high;
            page[0x14..0x18].copy_from_slice(&0x2020_4000u32.to_le_bytes());
            let size = ((low as u32) << 8) | ((high as u32) << 24);
            let expected = size.wrapping_sub(0x200) <= 0xfe00 && size.wrapping_sub(1) & size == 0;
            decrypt_page1(&mut page);
            assert_eq!(page[..16] == SQLITE_HEADER, expected);
            if expected {
                found.push((low, high));
            }
        }
    }
    assert_eq!(found, [(2, 0), (4, 0), (8, 0), (16, 0), (32, 0), (64, 0), (128, 0)]);
    let mut other = vec![0u8; PAGE_SIZE];
    other[0x10] = 4;
    let before = other.clone();
    decrypt_page1(&mut other);
    assert_eq!(other, before);
}
