use kgg_decryptor::ekey::SIMPLE_KEY;
use kgg_decryptor::qmc::{MapCipher, QmcCipher, Rc4Cipher, StaticCipher};

fn noise(len: usize, seed: u32) -> Vec<u8> {
    let mut state = seed;
    (0..len)
        .map(|_| {
            state = state.wrapping_mul(1664525).wrapping_add(1013904223);
            (state >> 24) as u8
        })
        .collect()
}

struct Expected {
    key: Vec<u8>,
    table: Vec<u8>,
    hash: u32,
}

impl Expected {
    fn new(key: Vec<u8>) -> Self {
        let n = key.len();
        let mut table: Vec<u8> = (0..n).map(|i| i as u8).collect();
        let mut j = 0;
        for i in 0..n {
            j = (j + table[i] as usize + key[i] as usize) % n;
            table.swap(i, j);
        }
        let mut hash = 1u32;
        for &v in &key {
            if v == 0 {
                continue;
            }
            let next = hash.wrapping_mul(v as u32);
            if next == 0 || next <= hash {
                break;
            }
            hash = next;
        }
        Expected { key, table, hash }
    }

    fn skip(&self, id: usize) -> usize {
        let seed = self.key[id % self.key.len()] as usize;
        let denom = (id + 1) * seed;
        if denom == 0 {
            return 0;
        }
        let value = (self.hash as f64) / (denom as f64) * 100.0;
        (value as usize) % self.key.len()
    }

    fn mask(&self, offset: usize) -> u8 {
        if offset < 128 {
            return self.key[self.skip(offset)];
        }
        let n = self.key.len();
        let mut table = self.table.clone();
        let (mut j, mut k) = (0, 0);
        for _ in 0..offset % 5120 + self.skip(offset / 5120) + 1 {
            j = (j + 1) % n;
            k = (table[j] as usize + k) % n;
            table.swap(j, k);
        }
        table[(table[j] as usize + table[k] as usize) % n]
    }
}

#[test]
fn skips_agree_with_floating_point() {
    for seed in 0..40 {
        let key = noise(301 + seed as usize * 13, seed);
        let expected = Expected::new(key.clone());
        let cipher = Rc4Cipher::new(key);
        for id in (0..3000).chain([1 << 20, (1 << 31) - 1, 1 << 40, (1 << 52) + 12345]) {
            assert_eq!(cipher.seg_skip(id), expected.skip(id));
        }
    }
}

#[test]
fn skips_of_extreme_hashes_agree_with_floating_point() {
    let mut keys = vec![vec![1u8; 400], vec![0u8; 400], vec![255u8; 400], vec![2u8; 512]];
    for last in 1..=255u8 {
        let mut key = vec![3u8, 5, 17, 1];
        key.extend(vec![1u8; 300]);
        key[2] = last;
        keys.push(key);
    }
    for key in keys {
        let expected = Expected::new(key.clone());
        let cipher = Rc4Cipher::new(key);
        for id in 0..2000 {
            assert_eq!(cipher.seg_skip(id), expected.skip(id));
        }
    }
}

#[test]
fn segmented_cipher_byte_by_byte() {
    let key = noise(333, 7);
    let expected = Expected::new(key.clone());
    let cipher = Rc4Cipher::new(key);
    let positions = [0usize, 1, 127, 128, 129, 500, 5119, 5120, 5121, 10239, 10240, 51199, 51200];
    for at in positions {
        let mut byte = [0u8];
        cipher.decrypt(&mut byte, at);
        assert_eq!(byte[0], expected.mask(at), "at {at}");
    }
    let mut stream = vec![0u8; 11000];
    cipher.decrypt(&mut stream, 0);
    for at in (0..11000).step_by(97) {
        assert_eq!(stream[at], expected.mask(at), "at {at}");
    }
}

#[test]
fn parts_of_the_segmented_cipher() {
    let key = noise(301, 3);
    let expected = Expected::new(key.clone());
    let mut cipher = Rc4Cipher::new(key);
    cipher.compute_hash_base();
    let mut first = [0u8; 28];
    cipher.enc_first(&mut first, 100);
    for (i, b) in first.iter().enumerate() {
        assert_eq!(*b, expected.mask(100 + i));
    }
    let mut segment = [0u8; 60];
    cipher.enc_seg(&mut segment, 5060);
    for (i, b) in segment.iter().enumerate() {
        assert_eq!(*b, expected.mask(5060 + i));
    }
}

#[test]
fn short_keys_by_hand() {
    let cipher = MapCipher::new(vec![0x81, 0x42, 0x3c]);
    for offset in [0usize, 1, 2, 3, 0x7ffe, 0x7fff, 0x8000, 0xffff, 1_000_000] {
        let at = if offset > 0x7fff { offset % 0x7fff } else { offset };
        let idx = (at * at + 71214) % 3;
        let v = [0x81u8, 0x42, 0x3c][idx];
        let r = ((idx as u8 & 7) + 4) % 8;
        assert_eq!(cipher.mask(offset), (v << r) | (v >> r));
    }
    assert_eq!(MapCipher::new(vec![0x12]).mask(0), 0x21);
}

#[test]
fn the_cipher_without_a_key_by_hand() {
    let cipher = StaticCipher;
    let expected = [0xc3u8, 0x4a, 0xd6, 0xca, 0x90, 0x67, 0xf7, 0x52];
    for (i, m) in expected.iter().enumerate() {
        assert_eq!(cipher.mask(i), *m);
    }
    assert_eq!(cipher.mask(0x8000), cipher.mask(1));
    let mut data = vec![0u8; 8];
    cipher.decrypt(&mut data, 0);
    assert_eq!(data, expected);
}

#[test]
fn key_length_selects_the_cipher() {
    assert!(QmcCipher::new(vec![]).is_none());
    assert!(matches!(QmcCipher::new(vec![1]), Some(QmcCipher::Short(_))));
    assert!(matches!(QmcCipher::new(vec![1; 300]), Some(QmcCipher::Short(_))));
    assert!(matches!(QmcCipher::new(vec![1; 301]), Some(QmcCipher::Long(_))));
    assert!(matches!(QmcCipher::static_cipher(), QmcCipher::Static(_)));
}

#[test]
fn ciphers_undo_themselves_and_work_in_pieces() {
    let plain = noise(16000, 99);
    for cipher in [
        QmcCipher::new(noise(20, 1)).unwrap(),
        QmcCipher::new(noise(300, 2)).unwrap(),
        QmcCipher::new(noise(512, 3)).unwrap(),
        QmcCipher::static_cipher(),
    ] {
        for offset in [0usize, 5, 128, 5000, 123_456] {
            let mut whole = plain.clone();
            cipher.decrypt(&mut whole, offset);
            assert_eq!(whole.len(), plain.len());
            assert_ne!(whole, plain);
            let mut pieces = plain.clone();
            let mut at = 0;
            for size in [1usize, 126, 3, 5000, 5120, 200, 5550] {
                cipher.decrypt(&mut pieces[at..at + size], offset + at);
                at += size;
            }
            assert_eq!(at, plain.len());
            assert_eq!(pieces, whole);
            cipher.decrypt(&mut whole, offset);
            assert_eq!(whole, plain);
        }
    }
}

#[test]
fn simple_key_is_the_truncated_tangent() {
    for (i, expected) in SIMPLE_KEY.iter().enumerate() {
        let value = (106.0 + (i as f64) * 0.1).tan().abs() * 100.0;
        assert_eq!(value as u8, *expected);
    }
}

#[test]
fn what_a_cipher_changes_depends_on_key_and_position_alone() {
    for len in [20usize, 301] {
        let key = noise(len, 5);
        let first = QmcCipher::new(key.clone()).unwrap();
        let second = QmcCipher::new(key).unwrap();
        for offset in [0usize, 100, 5115, 40_000] {
            let (x, y) = (noise(300, 1), noise(300, 2));
            let (mut a, mut b) = (x.clone(), y.clone());
            first.decrypt(&mut a, offset);
            second.decrypt(&mut b, offset);
            for i in 0..300 {
                assert_eq!(a[i] ^ x[i], b[i] ^ y[i]);
            }
        }
    }
}
