use base64::Engine;
use kgg_decryptor::ekey::{
    derive_key, derive_key_v1, derive_key_v2, SIMPLE_KEY, V2_INNER_KEY, V2_OUTER_KEY,
};
use kgg_decryptor::formats::{decrypt_file, try_decrypt_file};
use kgg_decryptor::keys::{collect_ekeys, EkeyMap, KeyDatabase};
use kgg_decryptor::kgg::{decrypt_kgg_bytes, kgg_is_inside, parse_kgg_header, KGM_MAGIC};
use kgg_decryptor::kgm::decrypt_kgm;
use kgg_decryptor::qmc::QmcCipher;
use kgg_decryptor::qmc_file::decrypt_qmc;
use kgg_decryptor::tea::{decrypt_tencent_tea, tea_decrypt_block};

const DELTA: u32 = 0x9e37_79b9;

fn tea_encrypt(block: [u8; 8], key: &[u8]) -> [u8; 8] {
    let word = |b: &[u8]| u32::from_be_bytes([b[0], b[1], b[2], b[3]]);
    let (mut v0, mut v1) = (word(&block[..4]), word(&block[4..]));
    let k: Vec<u32> = key.chunks(4).map(word).collect();
    let mut sum = 0u32;
    for _ in 0..16 {
        sum = sum.wrapping_add(DELTA);
        let t = (v1 << 4).wrapping_add(k[0]) ^ v1.wrapping_add(sum) ^ (v1 >> 5).wrapping_add(k[1]);
        v0 = v0.wrapping_add(t);
        let t = (v0 << 4).wrapping_add(k[2]) ^ v0.wrapping_add(sum) ^ (v0 >> 5).wrapping_add(k[3]);
        v1 = v1.wrapping_add(t);
    }
    let mut out = [0u8; 8];
    out[..4].copy_from_slice(&v0.to_be_bytes());
    out[4..].copy_from_slice(&v1.to_be_bytes());
    out
}

fn tea_wrap(content: &[u8], key: &[u8]) -> Vec<u8> {
    let filler = (8 - (content.len() + 10) % 8) % 8;
    let mut frame = vec![0xa8 | filler as u8];
    frame.extend(vec![0x5a; filler + 2]);
    frame.extend_from_slice(content);
    frame.extend_from_slice(&[0; 7]);
    let mut out: Vec<u8> = Vec::new();
    let mut previous_cipher = [0u8; 8];
    let mut previous_input = [0u8; 8];
    for chunk in frame.chunks(8) {
        let mut input = [0u8; 8];
        for i in 0..8 {
            input[i] = chunk[i] ^ previous_cipher[i];
        }
        let mut block = tea_encrypt(input, key);
        for i in 0..8 {
            block[i] ^= previous_input[i];
        }
        previous_input = input;
        previous_cipher = block;
        out.extend_from_slice(&block);
    }
    out
}

fn base64_of(bytes: &[u8]) -> String {
    base64::engine::general_purpose::STANDARD.encode(bytes)
}

fn raw_v1(key: &[u8]) -> Vec<u8> {
    let mut wrapping = [0u8; 16];
    for i in 0..8 {
        wrapping[2 * i] = SIMPLE_KEY[i];
        wrapping[2 * i + 1] = key[i];
    }
    let mut raw = key[..8].to_vec();
    raw.extend(tea_wrap(&key[8..], &wrapping));
    raw
}

fn ekey_v1(key: &[u8]) -> String {
    base64_of(&raw_v1(key))
}

fn ekey_v2(key: &[u8]) -> String {
    let inner = tea_wrap(base64_of(&raw_v1(key)).as_bytes(), &V2_INNER_KEY);
    let outer = tea_wrap(&inner, &V2_OUTER_KEY);
    let mut raw = b"QQMusic EncV2,Key:".to_vec();
    raw.extend(outer);
    base64_of(&raw)
}

fn stream_key(len: usize) -> Vec<u8> {
    (0..len).map(|i| (i * 37 + 11) as u8).collect()
}

fn masked(key: &[u8], plain: &[u8]) -> Vec<u8> {
    let mut audio = plain.to_vec();
    QmcCipher::new(key.to_vec()).unwrap().decrypt(&mut audio, 0);
    audio
}

const AUDIO: &[u8] = b"fLaC and then some more bytes of audio";

fn decoded() -> Result<(Vec<u8>, String), String> {
    Ok((AUDIO.to_vec(), "flac".to_string()))
}

#[test]
fn tea_block_by_hand() {
    let key: Vec<u8> = (0..16).collect();
    for block in [[0u8; 8], [0xff; 8], *b"any text"] {
        assert_eq!(tea_decrypt_block(&tea_encrypt(block, &key), &key), block);
    }
    assert_ne!(tea_decrypt_block(&[0; 8], &key), [0; 8]);
}

#[test]
fn tea_wrapping_of_every_length() {
    let key = b"sixteen byte key";
    for len in 0..40 {
        let content = stream_key(len);
        assert_eq!(decrypt_tencent_tea(&tea_wrap(&content, key), key).unwrap(), content);
    }
}

#[test]
fn tea_input_that_is_refused() {
    let key = b"sixteen byte key";
    for len in [0usize, 8, 15, 17, 23] {
        assert_eq!(decrypt_tencent_tea(&vec![1; len], key).unwrap_err(), "invalid TEA input");
    }
    let mut block = [0u8; 8];
    block[0] = 7;
    let mut input = tea_encrypt(block, key).to_vec();
    input.extend_from_slice(&[0; 8]);
    assert_eq!(decrypt_tencent_tea(&input, key).unwrap_err(), "invalid TEA padding");
    block[0] = 6;
    let mut input = tea_encrypt(block, key).to_vec();
    input.extend_from_slice(&[0; 8]);
    assert_eq!(decrypt_tencent_tea(&input, key).unwrap(), b"");
}

#[test]
fn keys_of_both_forms() {
    for len in [9usize, 16, 100, 256, 300, 301, 512] {
        let key = stream_key(len);
        assert_eq!(derive_key_v1(&raw_v1(&key)).unwrap(), key);
        assert_eq!(derive_key(&ekey_v1(&key)).unwrap(), key);
        assert_eq!(derive_key(&ekey_v2(&key)).unwrap(), key);
    }
}

#[test]
fn second_form_is_opened_twice() {
    let inner = tea_wrap(b"aGVsbG8=", &V2_INNER_KEY);
    let outer = tea_wrap(&inner, &V2_OUTER_KEY);
    assert_eq!(derive_key_v2(&outer).unwrap(), b"hello");
    let inner = tea_wrap(b"aGVsbG8", &V2_INNER_KEY);
    let outer = tea_wrap(&inner, &V2_OUTER_KEY);
    assert_eq!(derive_key_v2(&outer).unwrap_err(), "base64 error: Invalid padding");
    assert_eq!(derive_key_v2(b"short").unwrap_err(), "invalid TEA input");
}

#[test]
fn keys_that_are_refused() {
    assert_eq!(derive_key("").unwrap_err(), "key too short");
    assert_eq!(derive_key(&base64_of(&[1; 15])).unwrap_err(), "key too short");
    assert_eq!(derive_key(&base64_of(&[1; 25])).unwrap_err(), "invalid TEA input");
    assert_eq!(derive_key("A").unwrap_err(), "base64 error: Invalid input length: 1");
    assert_eq!(derive_key("!!!!").unwrap_err(), "base64 error: Invalid symbol 33, offset 0.");
    assert_eq!(derive_key("QUI").unwrap_err(), "base64 error: Invalid padding");
    assert_eq!(
        derive_key("QUJ=").unwrap_err(),
        "base64 error: Invalid last symbol 74, offset 2."
    );
    assert_eq!(derive_key("é").unwrap_err(), "base64 error: Invalid symbol 195, offset 0.");
}

#[test]
fn later_rows_win_and_empty_keys_are_left_out() {
    let row = |a: &str, b: &str| Some((a.to_string(), b.to_string()));
    let map = collect_ekeys(vec![
        row("one", "first"),
        None,
        row("two", ""),
        row("one", "second"),
        row("", "nameless"),
    ]);
    assert_eq!(map.get("one"), Some(&"second".to_string()));
    assert_eq!(map.get("two"), None);
    assert_eq!(map.get(""), Some(&"nameless".to_string()));
    assert_eq!(map.get("three"), None);

    let mut map = EkeyMap::new();
    assert_eq!(map.get("a"), None);
    map.insert("a".to_string(), "b".to_string());
    map.insert("a".to_string(), "c".to_string());
    map.insert("d".to_string(), "e".to_string());
    assert_eq!(map.get("a"), Some(&"c".to_string()));
    assert_eq!(map.get("d"), Some(&"e".to_string()));
}

fn kgg(version: u32, hash: &[u8], audio: &[u8]) -> Vec<u8> {
    let mut file = vec![0u8; 0x44];
    file[..16].copy_from_slice(&KGM_MAGIC);
    file[0x14..0x18].copy_from_slice(&version.to_le_bytes());
    file.extend_from_slice(&(hash.len() as u32).to_le_bytes());
    file.extend_from_slice(hash);
    file.extend_from_slice(&[0; 16]);
    let start = file.len() as u32;
    file[0x10..0x14].copy_from_slice(&start.to_le_bytes());
    file.extend_from_slice(audio);
    file
}

fn database(hash: &str, ekey: String) -> KeyDatabase {
    KeyDatabase::Keys(collect_ekeys(vec![Some((hash.to_string(), ekey))]))
}

#[test]
fn kgg_header_fields() {
    let header = parse_kgg_header(&kgg(5, b"0123abcd", b"")).unwrap();
    assert_eq!(header.audio_offset, 0x48 + 8 + 16);
    assert_eq!(header.audio_hash, "0123abcd");
    let header = parse_kgg_header(&kgg(5, b"a\xffb\0", b"")).unwrap();
    assert_eq!(header.audio_hash, "a\u{fffd}b\0");
    let error = |data: &[u8]| parse_kgg_header(data).err().unwrap();
    assert_eq!(error(&[0; 0x4b]), "invalid KGG file");
    assert_eq!(error(&[0; 0x80]), "invalid KGG file");
    assert_eq!(error(&kgg(3, b"hash", b"")), "unsupported crypto version 3");
    assert_eq!(error(&kgg(4294967295, b"hash", b"")), "unsupported crypto version 4294967295");
}

#[test]
fn kgg_files_with_keys_of_both_ciphers() {
    for len in [9usize, 300, 301, 700] {
        let key = stream_key(len);
        for ekey in [ekey_v1(&key), ekey_v2(&key)] {
            let keys = database("song", ekey);
            let file = kgg(5, b"song", &masked(&key, AUDIO));
            assert!(kgg_is_inside(&file, &keys));
            assert_eq!(decrypt_kgg_bytes(&file, &keys), decoded());
            assert_eq!(decrypt_file(&file, "x.KGG", &keys), decoded());
        }
    }
}

#[test]
fn kgg_files_that_are_refused() {
    let key = stream_key(64);
    let file = kgg(5, b"song", &masked(&key, AUDIO));
    let error = |keys: &KeyDatabase| decrypt_kgg_bytes(&file, keys).unwrap_err();
    assert_eq!(error(&KeyDatabase::Missing), "KuGou database not found");
    assert_eq!(error(&KeyDatabase::Unreadable("locked".to_string())), "locked");
    assert_eq!(error(&KeyDatabase::Invalid("no such table".to_string())), "no such table");
    assert_eq!(error(&database("other", ekey_v1(&key))), "ekey not found for hash song");
    assert_eq!(error(&database("song", "AAAA".to_string())), "key too short");
    assert_eq!(error(&database("song", ekey_v1(&stream_key(65)[1..]))), "unrecognized audio format");
}

#[test]
fn kgg_files_that_end_too_early() {
    let key = stream_key(64);
    let keys = database("song", ekey_v1(&key));
    let mut file = kgg(5, b"song", &masked(&key, AUDIO));
    assert!(try_decrypt_file(&file, "a.kgg", &keys).is_some());
    let end = file.len() as u32;
    file[0x10..0x14].copy_from_slice(&end.to_le_bytes());
    assert_eq!(
        try_decrypt_file(&file, "a.kgg", &keys),
        Some(Err("unrecognized audio format".to_string()))
    );
    file[0x10..0x14].copy_from_slice(&(end + 1).to_le_bytes());
    assert_eq!(try_decrypt_file(&file, "a.kgg", &keys), None);
    assert_eq!(
        try_decrypt_file(&file, "a.kgg", &KeyDatabase::Missing),
        Some(Err("KuGou database not found".to_string()))
    );
    file[0x44..0x48].copy_from_slice(&0x1000u32.to_le_bytes());
    assert_eq!(try_decrypt_file(&file, "a.kgg", &KeyDatabase::Missing), None);
    assert!(try_decrypt_file(&file, "a.kgm", &KeyDatabase::Missing).is_some());
}

#[test]
fn kgm_v5_uses_the_database() {
    let key = stream_key(400);
    let keys = database("song", ekey_v2(&key));
    for hash in [&b"song"[..], b"song\0\0\0"] {
        let file = kgg(5, hash, &masked(&key, AUDIO));
        assert_eq!(decrypt_kgm(&file, "kgm", &keys), decoded());
    }
}

#[test]
fn kgm_v5_files_that_are_refused() {
    let key = stream_key(64);
    let file = kgg(5, b"song\0", &masked(&key, AUDIO));
    let error = |keys: &KeyDatabase| decrypt_kgm(&file, "kgm", keys).unwrap_err();
    assert_eq!(error(&KeyDatabase::Missing), "未找到 KGMusicV3.db（KGM v5 需要本地密钥库）");
    assert_eq!(
        error(&KeyDatabase::Unreadable("locked".to_string())),
        "读取 KGMusicV3.db 失败: locked"
    );
    assert_eq!(error(&KeyDatabase::Invalid("no such table".to_string())), "no such table");
    assert_eq!(
        error(&database("other", ekey_v1(&key))),
        "数据库中没有 audio_hash=song 的 ekey"
    );
    assert_eq!(error(&database("song", "A".to_string())), "base64 error: Invalid input length: 1");
    assert_eq!(
        error(&database("song", ekey_v1(&stream_key(65)[1..]))),
        "解密后无法识别音频格式"
    );

    let no_hash = kgg(5, b"", &[0; 8]);
    let missing = KeyDatabase::Missing;
    assert_eq!(decrypt_kgm(&no_hash, "kgm", &missing).unwrap_err(), "KGM audio hash 无效");
    let mut long_hash = file.clone();
    long_hash[0x44..0x48].copy_from_slice(&0x1000u32.to_le_bytes());
    assert_eq!(decrypt_kgm(&long_hash, "kgm", &missing).unwrap_err(), "KGM audio hash 无效");
    let mut short = file[..0x47].to_vec();
    short[0x10..0x14].copy_from_slice(&0x47u32.to_le_bytes());
    assert_eq!(decrypt_kgm(&short, "kgm", &missing).unwrap_err(), "文件头长度不足");
}

fn with_tail(key: &[u8], field: &[u8]) -> Vec<u8> {
    let mut file = masked(key, AUDIO);
    file.extend_from_slice(field);
    file.extend_from_slice(&(field.len() as u32).to_le_bytes());
    file
}

fn with_qtag(key: &[u8], field: &[u8]) -> Vec<u8> {
    let mut file = masked(key, AUDIO);
    file.extend_from_slice(field);
    file.extend_from_slice(&(field.len() as u32).to_be_bytes());
    file.extend_from_slice(b"QTag");
    file
}

#[test]
fn qmc_files_with_a_key_in_the_tail() {
    for len in [9usize, 301] {
        let key = stream_key(len);
        for padding in ["", "\0", "\0\0\0\0\0"] {
            let field = ekey_v1(&key) + padding;
            assert_eq!(decrypt_qmc(&with_tail(&key, field.as_bytes())), decoded());
        }
        let field = ekey_v2(&key) + ",123,2";
        assert_eq!(decrypt_qmc(&with_qtag(&key, field.as_bytes())), decoded());
    }
}

#[test]
fn qmc_files_without_a_key() {
    let mut file = AUDIO.to_vec();
    QmcCipher::static_cipher().decrypt(&mut file, 0);
    assert_eq!(decrypt_qmc(&file), decoded());
    assert_eq!(decrypt_qmc(&[0; 40]).unwrap_err(), "解密后无法识别音频格式");
    assert_eq!(decrypt_qmc(&[0, 0, 0, 0]).unwrap_err(), "解密后无法识别音频格式");
}

#[test]
fn qmc_files_that_are_refused() {
    let error = |data: &[u8]| decrypt_qmc(data).unwrap_err();
    assert_eq!(error(b"abc"), "QMC 文件太短");
    assert_eq!(error(b"some audioSTag"), "STag 文件不包含可离线使用的密钥");
    assert_eq!(error(b"QTag"), "QTag 文件太短");
    assert_eq!(error(b"xyzQTag"), "QTag 文件太短");
    assert_eq!(error(b"\0\0\0\x01QTag"), "QTag 密钥长度无效");
    assert_eq!(error(b"\xff\xff\xff\xffQTag"), "QTag 密钥长度无效");
    assert_eq!(error(b"key\0\0\0\x03QTag"), "QTag ekey 不完整");
    assert_eq!(error(b"\0\0\0\0QTag"), "QTag ekey 不完整");
    assert_eq!(error(b"\xff,\0\0\0\x02QTag"), "QTag ekey 不是文本");
    assert_eq!(error(b"AAAA,\0\0\0\x05QTag"), "key too short");
    assert_eq!(error(b"abc\x04\0\0\0"), "QMC 密钥长度无效");
    assert_eq!(error(b"\xff\xff\x02\0\0\0"), "QMC ekey 不是文本");
    assert_eq!(error(b"AAAA\0\0\x06\0\0\0"), "key too short");
    assert_eq!(error(b"A\x01\0\0\0"), "base64 error: Invalid input length: 1");
    let key = stream_key(50);
    let field = ekey_v1(&stream_key(51)[1..]);
    assert_eq!(error(&with_tail(&key, field.as_bytes())), "解密后无法识别音频格式");
}

#[test]
fn key_lengths_in_the_tail_have_a_limit() {
    let mut file = vec![0u8; 0x1_0010];
    let at = file.len() - 4;
    file[at..].copy_from_slice(&0xffffu32.to_le_bytes());
    assert_eq!(decrypt_qmc(&file).unwrap_err(), "key too short");
    file[at..].copy_from_slice(&0x1_0000u32.to_le_bytes());
    assert_eq!(decrypt_qmc(&file).unwrap_err(), "解密后无法识别音频格式");
}

#[test]
fn musicex_footers_that_are_malformed() {
    let footer = |len: usize, footer_len: u32, version: u32| {
        let mut data = vec![0u8; len - 16];
        data.extend_from_slice(&footer_len.to_le_bytes());
        data.extend_from_slice(&version.to_le_bytes());
        data.extend_from_slice(b"musicex\0");
        decrypt_qmc(&data).unwrap_err()
    };
    let refused = "musicex 尾部版本或长度无效";
    assert_eq!(footer(0xc0, 0xc0, 1), refused);
    assert_eq!(footer(0xc1, 0xc1, 1), refused);
    assert_eq!(footer(0xc1, 0xc0, 2), refused);
    assert_ne!(footer(0xc1, 0xc0, 1), refused);
    assert_eq!(decrypt_qmc(b"musicex\0").unwrap_err(), "解密后无法识别音频格式");
}

#[test]
fn padding_changes_neither_audio_nor_complaint() {
    let key = stream_key(40);
    let good = ekey_v1(&key);
    let fields: [&[u8]; 6] =
        [good.as_bytes(), b"AAAA", b"?", b"\xff\xff", b"caf\xc3", b"\0"];
    for field in fields {
        let plain = decrypt_qmc(&with_tail(&key, field));
        for padding in [1usize, 2, 9] {
            let mut padded = field.to_vec();
            padded.extend(vec![0; padding]);
            assert_eq!(decrypt_qmc(&with_tail(&key, &padded)), plain);
        }
    }
}

#[test]
fn tagged_and_untagged_files_agree() {
    let key = stream_key(40);
    for text in [ekey_v1(&key), ekey_v2(&key), "AAAA".to_string(), "é".to_string()] {
        let untagged = decrypt_qmc(&with_tail(&key, text.as_bytes()));
        for rest in ["", "1,2", ",,\0"] {
            let field = format!("{text},{rest}");
            assert_eq!(decrypt_qmc(&with_qtag(&key, field.as_bytes())), untagged);
        }
    }
}

#[test]
fn keys_that_decrypt_alike() {
    let key: Vec<u8> = (7..23).collect();
    let block = *b"any text";
    let plain = tea_decrypt_block(&block, &key);
    for pairs in [&[0usize, 4][..], &[8, 12], &[0, 4, 8, 12]] {
        let mut other = key.clone();
        for &i in pairs {
            other[i] ^= 0x80;
        }
        other.push(99);
        assert_eq!(tea_decrypt_block(b"any text and more", &other), plain);
    }
    let mut other = key.clone();
    other[0] ^= 0x80;
    assert_ne!(tea_decrypt_block(&block, &other), plain);
}

#[test]
fn closing_bytes_salt_and_filler_do_not_matter() {
    let key = b"sixteen byte key";
    let zero = [0u8; 8];
    let xor = |a: &[u8], b: &[u8]| -> [u8; 8] { std::array::from_fn(|i| a[i] ^ b[i]) };
    for content in [&b""[..], b"m", b"some content of a message"] {
        let filler = (8 - (content.len() + 10) % 8) % 8;
        let mut message = vec![0x30 | filler as u8];
        message.extend((0..filler + 2).map(|i| 0xc0 + i as u8));
        message.extend_from_slice(content);
        message.extend_from_slice(b"closing");
        let blocks: Vec<&[u8]> = message.chunks(8).collect();
        let mut chain: Vec<[u8; 8]> = Vec::new();
        for i in 0..blocks.len() {
            let before = if i >= 1 { chain[i - 1] } else { zero };
            let earlier = if i >= 2 { chain[i - 2] } else { zero };
            let last = if i >= 1 { blocks[i - 1] } else { &zero };
            let coded = tea_encrypt(xor(blocks[i], &before), key);
            chain.push(xor(&xor(&coded, last), &earlier));
        }
        assert_eq!(decrypt_tencent_tea(&chain.concat(), key).unwrap(), content);
    }
}

#[test]
fn the_prefix_selects_the_form() {
    let raw: Vec<u8> = (0..40).collect();
    assert_eq!(derive_key(&base64_of(&raw)), derive_key_v1(&raw));
    let mut prefixed = b"QQMusic EncV2,Key:".to_vec();
    prefixed.extend_from_slice(&raw);
    let expected = derive_key_v2(&raw).and_then(|inner| derive_key_v1(&inner));
    assert_eq!(derive_key(&base64_of(&prefixed)), expected);
}
