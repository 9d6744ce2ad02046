use aes::cipher::generic_array::GenericArray;
use aes::cipher::{BlockEncrypt, KeyInit};
use aes::Aes128;
use kgg_decryptor::audio::{sniff_audio, sniff_ext};
use kgg_decryptor::bytes::read_u32_le;
use kgg_decryptor::formats::{decrypt_file, try_decrypt_file};
use kgg_decryptor::keys::KeyDatabase;
use kgg_decryptor::kgg::KGM_MAGIC;
use kgg_decryptor::kgm::{decrypt_kgm, decrypt_kgm_v3, kugou_md5, reverse_pairs, VPR_MAGIC};
use kgg_decryptor::kwm::{decrypt_kwm, KWM_MAGIC_1, KWM_MAGIC_2, KWM_PREDEFINED_KEY};
use kgg_decryptor::ncm::{
    aes_ecb_decrypt, decrypt_ncm, ncm_key_box, pkcs7_unpad, NCM_CORE_KEY, NCM_MAGIC,
};
use kgg_decryptor::qmc::QmcCipher;
use kgg_decryptor::qmc_file::decrypt_qmc;

#[test]
fn qmc_static_cipher_is_reversible() {
    let plain = b"ID3 synthetic qmc payload".to_vec();
    let mut encrypted = plain.clone();
    let cipher = QmcCipher::static_cipher();
    cipher.decrypt(&mut encrypted, 0);
    cipher.decrypt(&mut encrypted, 0);
    assert_eq!(encrypted, plain);
}

fn build_kwm(magic: &[u8; 16], number: u64, plain: &[u8]) -> Vec<u8> {
    let mut data = vec![0u8; 0x400];
    data[..16].copy_from_slice(magic);
    data[0x18..0x20].copy_from_slice(&number.to_le_bytes());
    let key_int = number.to_string();
    let mut key_text = Vec::with_capacity(32);
    for i in 0..32 {
        key_text.push(key_int.as_bytes()[i % key_int.len()]);
    }
    let mask: Vec<u8> = KWM_PREDEFINED_KEY.iter().zip(key_text).map(|(a, b)| a ^ b).collect();
    let mut enc = plain.to_vec();
    for (i, b) in enc.iter_mut().enumerate() {
        *b ^= mask[i & 0x1f];
    }
    data.extend(enc);
    data
}

#[test]
fn kwm_decoder_round_trip() {
    let mut data = vec![0u8; 0x400];
    data[..16].copy_from_slice(&KWM_MAGIC_1);
    data[0x18..0x20].copy_from_slice(&12345678u64.to_le_bytes());
    let plain = b"ID3 synthetic kwm payload";
    let key_int = 12345678u64.to_string();
    let mut key_text = Vec::with_capacity(32);
    for i in 0..32 {
        key_text.push(key_int.as_bytes()[i % key_int.len()]);
    }
    let mask: Vec<u8> = KWM_PREDEFINED_KEY.iter().zip(key_text).map(|(a, b)| a ^ b).collect();
    let mut enc = plain.to_vec();
    for (i, b) in enc.iter_mut().enumerate() {
        *b ^= mask[i & 0x1f];
    }
    data.extend(enc);
    let (got, ext) = decrypt_kwm(&data).unwrap();
    assert_eq!(got, plain);
    assert_eq!(ext, "mp3");
}

#[test]
fn musicex_footer_is_rejected_without_network_key() {
    let mut data = vec![0u8; 32];
    data.extend(vec![0u8; 0xc0]);
    let at = data.len() - 16;
    data[at..at + 4].copy_from_slice(&(0xc0u32).to_le_bytes());
    data[at + 4..at + 8].copy_from_slice(&1u32.to_le_bytes());
    data[at + 8..].copy_from_slice(b"musicex\0");
    let err = decrypt_qmc(&data).unwrap_err();
    assert!(err.contains("musicex"));
    assert_eq!(err, "新版 musicex 文件需要 QQ 音乐会话取钥；当前 Tauri 版本暂不联网取钥");
}

fn aes_ecb_encrypt(data: &[u8], key: &[u8; 16]) -> Vec<u8> {
    let cipher = Aes128::new_from_slice(key).unwrap();
    data.chunks(16)
        .flat_map(|ch| {
            let mut block = [0u8; 16];
            block[..ch.len()].copy_from_slice(ch);
            cipher.encrypt_block(GenericArray::from_mut_slice(&mut block));
            block.to_vec()
        })
        .collect()
}

fn expected_key_box(key: &[u8]) -> [u8; 256] {
    let mut boxv = [0u8; 256];
    for (i, b) in boxv.iter_mut().enumerate() {
        *b = i as u8;
    }
    let mut j = 0u8;
    for i in 0..256 {
        j = j.wrapping_add(boxv[i]).wrapping_add(key[i % key.len()]);
        boxv.swap(i, j as usize);
    }
    let mut out = [0u8; 256];
    for i in 0..256 {
        let si = boxv[(i + 1) & 0xff];
        let sj = boxv[(i + 1 + si as usize) & 0xff];
        out[i] = boxv[(si as usize + sj as usize) & 0xff];
    }
    out
}

const STREAM_KEY: &[u8] = b"#14ljk_!\\]&0U<'(netease";

fn wrapped_ncm_key(plain: &[u8]) -> Vec<u8> {
    let mut key_plain = plain.to_vec();
    let pad = 16 - key_plain.len() % 16;
    key_plain.extend(std::iter::repeat(pad as u8).take(pad));
    let mut key_blob = aes_ecb_encrypt(&key_plain, &NCM_CORE_KEY);
    for b in &mut key_blob {
        *b ^= 0x64;
    }
    key_blob
}

fn ncm_plain() -> Vec<u8> {
    let mut v = b"fLaC\x00\x00\x00\x22".to_vec();
    v.extend((0..512u32).map(|i| i as u8).collect::<Vec<_>>());
    v
}

fn build_ncm() -> Vec<u8> {
    let mut labelled = b"neteasecloudmusic".to_vec();
    labelled.extend_from_slice(STREAM_KEY);
    let key_blob = wrapped_ncm_key(&labelled);

    let boxv = expected_key_box(STREAM_KEY);
    let audio: Vec<u8> =
        ncm_plain().iter().enumerate().map(|(i, b)| b ^ boxv[i & 0xff]).collect();

    let image = [0xAAu8, 1, 2, 3, 4, 5, 6, 7, 8, 9];
    let mut out = Vec::new();
    out.extend_from_slice(b"CTENFDAM");
    out.extend_from_slice(&[0u8, 0]);
    out.extend_from_slice(&(key_blob.len() as u32).to_le_bytes());
    out.extend_from_slice(&key_blob);
    out.extend_from_slice(&0u32.to_le_bytes());
    out.extend_from_slice(&[0u8; 5]);
    out.extend_from_slice(&(image.len() as u32 + 4).to_le_bytes());
    out.extend_from_slice(&(image.len() as u32).to_le_bytes());
    out.extend_from_slice(&image);
    out.extend_from_slice(&0x12345678u32.to_le_bytes());
    out.extend_from_slice(&audio);
    out
}

#[test]
fn ncm_reference_layout_round_trip() {
    let file = build_ncm();
    let (audio, ext) = decrypt_ncm(&file).unwrap();
    assert_eq!(&audio[..4], b"fLaC", "audio keystream is misaligned");
    assert_eq!(ext, "flac");
    assert_eq!(audio, ncm_plain());
}

#[test]
fn ncm_truncated_file_is_rejected() {
    let file = build_ncm();
    let err = decrypt_ncm(&file[..30]).unwrap_err();
    assert!(!err.is_empty());
    assert_eq!(err, "NCM key 数据不完整");
}

fn kgm_v3_header() -> Vec<u8> {
    let mut file = vec![0u8; 0x40];
    file[..16].copy_from_slice(&KGM_MAGIC);
    file[0x10..0x14].copy_from_slice(&0x40u32.to_le_bytes());
    file[0x14..0x18].copy_from_slice(&3u32.to_le_bytes());
    file[0x18..0x1c].copy_from_slice(&1u32.to_le_bytes());
    let bytes = [
        0x11u8, 0x22, 0x33, 0x44, 0x55, 0x66, 0x77, 0x88, 0x99, 0xaa, 0xbb, 0xcc, 0xdd, 0xee, 0x11,
        0x22,
    ];
    for (i, b) in bytes.iter().enumerate() {
        file[0x2c + i] = *b;
    }
    file
}

fn kgm_v3_mask(header: &[u8], plain: &[u8]) -> Vec<u8> {
    let slot = kugou_md5(&[0x6c, 0x2c, 0x2f, 0x27]);
    let mut file_key = kugou_md5(&header[0x2c..0x3c]).to_vec();
    file_key.push(0x6b);
    let mut enc = plain.to_vec();
    for (i, byte) in enc.iter_mut().enumerate() {
        *byte ^= (i as u32 as u8)
            ^ ((i as u32 >> 8) as u8)
            ^ ((i as u32 >> 16) as u8)
            ^ ((i as u32 >> 24) as u8);
        *byte ^= slot[i % slot.len()];
        let lo = *byte & 0x0f;
        let hi = ((*byte >> 4) ^ lo) & 0x0f;
        *byte = (hi << 4) | lo;
        *byte ^= file_key[i % file_key.len()];
    }
    enc
}

#[test]
fn kgm_v3_round_trip() {
    let mut file = kgm_v3_header();
    let plain: Vec<u8> = {
        let mut v = b"fLaC".to_vec();
        v.extend((0..512u32).map(|i| i as u8).collect::<Vec<_>>());
        v
    };
    let enc = kgm_v3_mask(&file, &plain);
    file.extend_from_slice(&enc);

    let (audio, ext) = decrypt_file(&file, "song.kgm", &KeyDatabase::Missing).unwrap();
    assert_eq!(audio, plain);
    assert_eq!(ext, "flac");
}

#[test]
fn kgm_v3_unknown_crypto_slot_is_rejected() {
    let mut file = vec![0u8; 0x48];
    file[..16].copy_from_slice(&KGM_MAGIC);
    file[0x10..0x14].copy_from_slice(&0x40u32.to_le_bytes());
    file[0x14..0x18].copy_from_slice(&3u32.to_le_bytes());
    file[0x18..0x1c].copy_from_slice(&7u32.to_le_bytes());
    let err = decrypt_file(&file, "song.kgm", &KeyDatabase::Missing).unwrap_err();
    assert!(err.contains("槽位"));
    assert_eq!(err, "不支持的 KGM 加密槽位 7");
}

#[test]
fn kgm_v3_position_counts_beyond_a_byte() {
    let header = kgm_v3_header();
    let plain: Vec<u8> = (0..0x1_0203u32).map(|i| (i * 7) as u8).collect();
    let mut enc = kgm_v3_mask(&header, &plain);
    decrypt_kgm_v3(&header, &mut enc);
    assert_eq!(enc, plain);
}

#[test]
fn kugou_digest_reverses_pairs() {
    let hex = "d41d8cd98f00b204e9800998ecf8427e";
    let digest: Vec<u8> =
        (0..16).map(|i| u8::from_str_radix(&hex[2 * i..2 * i + 2], 16).unwrap()).collect();
    let got = kugou_md5(b"");
    for i in 0..8 {
        assert_eq!(got[2 * i], digest[14 - 2 * i]);
        assert_eq!(got[2 * i + 1], digest[15 - 2 * i]);
    }
}

#[test]
fn kgm_headers_that_are_refused() {
    let missing = KeyDatabase::Missing;
    let short = vec![0u8; 0x43];
    assert_eq!(decrypt_kgm(&short, "kgma", &missing).unwrap_err(), "无效的 .kgma 文件头");
    let blank = vec![0u8; 0x80];
    assert_eq!(decrypt_kgm(&blank, "vpr", &missing).unwrap_err(), "无效的 .vpr 文件头");

    let mut file = vec![0u8; 0x80];
    file[..16].copy_from_slice(&VPR_MAGIC);
    file[0x10..0x14].copy_from_slice(&0x81u32.to_le_bytes());
    assert_eq!(decrypt_kgm(&file, "vpr", &missing).unwrap_err(), "KGM 音频偏移超出文件范围");
    file[0x10..0x14].copy_from_slice(&0x80u32.to_le_bytes());
    file[0x14..0x18].copy_from_slice(&4u32.to_le_bytes());
    assert_eq!(decrypt_kgm(&file, "vpr", &missing).unwrap_err(), "不支持的 KGM 加密版本 4");
    file[0x14..0x18].copy_from_slice(&3u32.to_le_bytes());
    file[0x18..0x1c].copy_from_slice(&1u32.to_le_bytes());
    assert_eq!(decrypt_kgm(&file, "vpr", &missing).unwrap_err(), "解密后无法识别音频格式");
}

#[test]
fn kwm_takes_both_headers_and_any_number() {
    for number in [0u64, 7, 10, 99, 12345678, u64::MAX] {
        for magic in [&KWM_MAGIC_1, &KWM_MAGIC_2] {
            let plain: Vec<u8> =
                b"OggS".iter().copied().chain((0..200u32).map(|i| i as u8)).collect();
            let (audio, ext) = decrypt_kwm(&build_kwm(magic, number, &plain)).unwrap();
            assert_eq!(audio, plain);
            assert_eq!(ext, "ogg");
        }
    }
}

#[test]
fn kwm_files_that_are_refused() {
    assert_eq!(decrypt_kwm(&[0u8; 0x3ff]).unwrap_err(), "无效的 KWM 文件头");
    assert_eq!(decrypt_kwm(&[0u8; 0x400]).unwrap_err(), "无效的 KWM 文件头");
    let noise = build_kwm(&KWM_MAGIC_2, 5, b"no audio");
    assert_eq!(decrypt_kwm(&noise).unwrap_err(), "解密后无法识别音频格式");
}

#[test]
fn kwm_masking_twice_gives_the_audio_back() {
    let once = build_kwm(&KWM_MAGIC_1, 42, b"ID3 some audio");
    let twice = build_kwm(&KWM_MAGIC_1, 42, &once[0x400..]);
    assert_eq!(&twice[0x400..], b"ID3 some audio");
}

#[test]
fn ncm_files_that_are_refused() {
    assert_eq!(decrypt_ncm(b"CTENFDAM").unwrap_err(), "无效的 NCM 文件头");
    assert_eq!(decrypt_ncm(&[0u8; 64]).unwrap_err(), "无效的 NCM 文件头");

    let mut no_key = NCM_MAGIC.to_vec();
    no_key.extend_from_slice(&[0u8; 6]);
    assert_eq!(decrypt_ncm(&no_key).unwrap_err(), "NCM key 数据不完整");

    let file_with_key = |blob: &[u8]| {
        let mut out = NCM_MAGIC.to_vec();
        out.extend_from_slice(&[0u8; 2]);
        out.extend_from_slice(&(blob.len() as u32).to_le_bytes());
        out.extend_from_slice(blob);
        out
    };
    assert_eq!(decrypt_ncm(&file_with_key(&[1, 2, 3])).unwrap_err(), "AES-ECB 数据长度无效");

    let mut unpadded = aes_ecb_encrypt(&[0u8; 32], &NCM_CORE_KEY);
    for b in &mut unpadded {
        *b ^= 0x64;
    }
    assert_eq!(decrypt_ncm(&file_with_key(&unpadded)).unwrap_err(), "PKCS#7 填充无效");

    let only_label = wrapped_ncm_key(b"neteasecloudmusic");
    assert_eq!(decrypt_ncm(&file_with_key(&only_label)).unwrap_err(), "NCM 音频密钥无效");

    let good = wrapped_ncm_key(b"neteasecloudmusicK");
    let mut file = file_with_key(&good);
    assert_eq!(decrypt_ncm(&file).unwrap_err(), "文件头长度不足");
    file.extend_from_slice(&5u32.to_le_bytes());
    assert_eq!(decrypt_ncm(&file).unwrap_err(), "NCM 元数据不完整");
    file.extend_from_slice(&[9u8; 5]);
    assert_eq!(decrypt_ncm(&file).unwrap_err(), "文件头长度不足");
    file.extend_from_slice(&[0u8; 5]);
    file.extend_from_slice(&2u32.to_le_bytes());
    assert_eq!(decrypt_ncm(&file).unwrap_err(), "NCM 封面帧不完整");
    file.extend_from_slice(&[0u8; 6]);
    assert_eq!(decrypt_ncm(&file).unwrap_err(), "解密后无法识别音频格式");
}

#[test]
fn ncm_skips_metadata() {
    let reference = build_ncm();
    let at = 14 + 48;
    let mut file = reference[..at].to_vec();
    file.extend_from_slice(&7u32.to_le_bytes());
    file.extend_from_slice(b"{\"a\":1}");
    file.extend_from_slice(&reference[at + 4..]);
    assert_eq!(decrypt_ncm(&file).unwrap(), (ncm_plain(), "flac".to_string()));
}

#[test]
fn key_box_by_hand() {
    for key in [&b"a"[..], STREAM_KEY, &[0u8; 300][..]] {
        assert_eq!(ncm_key_box(key), expected_key_box(key));
    }
}

#[test]
fn aes_block_from_the_standard() {
    let key: [u8; 16] = [0, 1, 2, 3, 4, 5, 6, 7, 8, 9, 10, 11, 12, 13, 14, 15];
    let block = [
        0x69u8, 0xc4, 0xe0, 0xd8, 0x6a, 0x7b, 0x04, 0x30, 0xd8, 0xcd, 0xb7, 0x80, 0x70, 0xb4, 0xc5,
        0x5a,
    ];
    let plain: Vec<u8> = (0..16u8).map(|i| i * 0x11).collect();
    assert_eq!(aes_ecb_decrypt(&block, &key).unwrap(), plain);
    let twice: Vec<u8> = block.iter().chain(block.iter()).copied().collect();
    assert_eq!(aes_ecb_decrypt(&twice, &key).unwrap(), [plain.clone(), plain].concat());
    assert_eq!(aes_ecb_decrypt(&[], &key).unwrap_err(), "AES-ECB 数据长度无效");
    assert_eq!(aes_ecb_decrypt(&block[..15], &key).unwrap_err(), "AES-ECB 数据长度无效");
}

#[test]
fn padding_is_taken_off() {
    assert_eq!(pkcs7_unpad(b"abc\x02\x02").unwrap(), b"abc");
    assert_eq!(pkcs7_unpad(&[16u8; 16]).unwrap(), b"");
    assert_eq!(pkcs7_unpad(b"").unwrap_err(), "PKCS#7 数据为空");
    for bad in [&b"abc\x00"[..], b"abc\x03\x02", &[17u8; 17], b"\x02"] {
        assert_eq!(pkcs7_unpad(bad).unwrap_err(), "PKCS#7 填充无效");
    }
    for n in 1..=16u8 {
        let mut data = b"twelve bytes".to_vec();
        data.extend(vec![n; n as usize]);
        assert_eq!(pkcs7_unpad(&data).unwrap(), b"twelve bytes");
    }
}

#[test]
fn audio_is_told_by_its_start() {
    for (start, ext) in [
        (&b"ID3\x04"[..], "mp3"),
        (b"\xff\xfb\x90", "mp3"),
        (b"\xff\xf3\x90", "mp3"),
        (b"\xff\xfa", "mp3"),
        (b"fLaC\0", "flac"),
        (b"OggS", "ogg"),
    ] {
        assert_eq!(sniff_ext(start), ext);
        assert_eq!(sniff_audio(start).unwrap(), ext);
    }
    for start in [&b""[..], b"ID", b"\xff\xf2", b"fLa", b"RIFF", b" ID3"] {
        assert_eq!(sniff_ext(start), "bin");
        assert_eq!(sniff_audio(start).unwrap_err(), "解密后无法识别音频格式");
    }
}

#[test]
fn little_endian_numbers() {
    let data = [1u8, 2, 3, 4, 5];
    assert_eq!(read_u32_le(&data, 0), Ok(0x0403_0201));
    assert_eq!(read_u32_le(&data, 1), Ok(0x0504_0302));
    assert_eq!(read_u32_le(&data, 2), Err("文件头长度不足".to_string()));
    assert_eq!(read_u32_le(&[], 0), Err("文件头长度不足".to_string()));
}

#[test]
fn file_names_select_the_decoder() {
    let missing = KeyDatabase::Missing;
    let complaint = |name: &str| decrypt_file(&[], name, &missing).unwrap_err();
    assert_eq!(complaint("a.kgg"), "invalid KGG file");
    assert_eq!(complaint("a.kgm"), "无效的 .kgm 文件头");
    assert_eq!(complaint("a.kgma"), "无效的 .kgma 文件头");
    assert_eq!(complaint("a.vpr"), "无效的 .vpr 文件头");
    assert_eq!(complaint("a.ncm"), "无效的 NCM 文件头");
    assert_eq!(complaint("a.kwm"), "无效的 KWM 文件头");
    for ext in [
        "qmc0", "qmc2", "qmc3", "qmc4", "qmc6", "qmc8", "qmcflac", "qmcogg", "tkm", "mflac",
        "mflac0", "mflac1", "mgg", "mgg0", "mgg1", "mggl",
    ] {
        assert_eq!(complaint(&format!("a.{ext}")), "QMC 文件太短");
    }
    assert_eq!(complaint("a.krc"), "KRC 是歌词格式，请使用歌词转换入口");
    assert_eq!(complaint("a.MP3"), "暂不支持 .mp3 格式");
    assert_eq!(complaint("no extension"), "暂不支持 .? 格式");
    assert_eq!(complaint("dot at the end."), "暂不支持 .? 格式");
    assert_eq!(complaint("a.ÄB"), "暂不支持 .Äb 格式");
    assert_eq!(complaint("qmc1.qmc1"), "暂不支持 .qmc1 格式");
}

#[test]
fn only_the_extension_matters_and_not_its_case() {
    let file = build_ncm();
    let missing = KeyDatabase::Missing;
    let expected = Ok((ncm_plain(), "flac".to_string()));
    for name in ["a.ncm", "b.NCM", "c.tar.Ncm", ".nCm"] {
        assert_eq!(decrypt_file(&file, name, &missing), expected);
        assert_eq!(try_decrypt_file(&file, name, &missing), Some(expected.clone()));
    }
}

#[test]
fn pairs_in_the_opposite_order() {
    let digest: [u8; 16] = [0, 1, 2, 3, 4, 5, 6, 7, 8, 9, 10, 11, 12, 13, 14, 15];
    let expected: [u8; 16] = [14, 15, 12, 13, 10, 11, 8, 9, 6, 7, 4, 5, 2, 3, 0, 1];
    assert_eq!(reverse_pairs(&digest), expected);
}

#[test]
fn ncm_files_that_were_cut() {
    let file = build_ncm();
    let plain = ncm_plain();
    let start = file.len() - plain.len();
    for n in 0..=start {
        assert!(decrypt_ncm(&file[..n]).is_err());
    }
    for n in start + 4..=file.len() {
        let front = plain[..n - start].to_vec();
        assert_eq!(decrypt_ncm(&file[..n]), Ok((front, "flac".to_string())));
    }
}

#[test]
fn ncm_gaps_and_cover_do_not_matter() {
    let file = build_ncm();
    let start = file.len() - ncm_plain().len();
    let key_end = 14 + 48;
    let meta_end = key_end + 4;
    let unread = (8..10).chain(key_end + 4..meta_end + 5).chain(meta_end + 9..start);
    for i in unread {
        let mut other = file.clone();
        other[i] ^= 0xff;
        assert_eq!(decrypt_ncm(&other), decrypt_ncm(&file));
    }
}

#[test]
fn only_256_bytes_of_the_repeated_key_count() {
    for key in [&b"a"[..], b"abc", STREAM_KEY, &[5u8; 300][..]] {
        let pattern = ncm_key_box(key);
        for times in [2usize, 3, 20] {
            assert_eq!(ncm_key_box(&key.repeat(times)), pattern);
        }
        let mut long: Vec<u8> = key.iter().copied().cycle().take(256).collect();
        long.extend_from_slice(b"anything else");
        assert_eq!(ncm_key_box(&long), pattern);
        long[255] ^= 1;
        assert_ne!(ncm_key_box(&long), pattern);
    }
}

#[test]
fn extensions_of_qmc_files_are_aliases() {
    let plain = b"OggS and more".to_vec();
    let mut file = plain.clone();
    QmcCipher::static_cipher().decrypt(&mut file, 0);
    for ext in [
        "qmc0", "qmc2", "QMC3", "qmc4", "qmc6", "qmc8", "qmcflac", "qmcogg", "Tkm", "mflac",
        "mflac0", "mflac1", "mgg", "mgg0", "mgg1", "mggL",
    ] {
        let name = format!("song.{ext}");
        let decoded = decrypt_file(&file, &name, &KeyDatabase::Missing);
        assert_eq!(decoded, Ok((plain.clone(), "ogg".to_string())));
    }
}
