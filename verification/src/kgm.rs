//! KGM and VPR files. Version 3 masks the audio with digests of the header; version 5
//! takes a stream key from the local database, as KGG does.
use crate::audio::{extension_of, file_outcome, is_audio, no_audio, recognised, sniff_audio};
use crate::bytes::{copy_range, le32_at, le32_bytes, le32_split, read_u32_le, starts_with, u32_le_read};
use crate::ekey::{derive_key, key_derived};
use crate::keys::KeyDatabase;
use crate::kgg::KGM_MAGIC;
use crate::outside::{md5_digest, md5_of, text_read, utf8_lossy};
use crate::qmc::{key_mask, law_mask_reversible, masked, QmcCipher};
use crate::text::{decimal_text, push_decimal, trim_trailing_nul, without_trailing_nul};
use vstd::prelude::*;
use vstd::string::StringExecFns;
use vstd::utf8::encode_utf8;

verus! {

/// What VPR files begin with.
pub const VPR_MAGIC: [u8; 16] = [
    0x05, 0x28, 0xbc, 0x96, 0xe9, 0xe4, 0x5a, 0x43, 0x91, 0xaa, 0xbd, 0xd0, 0x7a, 0xf5, 0x36, 0x31,
];

/// The material of the only slot key there is.
pub const SLOT_MATERIAL: [u8; 4] = [0x6c, 0x2c, 0x2f, 0x27];

/// What closes a file key.
pub const FILE_KEY_END: u8 = 0x6b;

/// A digest with its pairs of bytes in the opposite order.
pub open spec fn pairs_reversed(digest: Seq<u8>) -> Seq<u8> {
    Seq::new(
        16,
        |i: int|
            if i % 2 == 0 {
                digest[14 - i]
            } else {
                digest[16 - i]
            },
    )
}

/// The key that the file's own header gives.
pub open spec fn file_key(header: Seq<u8>) -> Seq<u8> {
    pairs_reversed(md5_digest(header.subrange(0x2c, 0x3c))).push(FILE_KEY_END)
}

/// The key of the slot.
pub open spec fn slot_key() -> Seq<u8> {
    pairs_reversed(md5_digest(SLOT_MATERIAL@))
}

/// The four bytes of the position, combined into one.
pub open spec fn position_byte(i: int) -> u8 {
    let bytes = le32_bytes((i % 0x1_0000_0000) as u32);
    bytes[0] ^ bytes[1] ^ bytes[2] ^ bytes[3]
}

/// The byte `b` at position `i` unmasked: first by the file key; then its low half is
/// added into its high half; then by the slot key and the position.
pub open spec fn v3_byte(header: Seq<u8>, b: u8, i: int) -> u8 {
    let opened = b ^ file_key(header)[i % 17];
    opened ^ (opened << 4u8) ^ slot_key()[i % 16] ^ position_byte(i)
}

/// Audio of version 3 unmasked.
pub open spec fn v3_decoded(header: Seq<u8>, audio: Seq<u8>) -> Seq<u8> {
    Seq::new(audio.len(), |i: int| v3_byte(header, audio[i], i))
}

/// The byte `b` at position `i` masked as version 3 does, the steps of `v3_byte` taken
/// back in the opposite order.
pub open spec fn v3_masked_byte(header: Seq<u8>, b: u8, i: int) -> u8 {
    let inner = b ^ position_byte(i) ^ slot_key()[i % 16];
    inner ^ (inner << 4u8) ^ file_key(header)[i % 17]
}

/// Audio masked as version 3 does.
pub open spec fn v3_encoded(header: Seq<u8>, audio: Seq<u8>) -> Seq<u8> {
    Seq::new(audio.len(), |i: int| v3_masked_byte(header, audio[i], i))
}

/// The stream key of a version 5 file.
pub open spec fn v5_stream_key(data: Seq<u8>, keys: KeyDatabase) -> Result<Seq<u8>, Seq<char>> {
    match u32_le_read(data, 0x44) {
        Err(text) => Err(text),
        Ok(hash_len) => if 0x48 + hash_len > usize::MAX {
            Err("KGM audio hash 溢出"@)
        } else if hash_len == 0 || 0x48 + hash_len > data.len() {
            Err("KGM audio hash 无效"@)
        } else {
            let hash = without_trailing_nul(text_read(data.subrange(0x48, 0x48 + hash_len)));
            match keys {
                KeyDatabase::Missing => Err(
                    "未找到 KGMusicV3.db（KGM v5 需要本地密钥库）"@,
                ),
                KeyDatabase::Unreadable(text) => Err(
                    "读取 KGMusicV3.db 失败: "@ + text@,
                ),
                KeyDatabase::Invalid(text) => Err(text@),
                KeyDatabase::Keys(map) => if !map@.dom().contains(hash) {
                    Err("数据库中没有 audio_hash="@ + hash + " 的 ekey"@)
                } else {
                    match key_derived(encode_utf8(map@[hash])) {
                        Err(text) => Err(text),
                        Ok(key) => if key.len() == 0 {
                            Err("KGM v5 ekey 无法建立解密器"@)
                        } else {
                            Ok(key)
                        },
                    }
                },
            }
        },
    }
}

/// The audio of a KGM or VPR file, by its version.
pub open spec fn kgm_audio(data: Seq<u8>, keys: KeyDatabase) -> Result<Seq<u8>, Seq<char>> {
    let version = le32_at(data, 0x14);
    let audio = data.subrange(le32_at(data, 0x10), data.len() as int);
    if version == 3 {
        let slot = le32_at(data, 0x18);
        if slot != 1 {
            Err("不支持的 KGM 加密槽位 "@ + decimal_text(slot as nat))
        } else {
            Ok(v3_decoded(data, audio))
        }
    } else if version == 5 {
        match v5_stream_key(data, keys) {
            Err(text) => Err(text),
            Ok(key) => Ok(masked(audio, 0, |p: int| key_mask(key, p))),
        }
    } else {
        Err("不支持的 KGM 加密版本 "@ + decimal_text(version as nat))
    }
}

/// A KGM or VPR file decoded; `ext` is the extension it came with.
pub open spec fn kgm_decoded(data: Seq<u8>, ext: Seq<char>, keys: KeyDatabase) -> Result<
    (Seq<u8>, Seq<char>),
    Seq<char>,
> {
    if data.len() < 0x44 || (!KGM_MAGIC@.is_prefix_of(data) && !VPR_MAGIC@.is_prefix_of(data)) {
        Err("无效的 ."@ + ext + " 文件头"@)
    } else if le32_at(data, 0x10) > data.len() {
        Err("KGM 音频偏移超出文件范围"@)
    } else {
        match kgm_audio(data, keys) {
            Err(text) => Err(text),
            Ok(audio) => recognised(audio, no_audio()),
        }
    }
}

/// A digest with its pairs of bytes in the opposite order.
pub fn reverse_pairs(digest: &[u8; 16]) -> (out: [u8; 16])
    ensures
        out@ == pairs_reversed(digest@),
{
    let mut out: [u8; 16] = [0;16];
    for i in 0..16
        invariant
            forall|k: int| 0 <= k < i ==> out@[k] == #[trigger] pairs_reversed(digest@)[k],
    {
        out[i] = if i % 2 == 0 {
            digest[14 - i]
        } else {
            digest[16 - i]
        };
    }
    assert(out@ =~= pairs_reversed(digest@));
    out
}

/// The digest of `input` with its pairs of bytes in the opposite order.
pub fn kugou_md5(input: &[u8]) -> (out: [u8; 16])
    ensures
        out@ == pairs_reversed(md5_digest(input@)),
{
    reverse_pairs(&md5_of(input))
}

/// Unmasks audio of version 3 where it stands.
pub fn decrypt_kgm_v3(header: &[u8], audio: &mut [u8])
    requires
        header@.len() >= 0x3c,
    ensures
        final(audio)@ == v3_decoded(header@, old(audio)@),
{
    let slot = kugou_md5(&SLOT_MATERIAL);
    let first = kugou_md5(&header[0x2c..0x3c]);
    let mut file = copy_range(&first, 0, 16);
    file.push(FILE_KEY_END);
    assert(file@ =~= file_key(header@));
    let len = audio.len();
    for i in 0..len
        invariant
            file@ == file_key(header@),
            file@.len() == 17,
            slot@ == slot_key(),
            len == audio@.len(),
            len == old(audio)@.len(),
            forall|k: int| 0 <= k < i ==> #[trigger] audio@[k] == v3_byte(header@, old(audio)@[k], k),
            forall|k: int| i <= k < len ==> audio@[k] == old(audio)@[k],
    {
        let opened = audio[i] ^ file[i % 17];
        let at = le32_split((i as u64 % 0x1_0000_0000) as u32);
        let position = at[0] ^ at[1] ^ at[2] ^ at[3];
        audio[i] = opened ^ (opened << 4u8) ^ slot[i % 16] ^ position;
    }
    assert(audio@ =~= v3_decoded(header@, old(audio)@));
}

/// Finds the cipher for a version 5 file.
fn open_v5(data: &[u8], keys: &KeyDatabase) -> (res: Result<QmcCipher, String>)
    ensures
        match res {
            Ok(cipher) => {
                &&& v5_stream_key(data@, *keys) is Ok
                &&& cipher.usable()
                &&& forall|p: int| #[trigger]
                    cipher.mask_at(p) == key_mask(v5_stream_key(data@, *keys)->Ok_0, p)
            },
            Err(text) => v5_stream_key(data@, *keys) == Err::<Seq<u8>, Seq<char>>(text@),
        },
{
    let hash_len = read_u32_le(data, 0x44)? as usize;
    let hash_end = match hash_len.checked_add(0x48) {
        Some(end) => end,
        None => return Err("KGM audio hash 溢出".to_string()),
    };
    if hash_len == 0 || hash_end > data.len() {
        return Err("KGM audio hash 无效".to_string());
    }
    let text = utf8_lossy(&data[0x48..hash_end]);
    let hash = trim_trailing_nul(text.as_str());
    match keys {
        KeyDatabase::Missing => Err(
            "未找到 KGMusicV3.db（KGM v5 需要本地密钥库）".to_string(),
        ),
        KeyDatabase::Unreadable(reason) => {
            let mut text = "读取 KGMusicV3.db 失败: ".to_string();
            text.append(reason.as_str());
            Err(text)
        },
        KeyDatabase::Invalid(reason) => Err(reason.clone()),
        KeyDatabase::Keys(map) => match map.get(hash.as_str()) {
            None => {
                let mut text = "数据库中没有 audio_hash=".to_string();
                text.append(hash.as_str());
                text.append(" 的 ekey");
                Err(text)
            },
            Some(ekey) => {
                let key = derive_key(ekey.as_str())?;
                match QmcCipher::new(key) {
                    Some(cipher) => Ok(cipher),
                    None => Err("KGM v5 ekey 无法建立解密器".to_string()),
                }
            },
        },
    }
}

/// Decodes a KGM or VPR file; `ext` is the extension it came with.
pub fn decrypt_kgm(data: &[u8], ext: &str, keys: &KeyDatabase) -> (res: Result<
    (Vec<u8>, String),
    String,
>)
    ensures
        file_outcome(res) == kgm_decoded(data@, ext@, *keys),
{
    if data.len() < 0x44 || (!starts_with(data, &KGM_MAGIC) && !starts_with(data, &VPR_MAGIC)) {
        let mut text = "无效的 .".to_string();
        text.append(ext);
        text.append(" 文件头");
        return Err(text);
    }
    let offset = read_u32_le(data, 0x10)? as usize;
    let version = read_u32_le(data, 0x14)?;
    if offset > data.len() {
        return Err("KGM 音频偏移超出文件范围".to_string());
    }
    let mut audio = copy_range(data, offset, data.len());
    if version == 3 {
        let slot = read_u32_le(data, 0x18)?;
        if slot != 1 {
            let mut text = "不支持的 KGM 加密槽位 ".to_string();
            push_decimal(&mut text, slot as u64);
            return Err(text);
        }
        decrypt_kgm_v3(data, audio.as_mut_slice());
    } else if version == 5 {
        let cipher = open_v5(data, keys)?;
        cipher.decrypt(audio.as_mut_slice(), 0);
    } else {
        let mut text = "不支持的 KGM 加密版本 ".to_string();
        push_decimal(&mut text, version as u64);
        return Err(text);
    }
    assert(audio@ =~= kgm_audio(data@, *keys)->Ok_0);
    let format = sniff_audio(audio.as_slice())?;
    Ok((audio, format))
}

/// Version 3 masking and unmasking undo each other, whatever the header.
pub proof fn law_v3_round_trip(header: Seq<u8>, audio: Seq<u8>)
    ensures
        v3_decoded(header, v3_encoded(header, audio)) == audio,
        v3_encoded(header, v3_decoded(header, audio)) == audio,
{
    let there = v3_decoded(header, v3_encoded(header, audio));
    let back = v3_encoded(header, v3_decoded(header, audio));
    assert forall|i: int| 0 <= i < audio.len() implies #[trigger] there[i] == audio[i] && back[i]
        == audio[i] by {
        let b = audio[i];
        let f = file_key(header)[i % 17];
        let s = slot_key()[i % 16];
        let p = position_byte(i);
        assert(({
            let inner = b ^ p ^ s;
            let masked = inner ^ (inner << 4u8) ^ f;
            let opened = masked ^ f;
            opened ^ (opened << 4u8) ^ s ^ p
        }) == b) by (bit_vector);
        assert(({
            let opened = b ^ f;
            let plain = opened ^ (opened << 4u8) ^ s ^ p;
            let inner = plain ^ p ^ s;
            inner ^ (inner << 4u8) ^ f
        }) == b) by (bit_vector);
    }
    assert(there =~= audio);
    assert(back =~= audio);
}

/// A version 3 file gives back the audio that was masked into it: whatever the header
/// holds besides its magic, version, slot and offset, audio of a known
/// kind behind it comes out as it went in.
pub proof fn law_v3_file_round_trip(
    header: Seq<u8>,
    audio: Seq<u8>,
    ext: Seq<char>,
    keys: KeyDatabase,
)
    requires
        header.len() >= 0x3c,
        header.len() + audio.len() >= 0x44,
        KGM_MAGIC@.is_prefix_of(header) || VPR_MAGIC@.is_prefix_of(header),
        le32_at(header, 0x10) == header.len(),
        le32_at(header, 0x14) == 3,
        le32_at(header, 0x18) == 1,
        is_audio(audio),
    ensures
        kgm_decoded(header + v3_encoded(header, audio), ext, keys) == Ok::<
            (Seq<u8>, Seq<char>),
            Seq<char>,
        >((audio, extension_of(audio))),
{
    let file = header + v3_encoded(header, audio);
    assert(file.subrange(0, 16) =~= header.subrange(0, 16));
    assert(file.subrange(0x2c, 0x3c) =~= header.subrange(0x2c, 0x3c));
    assert(file.subrange(header.len() as int, file.len() as int) =~= v3_encoded(header, audio));
    assert(v3_decoded(file, v3_encoded(header, audio)) =~= v3_decoded(
        header,
        v3_encoded(header, audio),
    ));
    law_v3_round_trip(header, audio);
}

/// A version 5 file gives back the audio that was masked with the key that the database
/// holds for the hash in its header.
pub proof fn law_v5_file_round_trip(
    header: Seq<u8>,
    audio: Seq<u8>,
    ext: Seq<char>,
    keys: KeyDatabase,
    key: Seq<u8>,
)
    requires
        ({
            let file = header + masked(audio, 0, |p: int| key_mask(key, p));
            &&& file.len() >= 0x44
            &&& KGM_MAGIC@.is_prefix_of(file) || VPR_MAGIC@.is_prefix_of(file)
            &&& le32_at(file, 0x10) == header.len()
            &&& le32_at(file, 0x14) == 5
            &&& v5_stream_key(file, keys) == Ok::<Seq<u8>, Seq<char>>(key)
        }),
        is_audio(audio),
    ensures
        kgm_decoded(header + masked(audio, 0, |p: int| key_mask(key, p)), ext, keys) == Ok::<
            (Seq<u8>, Seq<char>),
            Seq<char>,
        >((audio, extension_of(audio))),
{
    let hidden = masked(audio, 0, |p: int| key_mask(key, p));
    let file = header + hidden;
    assert(file.subrange(header.len() as int, file.len() as int) =~= hidden);
    law_mask_reversible(audio, 0, |p: int| key_mask(key, p));
}

/// What the position contributes to a byte: its four bytes combined. Below 2 to the power 32
/// no position is taken for another one: every byte of the position counts, and a position
/// of which only one byte is not zero contributes that byte.
pub proof fn law_position_byte(i: int, k: u8)
    requires
        0 <= i < 0x1_0000_0000,
    ensures
        position_byte(i) == ((i % 256) as u8) ^ ((i / 256 % 256) as u8) ^ ((i / 65536 % 256) as u8)
            ^ ((i / 16777216) as u8),
        position_byte(k as int) == k,
        position_byte(256 * k) == k,
        position_byte(65536 * k) == k,
        position_byte(16777216 * k) == k,
        position_byte(i + 0x1_0000_0000) == position_byte(i),
{
    assert(0u8 ^ 0 ^ k ^ 0 == k && 0u8 ^ k ^ 0 ^ 0 == k && k ^ 0 ^ 0 ^ 0 == k && 0u8 ^ 0 ^ 0 ^ k
        == k) by (bit_vector);
    let a = 256 * k;
    assert(a % 256 == 0 && a / 256 % 256 == k && a / 65536 % 256 == 0 && a / 16777216 == 0);
    let b = 65536 * k;
    assert(b % 256 == 0 && b / 256 % 256 == 0 && b / 65536 % 256 == k && b / 16777216 == 0);
    let c = 16777216 * k;
    assert(c % 256 == 0 && c / 256 % 256 == 0 && c / 65536 % 256 == 0 && c / 16777216 == k);
    assert((i + 0x1_0000_0000) % 0x1_0000_0000 == i);
}

/// Byte `i` of version 3 audio: the masked byte and a byte of the file key are combined; the
/// low half of that is added into the high half; and a byte of the slot key and the bytes of
/// the position are combined with it. The keys are digests, of sixteen header bytes and of
/// four fixed ones, read in pairs from the back; the file key closes with a fixed byte.
pub proof fn law_v3_bytes(header: Seq<u8>, audio: Seq<u8>, i: int)
    requires
        header.len() >= 60,
        0 <= i < audio.len(),
        i < 0x1_0000_0000,
    ensures
        v3_decoded(header, audio).len() == audio.len(),
        ({
            let of_file = md5_digest(header.subrange(44, 60));
            let of_slot = md5_digest(seq![0x6cu8, 0x2c, 0x2f, 0x27]);
            let f = if i % 17 == 16 {
                0x6b
            } else if i % 17 % 2 == 0 {
                of_file[14 - i % 17]
            } else {
                of_file[16 - i % 17]
            };
            let s = if i % 2 == 0 {
                of_slot[14 - i % 16]
            } else {
                of_slot[16 - i % 16]
            };
            let opened = audio[i] ^ f;
            v3_decoded(header, audio)[i] == opened ^ ((opened as int * 16 % 256) as u8) ^ s ^ (((i
                % 256) as u8) ^ ((i / 256 % 256) as u8) ^ ((i / 65536 % 256) as u8) ^ ((i
                / 16777216) as u8))
        }),
{
    let f = file_key(header)[i % 17];
    let s = slot_key()[i % 16];
    lemma_file_key_byte(header, i % 17);
    assert(s == (if i % 2 == 0 {
        md5_digest(seq![0x6cu8, 0x2c, 0x2f, 0x27])[14 - i % 16]
    } else {
        md5_digest(seq![0x6cu8, 0x2c, 0x2f, 0x27])[16 - i % 16]
    })) by {
        assert(i % 16 % 2 == i % 2);
        lemma_slot_key_byte(i % 16);
    }
    assert(position_byte(i) == ((i % 256) as u8) ^ ((i / 256 % 256) as u8) ^ ((i / 65536
        % 256) as u8) ^ ((i / 16777216) as u8)) by {
        law_position_byte(i, 0);
    }
    lemma_v3_formula(audio[i], f, s, position_byte(i));
    assert(v3_decoded(header, audio)[i] == v3_byte(header, audio[i], i));
}

proof fn lemma_v3_formula(b: u8, f: u8, s: u8, p: u8)
    ensures
        ({
            let opened = b ^ f;
            opened ^ (opened << 4u8) ^ s ^ p == opened ^ ((opened as int * 16 % 256) as u8) ^ s ^ p
        }),
{
    let opened = b ^ f;
    assert(opened << 4u8 == (opened * 16 % 256) as u8) by (bit_vector);
}

proof fn lemma_file_key_byte(header: Seq<u8>, x: int)
    requires
        header.len() >= 60,
        0 <= x <= 16,
    ensures
        file_key(header)[x] == (if x == 16 {
            0x6b
        } else if x % 2 == 0 {
            md5_digest(header.subrange(44, 60))[14 - x]
        } else {
            md5_digest(header.subrange(44, 60))[16 - x]
        }),
{
}

proof fn lemma_slot_key_byte(x: int)
    requires
        0 <= x < 16,
    ensures
        slot_key()[x] == (if x % 2 == 0 {
            md5_digest(seq![0x6cu8, 0x2c, 0x2f, 0x27])[14 - x]
        } else {
            md5_digest(seq![0x6cu8, 0x2c, 0x2f, 0x27])[16 - x]
        }),
{
    assert(SLOT_MATERIAL@ =~= seq![0x6cu8, 0x2c, 0x2f, 0x27]);
}

/// The two kinds of headers that version 3 and 5 files begin with.
pub open spec fn begins_like_kgm(data: Seq<u8>) -> bool {
    ||| data.subrange(0, 16) == seq![
        0x7cu8,
        0xd5,
        0x32,
        0xeb,
        0x86,
        0x02,
        0x7f,
        0x4b,
        0xa8,
        0xaf,
        0xa6,
        0x8e,
        0x0f,
        0xff,
        0x99,
        0x14,
    ]
    ||| data.subrange(0, 16) == seq![
        0x05u8,
        0x28,
        0xbc,
        0x96,
        0xe9,
        0xe4,
        0x5a,
        0x43,
        0x91,
        0xaa,
        0xbd,
        0xd0,
        0x7a,
        0xf5,
        0x36,
        0x31,
    ]
}

proof fn lemma_begins_like_kgm(data: Seq<u8>)
    requires
        data.len() >= 0x44,
    ensures
        begins_like_kgm(data) <==> KGM_MAGIC@.is_prefix_of(data) || VPR_MAGIC@.is_prefix_of(data),
{
    assert(KGM_MAGIC@ =~= seq![
        0x7cu8,
        0xd5,
        0x32,
        0xeb,
        0x86,
        0x02,
        0x7f,
        0x4b,
        0xa8,
        0xaf,
        0xa6,
        0x8e,
        0x0f,
        0xff,
        0x99,
        0x14,
    ]);
    assert(VPR_MAGIC@ =~= seq![
        0x05u8,
        0x28,
        0xbc,
        0x96,
        0xe9,
        0xe4,
        0x5a,
        0x43,
        0x91,
        0xaa,
        0xbd,
        0xd0,
        0x7a,
        0xf5,
        0x36,
        0x31,
    ]);
}

/// A file of version 3 and slot 1 decodes to the audio from its offset on, unmasked as
/// version 3 is, and refused if that is no audio. The offset, the version and the slot are
/// the numbers at 16, 20 and 24.
pub proof fn law_v3_file_decoded(data: Seq<u8>, ext: Seq<char>, keys: KeyDatabase)
    requires
        data.len() >= 68,
        begins_like_kgm(data),
        le32_at(data, 16) <= data.len(),
        le32_at(data, 20) == 3,
        le32_at(data, 24) == 1,
    ensures
        ({
            let audio = v3_decoded(data, data.subrange(le32_at(data, 16), data.len() as int));
            kgm_decoded(data, ext, keys) == (if is_audio(audio) {
                Ok::<(Seq<u8>, Seq<char>), Seq<char>>((audio, extension_of(audio)))
            } else {
                Err("解密后无法识别音频格式"@)
            })
        }),
{
    lemma_begins_like_kgm(data);
}

/// What is no KGM or VPR file is refused, and so are files that name an offset past their
/// end, another version or another slot; the complaint holds the extension or the number.
pub proof fn law_kgm_refused(data: Seq<u8>, ext: Seq<char>, keys: KeyDatabase)
    ensures
        data.len() < 68 || !begins_like_kgm(data) ==> kgm_decoded(data, ext, keys) == Err::<
            (Seq<u8>, Seq<char>),
            Seq<char>,
        >("无效的 ."@ + ext + " 文件头"@),
        data.len() >= 68 && begins_like_kgm(data) && le32_at(data, 16) > data.len()
            ==> kgm_decoded(data, ext, keys) == Err::<(Seq<u8>, Seq<char>), Seq<char>>(
            "KGM 音频偏移超出文件范围"@,
        ),
        data.len() >= 68 && begins_like_kgm(data) && le32_at(data, 16) <= data.len() && le32_at(
            data,
            20,
        ) != 3 && le32_at(data, 20) != 5 ==> kgm_decoded(data, ext, keys) == Err::<
            (Seq<u8>, Seq<char>),
            Seq<char>,
        >("不支持的 KGM 加密版本 "@ + decimal_text(le32_at(data, 20) as nat)),
        data.len() >= 68 && begins_like_kgm(data) && le32_at(data, 16) <= data.len() && le32_at(
            data,
            20,
        ) == 3 && le32_at(data, 24) != 1 ==> kgm_decoded(data, ext, keys) == Err::<
            (Seq<u8>, Seq<char>),
            Seq<char>,
        >("不支持的 KGM 加密槽位 "@ + decimal_text(le32_at(data, 24) as nat)),
{
    if data.len() >= 68 {
        lemma_begins_like_kgm(data);
    }
}

/// A file of version 5 decodes to the audio from its offset on, each byte combined with the
/// mask of the key at its distance from there. The key is the one that the database holds
/// for the hash at 72, whose length, not zero, stands at 68, without the NULs at its end.
pub proof fn law_v5_file_decoded(
    data: Seq<u8>,
    ext: Seq<char>,
    map: crate::keys::EkeyMap,
    hash: Seq<char>,
    key: Seq<u8>,
)
    requires
        data.len() >= 72,
        begins_like_kgm(data),
        le32_at(data, 16) <= data.len(),
        le32_at(data, 20) == 5,
        0 < le32_at(data, 68) <= data.len() - 72,
        data.len() <= usize::MAX,
        without_trailing_nul(text_read(data.subrange(72, 72 + le32_at(data, 68)))) == hash,
        map@.dom().contains(hash),
        key_derived(encode_utf8(map@[hash])) == Ok::<Seq<u8>, Seq<char>>(key),
    ensures
        ({
            let start = le32_at(data, 16);
            let audio = Seq::new(
                (data.len() - start) as nat,
                |i: int| data[start + i] ^ key_mask(key, i),
            );
            kgm_decoded(data, ext, KeyDatabase::Keys(map)) == (if is_audio(audio) {
                Ok::<(Seq<u8>, Seq<char>), Seq<char>>((audio, extension_of(audio)))
            } else {
                Err("解密后无法识别音频格式"@)
            })
        }),
{
    lemma_begins_like_kgm(data);
    crate::ekey::law_derived_key_not_empty(encode_utf8(map@[hash]));
    let start = le32_at(data, 16);
    let audio = Seq::new((data.len() - start) as nat, |i: int| data[start + i] ^ key_mask(key, i));
    let got = masked(
        data.subrange(start, data.len() as int),
        0,
        |p: int| key_mask(key, p),
    );
    assert(got =~= audio);
}

/// A version 5 file is refused if its hash is missing, empty or cut, and otherwise with the
/// reason why there is no database, or with its hash if the database does not hold it.
pub proof fn law_v5_refused(data: Seq<u8>, ext: Seq<char>, keys: KeyDatabase)
    requires
        data.len() >= 68,
        data.len() <= usize::MAX - 72,
        begins_like_kgm(data),
        le32_at(data, 16) <= data.len(),
        le32_at(data, 20) == 5,
    ensures
        data.len() < 72 ==> kgm_decoded(data, ext, keys) == Err::<(Seq<u8>, Seq<char>), Seq<char>>(
            "文件头长度不足"@,
        ),
        data.len() >= 72 && 72 + le32_at(data, 68) <= usize::MAX && (le32_at(data, 68) == 0 || 72
            + le32_at(data, 68) > data.len()) ==> kgm_decoded(data, ext, keys) == Err::<
            (Seq<u8>, Seq<char>),
            Seq<char>,
        >("KGM audio hash 无效"@),
        data.len() >= 72 && 0 < le32_at(data, 68) <= data.len() - 72 ==> {
            let hash = without_trailing_nul(text_read(data.subrange(72, 72 + le32_at(data, 68))));
            &&& keys is Missing ==> kgm_decoded(data, ext, keys) == Err::<
                (Seq<u8>, Seq<char>),
                Seq<char>,
            >("未找到 KGMusicV3.db（KGM v5 需要本地密钥库）"@)
            &&& keys matches KeyDatabase::Unreadable(text) ==> kgm_decoded(data, ext, keys) == Err::<
                (Seq<u8>, Seq<char>),
                Seq<char>,
            >("读取 KGMusicV3.db 失败: "@ + text@)
            &&& keys matches KeyDatabase::Invalid(text) ==> kgm_decoded(data, ext, keys) == Err::<
                (Seq<u8>, Seq<char>),
                Seq<char>,
            >(text@)
            &&& keys matches KeyDatabase::Keys(map) ==> !map@.dom().contains(hash) ==> kgm_decoded(
                data,
                ext,
                keys,
            ) == Err::<(Seq<u8>, Seq<char>), Seq<char>>(
                "数据库中没有 audio_hash="@ + hash + " 的 ekey"@,
            )
        },
{
    lemma_begins_like_kgm(data);
}

} // verus!
