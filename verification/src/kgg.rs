//! KGG files: a header that names the audio by its hash, and audio that is masked with
//! the stream key that the local database holds for that hash.
use crate::audio::{extension_of, file_outcome, is_audio, recognised, sniff_ext};
use crate::bytes::{copy_range, le32, le32_at, starts_with};
use crate::ekey::{derive_key, key_derived};
use crate::keys::KeyDatabase;
use crate::outside::{text_read, utf8_lossy};
use crate::qmc::{key_mask, law_mask_reversible, masked, QmcCipher};
use crate::text::{decimal_text, push_decimal};
use vstd::prelude::*;
use vstd::string::StringExecFns;
use vstd::utf8::{decode_utf8, encode_utf8, valid_utf8};

verus! {

/// What KGG and KGM files begin with.
pub const KGM_MAGIC: [u8; 16] = [
    0x7c, 0xd5, 0x32, 0xeb, 0x86, 0x02, 0x7f, 0x4b, 0xa8, 0xaf, 0xa6, 0x8e, 0x0f, 0xff, 0x99, 0x14,
];

/// The fields of a KGG header that decoding needs.
pub struct KggHeader {
    pub audio_offset: usize,
    pub audio_hash: String,
}

/// Whether `data` carries a KGG header of the version that can be decoded.
pub open spec fn is_kgg(data: Seq<u8>) -> bool {
    data.len() >= 0x4c && KGM_MAGIC@.is_prefix_of(data) && le32_at(data, 0x14) == 5
}

/// Where the audio hash of a KGG file ends.
pub open spec fn kgg_hash_end(data: Seq<u8>) -> int {
    0x48 + le32_at(data, 0x44)
}

/// The header of a KGG file: the offset of the audio and its hash.
pub open spec fn kgg_header(data: Seq<u8>) -> Result<(int, Seq<char>), Seq<char>> {
    if data.len() < 0x4c || !KGM_MAGIC@.is_prefix_of(data) {
        Err("invalid KGG file"@)
    } else if le32_at(data, 0x14) != 5 {
        Err("unsupported crypto version "@ + decimal_text(le32_at(data, 0x14) as nat))
    } else {
        Ok((le32_at(data, 0x10), text_read(data.subrange(0x48, kgg_hash_end(data)))))
    }
}

/// The stream key of a KGG file.
pub open spec fn kgg_stream_key(data: Seq<u8>, keys: KeyDatabase) -> Result<Seq<u8>, Seq<char>> {
    match kgg_header(data) {
        Err(text) => Err(text),
        Ok((_, hash)) => match keys {
            KeyDatabase::Missing => Err("KuGou database not found"@),
            KeyDatabase::Unreadable(text) => Err(text@),
            KeyDatabase::Invalid(text) => Err(text@),
            KeyDatabase::Keys(map) => if !map@.dom().contains(hash) {
                Err("ekey not found for hash "@ + hash)
            } else {
                match key_derived(encode_utf8(map@[hash])) {
                    Err(text) => Err(text),
                    Ok(key) => if key.len() == 0 {
                        Err("cipher creation failed"@)
                    } else {
                        Ok(key)
                    },
                }
            },
        },
    }
}

/// The audio of a KGG file under a stream key.
pub open spec fn kgg_audio(data: Seq<u8>, key: Seq<u8>) -> Seq<u8> {
    masked(
        data.subrange(le32_at(data, 0x10), data.len() as int),
        0,
        |p: int| key_mask(key, p),
    )
}

/// A KGG file decoded.
pub open spec fn kgg_decoded(data: Seq<u8>, keys: KeyDatabase) -> Result<
    (Seq<u8>, Seq<char>),
    Seq<char>,
> {
    match kgg_stream_key(data, keys) {
        Err(text) => Err(text),
        Ok(key) => recognised(kgg_audio(data, key), "unrecognized audio format"@),
    }
}

/// Whether the header's hash lies inside the file.
pub open spec fn kgg_hash_inside(data: Seq<u8>) -> bool {
    is_kgg(data) ==> kgg_hash_end(data) <= data.len()
}

/// Whether what decoding looks at lies inside the file: the hash, and, once there is a
/// stream key, the start of the audio.
pub open spec fn kgg_inside(data: Seq<u8>, keys: KeyDatabase) -> bool {
    &&& kgg_hash_inside(data)
    &&& kgg_stream_key(data, keys) is Ok ==> le32_at(data, 0x10) <= data.len()
}

/// Reads the header of a KGG file.
pub fn parse_kgg_header(data: &[u8]) -> (res: Result<KggHeader, String>)
    requires
        kgg_hash_inside(data@),
    ensures
        match res {
            Ok(header) => kgg_header(data@) == Ok::<(int, Seq<char>), Seq<char>>(
                (header.audio_offset as int, header.audio_hash@),
            ),
            Err(text) => kgg_header(data@) == Err::<(int, Seq<char>), Seq<char>>(text@),
        },
        res matches Ok(header) ==> {
            let hash = data@.subrange(0x48, kgg_hash_end(data@));
            valid_utf8(hash) ==> header.audio_hash@ == decode_utf8(hash)
        },
{
    if data.len() < 0x4c || !starts_with(data, &KGM_MAGIC) {
        return Err("invalid KGG file".to_string());
    }
    let audio_offset = le32(data, 0x10) as usize;
    let version = le32(data, 0x14);
    if version != 5 {
        let mut text = "unsupported crypto version ".to_string();
        push_decimal(&mut text, version as u64);
        return Err(text);
    }
    let hash_len = le32(data, 0x44) as usize;
    assert(0x48 + hash_len <= data.len());
    let audio_hash = utf8_lossy(&data[0x48..0x48 + hash_len]);
    Ok(KggHeader { audio_offset, audio_hash })
}

/// Finds the cipher for a KGG file, and the offset of its audio.
fn open_kgg(data: &[u8], keys: &KeyDatabase) -> (res: Result<(usize, QmcCipher), String>)
    requires
        kgg_hash_inside(data@),
    ensures
        match res {
            Ok((offset, cipher)) => {
                &&& kgg_stream_key(data@, *keys) is Ok
                &&& offset == le32_at(data@, 0x10)
                &&& cipher.usable()
                &&& forall|p: int| #[trigger]
                    cipher.mask_at(p) == key_mask(kgg_stream_key(data@, *keys)->Ok_0, p)
            },
            Err(text) => kgg_stream_key(data@, *keys) == Err::<Seq<u8>, Seq<char>>(text@),
        },
{
    let header = parse_kgg_header(data)?;
    match keys {
        KeyDatabase::Missing => Err("KuGou database not found".to_string()),
        KeyDatabase::Unreadable(text) => Err(text.clone()),
        KeyDatabase::Invalid(text) => Err(text.clone()),
        KeyDatabase::Keys(map) => match map.get(header.audio_hash.as_str()) {
            None => {
                let mut text = "ekey not found for hash ".to_string();
                text.append(header.audio_hash.as_str());
                Err(text)
            },
            Some(ekey) => {
                let key = derive_key(ekey.as_str())?;
                match QmcCipher::new(key) {
                    Some(cipher) => Ok((header.audio_offset, cipher)),
                    None => Err("cipher creation failed".to_string()),
                }
            },
        },
    }
}

/// Decodes a KGG file.
pub fn decrypt_kgg_bytes(file_data: &[u8], keys: &KeyDatabase) -> (res: Result<
    (Vec<u8>, String),
    String,
>)
    requires
        kgg_inside(file_data@, *keys),
    ensures
        file_outcome(res) == kgg_decoded(file_data@, *keys),
{
    let (offset, cipher) = open_kgg(file_data, keys)?;
    let mut audio = copy_range(file_data, offset, file_data.len());
    cipher.decrypt(audio.as_mut_slice(), 0);
    proof {
        let key = kgg_stream_key(file_data@, *keys)->Ok_0;
        assert(audio@ =~= kgg_audio(file_data@, key));
        crate::audio::lemma_bin_is_no_audio(audio@);
    }
    let ext = sniff_ext(audio.as_slice());
    if crate::text::same_text(ext, "bin") {
        return Err("unrecognized audio format".to_string());
    }
    Ok((audio, ext.to_string()))
}

/// Whether a KGG file holds what decoding looks at.
pub fn kgg_is_inside(file_data: &[u8], keys: &KeyDatabase) -> (inside: bool)
    ensures
        inside == kgg_inside(file_data@, *keys),
{
    if file_data.len() >= 0x4c && starts_with(file_data, &KGM_MAGIC) && le32(file_data, 0x14) == 5
        && le32(file_data, 0x44) as usize > file_data.len() - 0x48 {
        return false;
    }
    match open_kgg(file_data, keys) {
        Ok((offset, _)) => offset <= file_data.len(),
        Err(_) => true,
    }
}

/// A KGG file gives back the audio that was masked with the key that the database holds
/// for the hash in its header.
pub proof fn law_kgg_file_round_trip(
    header: Seq<u8>,
    audio: Seq<u8>,
    keys: KeyDatabase,
    key: Seq<u8>,
)
    requires
        ({
            let file = header + masked(audio, 0, |p: int| key_mask(key, p));
            &&& le32_at(file, 0x10) == header.len()
            &&& kgg_stream_key(file, keys) == Ok::<Seq<u8>, Seq<char>>(key)
        }),
        is_audio(audio),
    ensures
        kgg_decoded(header + masked(audio, 0, |p: int| key_mask(key, p)), keys) == Ok::<
            (Seq<u8>, Seq<char>),
            Seq<char>,
        >((audio, extension_of(audio))),
{
    let hidden = masked(audio, 0, |p: int| key_mask(key, p));
    let file = header + hidden;
    assert(file.subrange(header.len() as int, file.len() as int) =~= hidden);
    law_mask_reversible(audio, 0, |p: int| key_mask(key, p));
}

/// Without the key there is no audio: a KGG file is refused whenever the database is not
/// there, cannot be used, or does not hold its hash.
pub proof fn law_no_audio_without_key(data: Seq<u8>, keys: KeyDatabase)
    requires
        kgg_header(data) is Ok,
        keys matches KeyDatabase::Keys(map) ==> !map@.dom().contains(kgg_header(data)->Ok_0.1),
    ensures
        kgg_decoded(data, keys) is Err,
{
}

/// A KGG file decodes to the audio from its offset on, each byte combined with the mask of
/// the key at its distance from there. The offset is the number at 16; the key is the one
/// that the database holds for the hash at 72, all the bytes of it that the number at 68
/// counts.
pub proof fn law_kgg_file_decoded(
    data: Seq<u8>,
    map: crate::keys::EkeyMap,
    hash: Seq<char>,
    key: Seq<u8>,
)
    requires
        data.len() >= 76,
        data.subrange(0, 16) == seq![
            0x7cu8,
            0xd5,
            0x32,
            0xeb,
            0x86,
            0x02,
            0x7f,
            0x4b,
            0xa8,
            0xaf,
            0xa6,
            0x8e,
            0x0f,
            0xff,
            0x99,
            0x14,
        ],
        le32_at(data, 16) <= data.len(),
        le32_at(data, 20) == 5,
        72 + le32_at(data, 68) <= data.len(),
        text_read(data.subrange(72, 72 + le32_at(data, 68))) == hash,
        map@.dom().contains(hash),
        key_derived(encode_utf8(map@[hash])) == Ok::<Seq<u8>, Seq<char>>(key),
    ensures
        ({
            let start = le32_at(data, 16);
            let audio = Seq::new(
                (data.len() - start) as nat,
                |i: int| data[start + i] ^ key_mask(key, i),
            );
            kgg_decoded(data, KeyDatabase::Keys(map)) == (if is_audio(audio) {
                Ok::<(Seq<u8>, Seq<char>), Seq<char>>((audio, extension_of(audio)))
            } else {
                Err("unrecognized audio format"@)
            })
        }),
{
    assert(KGM_MAGIC@ =~= data.subrange(0, 16));
    crate::ekey::law_derived_key_not_empty(encode_utf8(map@[hash]));
    let start = le32_at(data, 16);
    let audio = Seq::new((data.len() - start) as nat, |i: int| data[start + i] ^ key_mask(key, i));
    assert(kgg_audio(data, key) =~= audio);
}

/// What is no KGG file, or one of another version, is refused before the database matters;
/// a KGG file is refused with the reason why there is no database, or with its hash if the
/// database does not hold it.
pub proof fn law_kgg_refused(data: Seq<u8>, keys: KeyDatabase)
    ensures
        data.len() < 76 || data.subrange(0, 16) != seq![
            0x7cu8,
            0xd5,
            0x32,
            0xeb,
            0x86,
            0x02,
            0x7f,
            0x4b,
            0xa8,
            0xaf,
            0xa6,
            0x8e,
            0x0f,
            0xff,
            0x99,
            0x14,
        ] ==> kgg_decoded(data, keys) == Err::<(Seq<u8>, Seq<char>), Seq<char>>("invalid KGG file"@),
        data.len() >= 76 && data.subrange(0, 16) == seq![
            0x7cu8,
            0xd5,
            0x32,
            0xeb,
            0x86,
            0x02,
            0x7f,
            0x4b,
            0xa8,
            0xaf,
            0xa6,
            0x8e,
            0x0f,
            0xff,
            0x99,
            0x14,
        ] ==> {
            let hash = text_read(data.subrange(72, 72 + le32_at(data, 68)));
            &&& le32_at(data, 20) != 5 ==> kgg_decoded(data, keys) == Err::<
                (Seq<u8>, Seq<char>),
                Seq<char>,
            >("unsupported crypto version "@ + decimal_text(le32_at(data, 20) as nat))
            &&& le32_at(data, 20) == 5 && keys is Missing ==> kgg_decoded(data, keys) == Err::<
                (Seq<u8>, Seq<char>),
                Seq<char>,
            >("KuGou database not found"@)
            &&& le32_at(data, 20) == 5 ==> (keys matches KeyDatabase::Unreadable(text)
                ==> kgg_decoded(data, keys) == Err::<(Seq<u8>, Seq<char>), Seq<char>>(text@))
            &&& le32_at(data, 20) == 5 ==> (keys matches KeyDatabase::Invalid(text)
                ==> kgg_decoded(data, keys) == Err::<(Seq<u8>, Seq<char>), Seq<char>>(text@))
            &&& le32_at(data, 20) == 5 ==> (keys matches KeyDatabase::Keys(map)
                ==> !map@.dom().contains(hash) ==> kgg_decoded(data, keys) == Err::<
                (Seq<u8>, Seq<char>),
                Seq<char>,
            >("ekey not found for hash "@ + hash))
        },
{
    assert(KGM_MAGIC@ =~= seq![
        0x7cu8,
        0xd5,
        0x32,
        0xeb,
        0x86,
        0x02,
        0x7f,
        0x4b,
        0xa8,
        0xaf,
        0xa6,
        0x8e,
        0x0f,
        0xff,
        0x99,
        0x14,
    ]);
}

/// What decoding looks at lies inside the file unless the hash of a KGG file of version 5
/// reaches past its end, or its audio, once there is a key, starts past it.
pub proof fn law_kgg_inside(data: Seq<u8>, keys: KeyDatabase)
    ensures
        data.len() < 76 ==> kgg_inside(data, keys),
        le32_at(data, 20) != 5 ==> kgg_inside(data, keys),
        72 + le32_at(data, 68) <= data.len() && le32_at(data, 16) <= data.len() ==> kgg_inside(
            data,
            keys,
        ),
        72 + le32_at(data, 68) <= data.len() && !(keys is Keys) ==> kgg_inside(data, keys),
{
}

} // verus!
