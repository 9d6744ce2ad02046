//! QMC files: audio masked with one of the QMC stream ciphers. What ends the file says
//! where the stream key is: in front of a tag, in front of its own length, or nowhere,
//! and then the cipher without a key applies.
use crate::audio::{extension_of, file_outcome, is_audio, no_audio, recognised, sniff_audio};
use crate::bytes::{
    be32, be32_at, be32_bytes, copy_range, ends_with, le32, le32_at, le32_bytes, lemma_be32_read,
    lemma_le32_read,
};
use crate::ekey::{derive_key, key_derived, law_derived_key_not_empty};
use crate::outside::utf8_str;
use crate::qmc::{key_mask, law_mask_reversible, masked, static_mask, QmcCipher};
use crate::text::{trim_trailing_nul, without_trailing_nul};
use vstd::prelude::*;
use vstd::utf8::{
    decode_first_scalar, decode_utf8, encode_utf8, pop_first_scalar, valid_first_scalar, valid_utf8,
};

verus! {

/// "musicex" and a zero, what ends files whose key has to be asked for over the network.
pub const MUSICEX_TAG: [u8; 8] = [0x6d, 0x75, 0x73, 0x69, 0x63, 0x65, 0x78, 0x00];

/// "STag", what ends files that carry no key.
pub const STAG: [u8; 4] = [0x53, 0x54, 0x61, 0x67];

/// "QTag", what ends files that carry a key in front of a comma.
pub const QTAG: [u8; 4] = [0x51, 0x54, 0x61, 0x67];

/// The bytes of a "musicex" footer.
pub const MUSICEX_FOOTER_LEN: u32 = 0xc0;

/// The comma that ends the key of a file with a "QTag".
pub const COMMA: u8 = 0x2c;

/// The longest key that a file without a tag may carry.
pub const LONGEST_TAIL_KEY: u32 = 0xffff;

/// Whether `data` ends in a "musicex" footer.
pub open spec fn has_musicex_footer(data: Seq<u8>) -> bool {
    data.len() >= 16 && MUSICEX_TAG@.is_suffix_of(data)
}

/// The complaint about a file with a "musicex" footer.
pub open spec fn musicex_complaint(data: Seq<u8>) -> Seq<char> {
    let footer_len = le32_at(data, data.len() - 16);
    if footer_len != MUSICEX_FOOTER_LEN || le32_at(data, data.len() - 12) != 1 || footer_len
        >= data.len() {
        "musicex 尾部版本或长度无效"@
    } else {
        "新版 musicex 文件需要 QQ 音乐会话取钥；当前 Tauri 版本暂不联网取钥"@
    }
}

/// The stream key in the text of a wrapped key; an empty one is refused with the given
/// complaint.
pub open spec fn stream_key(text: Seq<u8>, complaint: Seq<char>) -> Result<Seq<u8>, Seq<char>> {
    match key_derived(text) {
        Err(other) => Err(other),
        Ok(key) => if key.len() == 0 {
            Err(complaint)
        } else {
            Ok(key)
        },
    }
}

/// The stream key in what stands in front of a "QTag": a text up to the first comma.
#[verifier::opaque]
pub open spec fn qtag_key(raw: Seq<u8>) -> Result<Seq<u8>, Seq<char>> {
    match raw.index_of_first(COMMA) {
        None => Err("QTag ekey 不完整"@),
        Some(end) => if !valid_utf8(raw.subrange(0, end)) {
            Err("QTag ekey 不是文本"@)
        } else {
            stream_key(raw.subrange(0, end), "QTag ekey 无效"@)
        },
    }
}

/// Where the audio ends in a file with a "QTag", and its stream key.
pub open spec fn qtag_tail(data: Seq<u8>) -> Result<(int, Seq<u8>), Seq<char>> {
    if data.len() < 8 {
        Err("QTag 文件太短"@)
    } else {
        let end = data.len() - 8 - be32_at(data, data.len() - 8);
        if end < 0 {
            Err("QTag 密钥长度无效"@)
        } else {
            match qtag_key(data.subrange(end, data.len() - 8)) {
                Err(text) => Err(text),
                Ok(key) => Ok((end, key)),
            }
        }
    }
}

/// The stream key in what stands in front of its own length: a text, which NUL characters
/// may follow.
#[verifier::opaque]
pub open spec fn tail_key(raw: Seq<u8>) -> Result<Seq<u8>, Seq<char>> {
    if !valid_utf8(raw) {
        Err("QMC ekey 不是文本"@)
    } else {
        stream_key(encode_utf8(without_trailing_nul(decode_utf8(raw))), "QMC ekey 无效"@)
    }
}

/// Whether the last four bytes of a file without a tag are the length of a key.
pub open spec fn has_tail_key(data: Seq<u8>) -> bool {
    0 < le32_at(data, data.len() - 4) <= LONGEST_TAIL_KEY
}

/// Where the audio ends in a file without a tag that carries a key, and that key.
pub open spec fn untagged_tail(data: Seq<u8>) -> Result<(int, Seq<u8>), Seq<char>> {
    let end = data.len() - 4 - le32_at(data, data.len() - 4);
    if end < 0 {
        Err("QMC 密钥长度无效"@)
    } else {
        match tail_key(data.subrange(end, data.len() - 4)) {
            Err(text) => Err(text),
            Ok(key) => Ok((end, key)),
        }
    }
}

/// The audio of a QMC file.
pub open spec fn qmc_audio(data: Seq<u8>) -> Result<Seq<u8>, Seq<char>> {
    if data.len() < 4 {
        Err("QMC 文件太短"@)
    } else if has_musicex_footer(data) {
        Err(musicex_complaint(data))
    } else if STAG@.is_suffix_of(data) {
        Err("STag 文件不包含可离线使用的密钥"@)
    } else if QTAG@.is_suffix_of(data) || has_tail_key(data) {
        match (if QTAG@.is_suffix_of(data) {
            qtag_tail(data)
        } else {
            untagged_tail(data)
        }) {
            Err(text) => Err(text),
            Ok((end, key)) => Ok(masked(data.subrange(0, end), 0, |p: int| key_mask(key, p))),
        }
    } else {
        Ok(masked(data, 0, |p: int| static_mask(p)))
    }
}

/// A QMC file decoded.
pub open spec fn qmc_decoded(data: Seq<u8>) -> Result<(Seq<u8>, Seq<char>), Seq<char>> {
    match qmc_audio(data) {
        Err(text) => Err(text),
        Ok(audio) => recognised(audio, no_audio()),
    }
}

/// The cipher for the text of a wrapped key.
fn cipher_for(text: &str, complaint: &str) -> (res: Result<QmcCipher, String>)
    ensures
        match res {
            Ok(cipher) => {
                let key = stream_key(encode_utf8(text@), complaint@);
                &&& key is Ok
                &&& cipher.usable()
                &&& forall|p: int| #[trigger] cipher.mask_at(p) == key_mask(key->Ok_0, p)
            },
            Err(other) => stream_key(encode_utf8(text@), complaint@) == Err::<
                Seq<u8>,
                Seq<char>,
            >(other@),
        },
{
    let key = derive_key(text)?;
    match QmcCipher::new(key) {
        Some(cipher) => Ok(cipher),
        None => Err(complaint.to_string()),
    }
}

/// Where the first comma stands.
fn find_comma(raw: &[u8]) -> (at: Option<usize>)
    ensures
        match at {
            Some(i) => raw@.index_of_first(COMMA) == Some(i as int),
            None => raw@.index_of_first(COMMA) is None,
        },
{
    proof {
        raw@.index_of_first_ensures(COMMA);
    }
    for i in 0..raw.len()
        invariant
            forall|k: int| 0 <= k < i ==> #[trigger] raw@[k] != COMMA,
            match raw@.index_of_first(COMMA) {
                Some(index) => {
                    &&& 0 <= index < raw@.len()
                    &&& raw@[index] == COMMA
                    &&& forall|j: int| 0 <= j < index < raw@.len() ==> raw@[j] != COMMA
                },
                None => !raw@.contains(COMMA),
            },
    {
        if raw[i] == COMMA {
            assert(raw@.contains(raw@[i as int]));
            return Some(i);
        }
    }
    None
}

/// The cipher for what stands in front of a "QTag".
fn open_qtag(raw: &[u8]) -> (res: Result<QmcCipher, String>)
    ensures
        match res {
            Ok(cipher) => {
                &&& qtag_key(raw@) is Ok
                &&& cipher.usable()
                &&& forall|p: int| #[trigger] cipher.mask_at(p) == key_mask(qtag_key(raw@)->Ok_0, p)
            },
            Err(text) => qtag_key(raw@) == Err::<Seq<u8>, Seq<char>>(text@),
        },
{
    proof {
        reveal(qtag_key);
        raw@.index_of_first_ensures(COMMA);
    }
    match find_comma(raw) {
        None => Err("QTag ekey 不完整".to_string()),
        Some(end) => match utf8_str(&raw[0..end]) {
            None => Err("QTag ekey 不是文本".to_string()),
            Some(text) => {
                proof {
                    vstd::utf8::decode_utf8_encode_utf8(raw@.subrange(0, end as int));
                }
                cipher_for(text, "QTag ekey 无效")
            },
        },
    }
}

/// The cipher for what stands in front of its own length.
fn open_tail(raw: &[u8]) -> (res: Result<QmcCipher, String>)
    ensures
        match res {
            Ok(cipher) => {
                &&& tail_key(raw@) is Ok
                &&& cipher.usable()
                &&& forall|p: int| #[trigger] cipher.mask_at(p) == key_mask(tail_key(raw@)->Ok_0, p)
            },
            Err(text) => tail_key(raw@) == Err::<Seq<u8>, Seq<char>>(text@),
        },
{
    proof {
        reveal(tail_key);
    }
    match utf8_str(raw) {
        None => Err("QMC ekey 不是文本".to_string()),
        Some(text) => cipher_for(trim_trailing_nul(text).as_str(), "QMC ekey 无效"),
    }
}

/// Decodes a QMC file.
pub fn decrypt_qmc(data: &[u8]) -> (res: Result<(Vec<u8>, String), String>)
    ensures
        file_outcome(res) == qmc_decoded(data@),
{
    let len = data.len();
    if len < 4 {
        return Err("QMC 文件太短".to_string());
    }
    if len >= 16 && ends_with(data, &MUSICEX_TAG) {
        let footer_len = le32(data, len - 16);
        let version = le32(data, len - 12);
        if footer_len != MUSICEX_FOOTER_LEN || version != 1 || footer_len as usize >= len {
            return Err("musicex 尾部版本或长度无效".to_string());
        }
        return Err(
            "新版 musicex 文件需要 QQ 音乐会话取钥；当前 Tauri 版本暂不联网取钥".to_string(),
        );
    }
    if ends_with(data, &STAG) {
        return Err("STag 文件不包含可离线使用的密钥".to_string());
    }
    let audio_len: usize;
    let cipher: QmcCipher;
    if ends_with(data, &QTAG) {
        if len < 8 {
            return Err("QTag 文件太短".to_string());
        }
        let key_len = be32(data, len - 8) as usize;
        if key_len > len - 8 {
            return Err("QTag 密钥长度无效".to_string());
        }
        audio_len = len - 8 - key_len;
        cipher = open_qtag(&data[audio_len..len - 8])?;
    } else {
        let key_len = le32(data, len - 4);
        if key_len > 0 && key_len <= LONGEST_TAIL_KEY {
            if key_len as usize > len - 4 {
                return Err("QMC 密钥长度无效".to_string());
            }
            audio_len = len - 4 - key_len as usize;
            cipher = open_tail(&data[audio_len..len - 4])?;
        } else {
            audio_len = len;
            cipher = QmcCipher::static_cipher();
        }
    }
    let mut audio = copy_range(data, 0, audio_len);
    cipher.decrypt(audio.as_mut_slice(), 0);
    assert(qmc_audio(data@) is Ok);
    assert(audio@ =~= qmc_audio(data@)->Ok_0);
    let format = sniff_audio(audio.as_slice())?;
    Ok((audio, format))
}

/// Whether the end of `data` points to no key: there is no tag, and the last four bytes
/// are not the length of a key.
pub open spec fn carries_no_key(data: Seq<u8>) -> bool {
    &&& data.len() >= 4
    &&& !has_musicex_footer(data)
    &&& !STAG@.is_suffix_of(data)
    &&& !QTAG@.is_suffix_of(data)
    &&& !has_tail_key(data)
}

/// A file that carries no key gives back the audio that the cipher without a key masked.
pub proof fn law_static_file_round_trip(audio: Seq<u8>)
    requires
        is_audio(audio),
        carries_no_key(masked(audio, 0, |p: int| static_mask(p))),
    ensures
        qmc_decoded(masked(audio, 0, |p: int| static_mask(p))) == Ok::<
            (Seq<u8>, Seq<char>),
            Seq<char>,
        >((audio, extension_of(audio))),
{
    law_mask_reversible(audio, 0, |p: int| static_mask(p));
}

/// `n` zero bytes.
pub open spec fn zeros(n: nat) -> Seq<u8> {
    Seq::new(n, |i: int| 0u8)
}

/// `n` NUL characters.
pub open spec fn nuls(n: nat) -> Seq<char> {
    Seq::new(n, |i: int| '\0')
}

proof fn lemma_nul_dropped(text: Seq<char>, n: nat)
    ensures
        without_trailing_nul(text + nuls(n)) == without_trailing_nul(text),
    decreases n,
{
    let long = text + nuls(n);
    if n > 0 {
        assert(long.drop_last() =~= text + nuls((n - 1) as nat));
        lemma_nul_dropped(text, (n - 1) as nat);
    } else {
        assert(long =~= text);
    }
}

proof fn lemma_zeros_are_nuls(n: nat)
    ensures
        valid_utf8(zeros(n)),
        decode_utf8(zeros(n)) == nuls(n),
    decreases n,
{
    if n > 0 {
        let bytes = zeros(n);
        let rest = zeros((n - 1) as nat);
        lemma_zeros_are_nuls((n - 1) as nat);
        assert(0u8 & 0x7f == 0) by (bit_vector);
        assert(bytes[0] == 0);
        assert(pop_first_scalar(bytes) =~= rest);
        assert(decode_first_scalar(bytes) as char == '\0');
        assert(nuls(n) =~= seq!['\0'] + nuls((n - 1) as nat));
    } else {
        assert(nuls(0) =~= Seq::<char>::empty());
    }
}

/// Zero bytes behind a text are NUL characters, and turn no other bytes into a text.
proof fn lemma_zeros_behind(bytes: Seq<u8>, n: nat)
    ensures
        valid_utf8(bytes + zeros(n)) <==> valid_utf8(bytes),
        valid_utf8(bytes) ==> decode_utf8(bytes + zeros(n)) == decode_utf8(bytes) + nuls(n),
    decreases bytes.len(),
{
    let long = bytes + zeros(n);
    if bytes.len() == 0 {
        lemma_zeros_are_nuls(n);
        assert(long =~= zeros(n));
        assert(decode_utf8(bytes) + nuls(n) =~= nuls(n));
    } else {
        assert(long[0] == bytes[0]);
        assert(forall|i: int| 0 <= i < bytes.len() ==> long[i] == bytes[i]);
        assert(forall|i: int| bytes.len() <= i < long.len() ==> long[i] == 0);
        assert(valid_first_scalar(long) <==> valid_first_scalar(bytes));
        if valid_first_scalar(bytes) {
            let rest = pop_first_scalar(bytes);
            assert(pop_first_scalar(long) =~= rest + zeros(n));
            lemma_zeros_behind(rest, n);
            if valid_utf8(bytes) {
                assert(decode_utf8(long) =~= decode_utf8(bytes) + nuls(n));
            }
        }
    }
}

/// A text whose last byte is not zero does not end in NUL.
proof fn lemma_last_char(bytes: Seq<u8>)
    requires
        valid_utf8(bytes),
        bytes.len() > 0,
        bytes.last() != 0,
    ensures
        without_trailing_nul(decode_utf8(bytes)) == decode_utf8(bytes),
{
    let text = decode_utf8(bytes);
    if text.len() > 0 && text.last() == '\0' {
        let front = text.drop_last();
        let coded = encode_utf8(front);
        let long = coded + zeros(1);
        vstd::utf8::encode_utf8_valid_utf8(front);
        vstd::utf8::encode_utf8_decode_utf8(front);
        lemma_zeros_behind(coded, 1);
        assert(front + nuls(1) =~= text);
        vstd::utf8::decode_utf8_encode_utf8(long);
        vstd::utf8::decode_utf8_encode_utf8(bytes);
        assert(long == bytes);
        assert(long.last() == 0);
    }
}

/// The last byte tells what a file does not end in.
proof fn lemma_last_byte(file: Seq<u8>, tail: Seq<u8>)
    requires
        file.len() > 0,
        tail.len() > 0,
        tail.is_suffix_of(file),
    ensures
        file.last() == tail.last(),
{
    let end = file.subrange(file.len() - tail.len(), file.len() as int);
    assert(end[tail.len() - 1] == file.last());
}

/// What a file without a tag ends in: a key field and its length.
pub open spec fn with_length(field: Seq<u8>) -> Seq<u8> {
    field + le32_bytes(field.len() as u32)
}

/// What a file with a "QTag" ends in: a key field, its length and the tag.
pub open spec fn with_qtag(field: Seq<u8>) -> Seq<u8> {
    field + be32_bytes(field.len() as u32) + QTAG@
}

/// Audio unmasked with a key, if there is one.
spec fn opened_with(hidden: Seq<u8>, key: Result<Seq<u8>, Seq<char>>) -> Result<
    Seq<u8>,
    Seq<char>,
> {
    match key {
        Err(text) => Err(text),
        Ok(key) => Ok(masked(hidden, 0, |p: int| key_mask(key, p))),
    }
}

proof fn lemma_tail_read(hidden: Seq<u8>, field: Seq<u8>)
    requires
        0 < field.len() <= LONGEST_TAIL_KEY,
    ensures
        qmc_audio(hidden + with_length(field)) == opened_with(hidden, tail_key(field)),
{
    let size = le32_bytes(field.len() as u32);
    let file = hidden + (field + size);
    let n = file.len() as int;
    assert(le32_at(file, n - 4) == field.len()) by {
        assert(file.subrange(n - 4, n) =~= size);
        lemma_le32_read(file, n - 4, field.len() as u32);
    }
    assert(file.last() == 0 && file[n - 2] == 0) by {
        assert(file.last() == size[3] && file[n - 2] == size[2]);
    }
    assert(!has_musicex_footer(file)) by {
        if has_musicex_footer(file) {
            let end = file.subrange(n - 8, n);
            assert(end[6] == file[n - 2]);
            assert(MUSICEX_TAG@[6] == 0x78);
        }
    }
    assert(!STAG@.is_suffix_of(file) && !QTAG@.is_suffix_of(file)) by {
        if STAG@.is_suffix_of(file) {
            lemma_last_byte(file, STAG@);
        }
        if QTAG@.is_suffix_of(file) {
            lemma_last_byte(file, QTAG@);
        }
    }
    assert(file.subrange(hidden.len() as int, n - 4) =~= field);
    assert(file.subrange(0, hidden.len() as int) =~= hidden);
}

proof fn lemma_qtag_read(hidden: Seq<u8>, field: Seq<u8>)
    requires
        field.len() <= u32::MAX,
    ensures
        qmc_audio(hidden + with_qtag(field)) == opened_with(hidden, qtag_key(field)),
{
    let size = be32_bytes(field.len() as u32);
    let file = hidden + (field + size + QTAG@);
    let n = file.len() as int;
    assert(QTAG@.is_suffix_of(file)) by {
        assert(file.subrange(n - 4, n) =~= QTAG@);
    }
    assert(!has_musicex_footer(file)) by {
        lemma_last_byte(file, QTAG@);
        if has_musicex_footer(file) {
            lemma_last_byte(file, MUSICEX_TAG@);
        }
    }
    assert(!STAG@.is_suffix_of(file)) by {
        if STAG@.is_suffix_of(file) {
            let end = file.subrange(n - 4, n);
            assert(end[0] == STAG@[0] && end[0] == QTAG@[0]);
        }
    }
    assert(be32_at(file, n - 8) == field.len()) by {
        assert(file.subrange(n - 8, n - 4) =~= size);
        lemma_be32_read(file, n - 8, field.len() as u32);
    }
    assert(file.subrange(hidden.len() as int, n - 8) =~= field);
    assert(file.subrange(0, hidden.len() as int) =~= hidden);
}

/// A file without a tag gives back the audio that was masked with the key in its tail,
/// however many zeros pad the text of that key.
pub proof fn law_tail_file_round_trip(audio: Seq<u8>, text: Seq<u8>, n: nat, key: Seq<u8>)
    requires
        is_audio(audio),
        valid_utf8(text),
        text.len() > 0 ==> text.last() != 0,
        text.len() + n <= LONGEST_TAIL_KEY,
        key_derived(text) == Ok::<Seq<u8>, Seq<char>>(key),
    ensures
        qmc_decoded(
            masked(audio, 0, |p: int| key_mask(key, p)) + with_length(text + zeros(n)),
        ) == Ok::<(Seq<u8>, Seq<char>), Seq<char>>((audio, extension_of(audio))),
{
    let hidden = masked(audio, 0, |p: int| key_mask(key, p));
    law_derived_key_not_empty(text);
    law_padding_is_ignored(hidden, text, n);
    assert(tail_key(text) == Ok::<Seq<u8>, Seq<char>>(key)) by {
        lemma_plain_tail_key(text);
    }
    lemma_tail_read(hidden, text);
    law_mask_reversible(audio, 0, |p: int| key_mask(key, p));
}

/// The key field of a text that does not end in NUL holds the key of that text.
proof fn lemma_plain_tail_key(text: Seq<u8>)
    requires
        valid_utf8(text),
        text.len() > 0,
        text.last() != 0,
    ensures
        tail_key(text) == key_derived(text),
{
    reveal(tail_key);
    lemma_last_char(text);
    vstd::utf8::decode_utf8_encode_utf8(text);
    if key_derived(text) is Ok {
        law_derived_key_not_empty(text);
    }
}

/// Zeros behind the key field of a file without a tag change nothing: neither the audio nor
/// its extension nor the complaint, whatever the field holds.
pub proof fn law_padding_is_ignored(front: Seq<u8>, field: Seq<u8>, n: nat)
    requires
        field.len() > 0,
        field.len() + n <= LONGEST_TAIL_KEY,
    ensures
        qmc_decoded(front + with_length(field + zeros(n))) == qmc_decoded(
            front + with_length(field),
        ),
{
    let padded = field + zeros(n);
    assert(tail_key(padded) == tail_key(field)) by {
        reveal(tail_key);
        lemma_zeros_behind(field, n);
        if valid_utf8(field) {
            lemma_nul_dropped(decode_utf8(field), n);
        }
    }
    lemma_tail_read(front, padded);
    lemma_tail_read(front, field);
}

/// In front of a "QTag" the text up to the first comma holds the key.
proof fn lemma_qtag_key(text: Seq<u8>, rest: Seq<u8>)
    requires
        valid_utf8(text),
        !text.contains(COMMA),
    ensures
        qtag_key(text + seq![COMMA] + rest) == key_derived(text),
{
    reveal(qtag_key);
    let field = text + seq![COMMA] + rest;
    field.index_of_first_ensures(COMMA);
    assert(field[text.len() as int] == COMMA);
    assert(field.contains(COMMA));
    let end = field.index_of_first(COMMA)->Some_0;
    if end < text.len() {
        assert(text[end] == COMMA);
    }
    assert(field.subrange(0, end) =~= text);
    if key_derived(text) is Ok {
        law_derived_key_not_empty(text);
    }
}

/// A file with a "QTag" gives back the audio that was masked with the key in front of the
/// comma, whatever follows the comma.
pub proof fn law_qtag_file_round_trip(audio: Seq<u8>, text: Seq<u8>, rest: Seq<u8>, key: Seq<u8>)
    requires
        is_audio(audio),
        valid_utf8(text),
        !text.contains(COMMA),
        text.len() + 1 + rest.len() <= u32::MAX,
        key_derived(text) == Ok::<Seq<u8>, Seq<char>>(key),
    ensures
        qmc_decoded(
            masked(audio, 0, |p: int| key_mask(key, p)) + with_qtag(text + seq![COMMA] + rest),
        ) == Ok::<(Seq<u8>, Seq<char>), Seq<char>>((audio, extension_of(audio))),
{
    let hidden = masked(audio, 0, |p: int| key_mask(key, p));
    lemma_qtag_key(text, rest);
    lemma_qtag_read(hidden, text + seq![COMMA] + rest);
    law_mask_reversible(audio, 0, |p: int| key_mask(key, p));
}

/// A key may stand in front of a "QTag" or in the tail of a file without a tag: the two
/// files decode alike, or are refused with the same complaint, whatever follows the comma.
pub proof fn law_qtag_and_tail_agree(front: Seq<u8>, text: Seq<u8>, rest: Seq<u8>)
    requires
        valid_utf8(text),
        !text.contains(COMMA),
        0 < text.len() <= LONGEST_TAIL_KEY,
        text.last() != 0,
        text.len() + 1 + rest.len() <= u32::MAX,
    ensures
        qmc_decoded(front + with_qtag(text + seq![COMMA] + rest)) == qmc_decoded(
            front + with_length(text),
        ),
{
    lemma_qtag_key(text, rest);
    lemma_plain_tail_key(text);
    lemma_qtag_read(front, text + seq![COMMA] + rest);
    lemma_tail_read(front, text);
}

/// Which ending a file has, told by its last bytes: "musicex" and a zero behind eight bytes
/// of numbers, "STag", "QTag", or a length from 1 to 65535, of which the two high bytes are
/// zero and the two low ones are not both.
pub proof fn law_endings_told(data: Seq<u8>)
    requires
        data.len() >= 4,
    ensures
        ({
            let n = data.len() as int;
            &&& has_tail_key(data) <==> data[n - 1] == 0 && data[n - 2] == 0 && (data[n - 3] != 0
                || data[n - 4] != 0)
            &&& STAG@.is_suffix_of(data) <==> data[n - 4] == 0x53 && data[n - 3] == 0x54 && data[n
                - 2] == 0x61 && data[n - 1] == 0x67
            &&& QTAG@.is_suffix_of(data) <==> data[n - 4] == 0x51 && data[n - 3] == 0x54 && data[n
                - 2] == 0x61 && data[n - 1] == 0x67
            &&& has_musicex_footer(data) <==> n >= 16 && data[n - 8] == 0x6d && data[n - 7] == 0x75
                && data[n - 6] == 0x73 && data[n - 5] == 0x69 && data[n - 4] == 0x63 && data[n - 3]
                == 0x65 && data[n - 2] == 0x78 && data[n - 1] == 0
        }),
{
    let n = data.len() as int;
    crate::bytes::law_le32_digits(data, n - 4);
    lemma_suffix_bytes(STAG@, data);
    lemma_suffix_bytes(QTAG@, data);
    lemma_suffix_bytes(MUSICEX_TAG@, data);
}

proof fn lemma_suffix_bytes(tail: Seq<u8>, data: Seq<u8>)
    ensures
        tail.is_suffix_of(data) <==> tail.len() <= data.len() && forall|i: int|
            0 <= i < tail.len() ==> #[trigger] tail[i] == data[data.len() - tail.len() + i],
{
    if tail.len() <= data.len() {
        let from = data.len() - tail.len();
        let end = data.subrange(from, data.len() as int);
        assert(forall|i: int| 0 <= i < tail.len() ==> #[trigger] end[i] == data[from + i]);
        if forall|i: int| 0 <= i < tail.len() ==> #[trigger] tail[i] == data[from + i] {
            assert(tail =~= end);
        }
        if tail.is_suffix_of(data) {
            assert(tail == end);
        }
    }
}

/// Files without a key that could be used offline are refused: too short ones, those with
/// an "STag", and those with a "musicex" footer, whose numbers decide only the complaint:
/// 192, one, and a file longer than the footer make it a whole one.
pub proof fn law_qmc_refused(data: Seq<u8>)
    ensures
        data.len() < 4 ==> qmc_decoded(data) == Err::<(Seq<u8>, Seq<char>), Seq<char>>(
            "QMC 文件太短"@,
        ),
        data.len() >= 4 && !has_musicex_footer(data) && STAG@.is_suffix_of(data) ==> qmc_decoded(
            data,
        ) == Err::<(Seq<u8>, Seq<char>), Seq<char>>(
            "STag 文件不包含可离线使用的密钥"@,
        ),
        has_musicex_footer(data) ==> {
            let n = data.len() as int;
            let whole = n > 192 && data[n - 16] == 192 && data[n - 15] == 0 && data[n - 14] == 0
                && data[n - 13] == 0 && data[n - 12] == 1 && data[n - 11] == 0 && data[n - 10] == 0
                && data[n - 9] == 0;
            qmc_decoded(data) == Err::<(Seq<u8>, Seq<char>), Seq<char>>(
                if whole {
                    "新版 musicex 文件需要 QQ 音乐会话取钥；当前 Tauri 版本暂不联网取钥"@
                } else {
                    "musicex 尾部版本或长度无效"@
                },
            )
        },
{
    if has_musicex_footer(data) {
        let n = data.len() as int;
        crate::bytes::law_le32_digits(data, n - 16);
        crate::bytes::law_le32_digits(data, n - 12);
    }
}

/// A file without a tag and without a length at its end is masked from its first byte to its
/// last with the cipher without a key.
pub proof fn law_static_file_decoded(data: Seq<u8>)
    requires
        carries_no_key(data),
    ensures
        ({
            let audio = Seq::new(data.len(), |i: int| data[i] ^ static_mask(i));
            qmc_decoded(data) == (if is_audio(audio) {
                Ok::<(Seq<u8>, Seq<char>), Seq<char>>((audio, extension_of(audio)))
            } else {
                Err("解密后无法识别音频格式"@)
            })
        }),
{
    let audio = Seq::new(data.len(), |i: int| data[i] ^ static_mask(i));
    assert(masked(data, 0, |p: int| static_mask(p)) =~= audio);
}

/// A file with a key in front of its length, or in front of a "QTag", is masked with that key
/// from its first byte up to the key field, and a key field that gives no key is answered
/// with the complaint about it.
pub proof fn law_keyed_file_decoded(front: Seq<u8>, text: Seq<u8>, rest: Seq<u8>)
    requires
        valid_utf8(text),
        !text.contains(COMMA),
        0 < text.len() <= 65535,
        text.last() != 0,
        text.len() + 1 + rest.len() <= u32::MAX,
    ensures
        ({
            let untagged = qmc_decoded(front + (text + le32_bytes(text.len() as u32)));
            let field = text + seq![0x2cu8] + rest;
            let tagged = qmc_decoded(
                front + (field + be32_bytes(field.len() as u32) + seq![0x51u8, 0x54, 0x61, 0x67]),
            );
            let expected = match key_derived(text) {
                Err(complaint) => Err::<(Seq<u8>, Seq<char>), Seq<char>>(complaint),
                Ok(key) => {
                    let audio = Seq::new(front.len(), |i: int| front[i] ^ key_mask(key, i));
                    if is_audio(audio) {
                        Ok((audio, extension_of(audio)))
                    } else {
                        Err("解密后无法识别音频格式"@)
                    }
                },
            };
            &&& untagged == expected
            &&& tagged == expected
        }),
{
    assert(QTAG@ =~= seq![0x51u8, 0x54, 0x61, 0x67]);
    lemma_plain_tail_key(text);
    lemma_tail_read(front, text);
    law_qtag_and_tail_agree(front, text, rest);
    if key_derived(text) is Ok {
        let key = key_derived(text)->Ok_0;
        let audio = Seq::new(front.len(), |i: int| front[i] ^ key_mask(key, i));
        assert(masked(front, 0, |p: int| key_mask(key, p)) =~= audio);
    }
}

/// Key fields that hold no key: a length that reaches past the start of the file, bytes that
/// are no text, and in front of a "QTag" no comma.
pub proof fn law_key_fields_refused(front: Seq<u8>, field: Seq<u8>)
    requires
        0 < field.len() <= 65535,
    ensures
        !valid_utf8(field) ==> qmc_decoded(front + with_length(field)) == Err::<
            (Seq<u8>, Seq<char>),
            Seq<char>,
        >("QMC ekey 不是文本"@),
        !field.contains(0x2cu8) ==> qmc_decoded(front + with_qtag(field)) == Err::<
            (Seq<u8>, Seq<char>),
            Seq<char>,
        >("QTag ekey 不完整"@),
{
    lemma_tail_read(front, field);
    lemma_qtag_read(front, field);
    reveal(tail_key);
    reveal(qtag_key);
    field.index_of_first_ensures(COMMA);
}

/// A length that reaches past the start of the file is refused, whatever else the file holds.
pub proof fn law_key_length_refused(data: Seq<u8>)
    requires
        data.len() >= 4,
        !has_musicex_footer(data),
        !STAG@.is_suffix_of(data),
    ensures
        QTAG@.is_suffix_of(data) && data.len() < 8 ==> qmc_decoded(data) == Err::<
            (Seq<u8>, Seq<char>),
            Seq<char>,
        >("QTag 文件太短"@),
        QTAG@.is_suffix_of(data) && data.len() >= 8 && be32_at(data, data.len() - 8) > data.len()
            - 8 ==> qmc_decoded(data) == Err::<(Seq<u8>, Seq<char>), Seq<char>>(
            "QTag 密钥长度无效"@,
        ),
        !QTAG@.is_suffix_of(data) && 0 < le32_at(data, data.len() - 4) <= 65535 && le32_at(
            data,
            data.len() - 4,
        ) > data.len() - 4 ==> qmc_decoded(data) == Err::<(Seq<u8>, Seq<char>), Seq<char>>(
            "QMC 密钥长度无效"@,
        ),
{
}

} // verus!
