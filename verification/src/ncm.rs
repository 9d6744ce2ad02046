//! NCM files. An encrypted key block, metadata and a cover frame precede the audio, which
//! is masked with a 256-byte pattern made from the key.
use crate::audio::{
    extension_of, file_outcome, is_audio, law_four_bytes_tell, no_audio, recognised, sniff_audio,
};
use crate::bytes::{
    append, bytes_outcome, copy_range, le32_at, le32_bytes, lemma_le32_read, read_u32_le, starts_with,
    u32_le_read,
};
use crate::outside::{aes128_decrypt_block, aes128_decrypted};
use crate::qmc::swapped;
use vstd::prelude::*;

verus! {

/// "CTENFDAM", what NCM files begin with.
pub const NCM_MAGIC: [u8; 8] = [0x43, 0x54, 0x45, 0x4e, 0x46, 0x44, 0x41, 0x4d];

/// The key that key blocks are encrypted with.
pub const NCM_CORE_KEY: [u8; 16] = [
    0x68, 0x7a, 0x48, 0x52, 0x41, 0x6d, 0x73, 0x6f, 0x35, 0x6b, 0x49, 0x6e, 0x62, 0x61, 0x78, 0x57,
];

/// What each byte of a key block is combined with before it is decrypted.
pub const KEY_BLOCK_MASK: u8 = 0x64;

/// Bytes of a decrypted key block in front of the key itself.
pub const KEY_LABEL_LEN: usize = 17;

/// Whole blocks decrypted one by one.
pub open spec fn ecb_decrypted(data: Seq<u8>, key: Seq<u8>) -> Seq<u8> {
    Seq::new(
        data.len(),
        |i: int| aes128_decrypted(data.subrange(i / 16 * 16, i / 16 * 16 + 16), key)[i % 16],
    )
}

/// What `aes_ecb_decrypt` gives: it takes one or more whole blocks.
pub open spec fn ecb_opened(data: Seq<u8>, key: Seq<u8>) -> Result<Seq<u8>, Seq<char>> {
    if data.len() == 0 || data.len() % 16 != 0 {
        Err("AES-ECB 数据长度无效"@)
    } else {
        Ok(ecb_decrypted(data, key))
    }
}

/// `data` with `n` bytes of value `n` behind it.
pub open spec fn padded(data: Seq<u8>, n: nat) -> Seq<u8> {
    data + Seq::new(n, |i: int| n as u8)
}

/// Whether `data` ends in PKCS#7 padding of `n` bytes.
pub open spec fn ends_in_padding(data: Seq<u8>, n: int) -> bool {
    &&& 1 <= n <= 16
    &&& n <= data.len()
    &&& forall|i: int| data.len() - n <= i < data.len() ==> #[trigger] data[i] == n
}

/// `data` without its PKCS#7 padding, whose length the last byte gives.
pub open spec fn unpadded(data: Seq<u8>) -> Result<Seq<u8>, Seq<char>> {
    if data.len() == 0 {
        Err("PKCS#7 数据为空"@)
    } else if !ends_in_padding(data, data.last() as int) {
        Err("PKCS#7 填充无效"@)
    } else {
        Ok(data.subrange(0, data.len() - data.last()))
    }
}

/// The first `steps` steps of the key schedule: the table and the index that the last
/// step exchanged with.
pub open spec fn box_schedule(key: Seq<u8>, steps: nat) -> (Seq<u8>, int)
    decreases steps,
{
    if steps == 0 {
        (Seq::new(256, |i: int| i as u8), 0)
    } else {
        let i = steps - 1;
        let (table, last) = box_schedule(key, i as nat);
        let j = (last + table[i] + key[i % (key.len() as int)]) % 256;
        (swapped(table, i, j), j)
    }
}

/// The pattern of a key.
pub open spec fn key_box(key: Seq<u8>) -> Seq<u8> {
    let table = box_schedule(key, 256).0;
    Seq::new(
        256,
        |i: int|
            {
                let a = table[(i + 1) % 256];
                let b = table[(i + 1 + a) % 256];
                table[(a + b) % 256]
            },
    )
}

/// Audio masked with the pattern of a key; masking and unmasking are the same.
pub open spec fn ncm_masked(audio: Seq<u8>, key: Seq<u8>) -> Seq<u8> {
    Seq::new(audio.len(), |i: int| audio[i] ^ key_box(key)[i % 256])
}

/// The key inside a key block.
#[verifier::opaque]
pub open spec fn key_in_block(block: Seq<u8>) -> Result<Seq<u8>, Seq<char>> {
    match ecb_opened(Seq::new(block.len(), |i: int| block[i] ^ KEY_BLOCK_MASK), NCM_CORE_KEY@) {
        Err(text) => Err(text),
        Ok(plain) => match unpadded(plain) {
            Err(text) => Err(text),
            Ok(content) => if content.len() <= KEY_LABEL_LEN {
                Err("NCM 音频密钥无效"@)
            } else {
                Ok(content.subrange(KEY_LABEL_LEN as int, content.len() as int))
            },
        },
    }
}

/// Where the key block ends, which starts behind its length at index 10.
pub open spec fn key_block_end(data: Seq<u8>) -> Result<int, Seq<char>> {
    match u32_le_read(data, 10) {
        Err(text) => Err(text),
        Ok(size) => if 14 + size > usize::MAX {
            Err("NCM key 长度溢出"@)
        } else if 14 + size > data.len() || size == 0 {
            Err("NCM key 数据不完整"@)
        } else {
            Ok(14 + size)
        },
    }
}

/// Where the metadata end that follow the key block, their length in front of them.
pub open spec fn metadata_end(data: Seq<u8>, from: int) -> Result<int, Seq<char>> {
    match u32_le_read(data, from) {
        Err(text) => Err(text),
        Ok(size) => if from + 4 + size > usize::MAX {
            Err("NCM 元数据长度溢出"@)
        } else if from + 4 + size > data.len() {
            Err("NCM 元数据不完整"@)
        } else {
            Ok(from + 4 + size)
        },
    }
}

/// Where the audio starts: behind the metadata come five bytes and the cover frame, whose
/// length counts what lies between its own four bytes and the four that close it.
pub open spec fn audio_start(data: Seq<u8>, from: int) -> Result<int, Seq<char>> {
    if from + 5 > usize::MAX {
        Err("NCM 封面帧偏移溢出"@)
    } else {
        match u32_le_read(data, from + 5) {
            Err(text) => Err(text),
            Ok(size) => if from + 13 + size > usize::MAX {
                Err("NCM 封面帧长度溢出"@)
            } else if from + 13 + size > data.len() {
                Err("NCM 封面帧不完整"@)
            } else {
                Ok(from + 13 + size)
            },
        }
    }
}

/// An NCM file decoded.
pub open spec fn ncm_decoded(data: Seq<u8>) -> Result<(Seq<u8>, Seq<char>), Seq<char>> {
    if data.len() < 14 || !NCM_MAGIC@.is_prefix_of(data) {
        Err("无效的 NCM 文件头"@)
    } else {
        match key_block_end(data) {
            Err(text) => Err(text),
            Ok(key_end) => match key_in_block(data.subrange(14, key_end)) {
                Err(text) => Err(text),
                Ok(key) => match metadata_end(data, key_end) {
                    Err(text) => Err(text),
                    Ok(meta_end) => match audio_start(data, meta_end) {
                        Err(text) => Err(text),
                        Ok(start) => recognised(
                            ncm_masked(data.subrange(start, data.len() as int), key),
                            no_audio(),
                        ),
                    },
                },
            },
        }
    }
}

/// Decrypts whole blocks one by one.
pub fn aes_ecb_decrypt(data: &[u8], key: &[u8; 16]) -> (res: Result<Vec<u8>, String>)
    ensures
        bytes_outcome(res) == ecb_opened(data@, key@),
{
    if data.is_empty() || data.len() % 16 != 0 {
        return Err("AES-ECB 数据长度无效".to_string());
    }
    let len = data.len();
    let mut out: Vec<u8> = Vec::new();
    let mut at: usize = 0;
    while at < len
        invariant
            len == data@.len(),
            len % 16 == 0,
            at % 16 == 0,
            at <= len,
            out@ == ecb_decrypted(data@, key@).subrange(0, at as int),
        decreases len - at,
    {
        let block = aes128_decrypt_block(&data[at..at + 16], key);
        append(&mut out, &block);
        let ghost full = ecb_decrypted(data@, key@);
        assert forall|i: int| 0 <= i < 16 implies full[at + i] == block@[i] by {
            assert((at + i) / 16 * 16 == at && (at + i) % 16 == i);
        }
        assert(full.subrange(0, at + 16) =~= full.subrange(0, at as int) + block@);
        at = at + 16;
    }
    assert(ecb_decrypted(data@, key@).subrange(0, len as int) =~= ecb_decrypted(data@, key@));
    Ok(out)
}

/// Takes PKCS#7 padding off.
pub fn pkcs7_unpad(data: &[u8]) -> (res: Result<Vec<u8>, String>)
    ensures
        bytes_outcome(res) == unpadded(data@),
{
    let len = data.len();
    if len == 0 {
        return Err("PKCS#7 数据为空".to_string());
    }
    let n = data[len - 1] as usize;
    if n == 0 || n > 16 || n > len {
        return Err("PKCS#7 填充无效".to_string());
    }
    for i in len - n..len
        invariant
            len == data@.len(),
            1 <= n <= len,
            n == data@.last(),
            len - n <= i,
            forall|k: int| len - n <= k < i ==> #[trigger] data@[k] == n,
    {
        if data[i] as usize != n {
            return Err("PKCS#7 填充无效".to_string());
        }
    }
    Ok(copy_range(data, 0, len - n))
}

/// The pattern of a key.
pub fn ncm_key_box(key: &[u8]) -> (out: [u8; 256])
    requires
        key@.len() > 0,
    ensures
        out@ == key_box(key@),
{
    let mut table: [u8; 256] = [0;256];
    for i in 0..256
        invariant
            forall|k: int| 0 <= k < i ==> table@[k] == k,
    {
        table[i] = i as u8;
    }
    assert(table@ =~= box_schedule(key@, 0).0);
    let mut j: usize = 0;
    for i in 0..256
        invariant
            key@.len() > 0,
            (table@, j as int) == box_schedule(key@, i as nat),
            j < 256,
    {
        j = (j + table[i] as usize + key[i % key.len()] as usize) % 256;
        let a = table[i];
        let b = table[j];
        table[i] = b;
        table[j] = a;
    }
    let mut out: [u8; 256] = [0;256];
    for i in 0..256
        invariant
            table@ == box_schedule(key@, 256).0,
            forall|k: int| 0 <= k < i ==> out@[k] == #[trigger] key_box(key@)[k],
    {
        let a = table[(i + 1) % 256] as usize;
        let b = table[(i + 1 + a) % 256] as usize;
        out[i] = table[(a + b) % 256];
    }
    assert(out@ =~= key_box(key@));
    out
}

/// The key inside a key block.
fn open_key_block(block: &[u8]) -> (res: Result<Vec<u8>, String>)
    ensures
        bytes_outcome(res) == key_in_block(block@),
        res matches Ok(key) ==> key@.len() > 0,
{
    proof {
        reveal(key_in_block);
    }
    let mut opened: Vec<u8> = Vec::new();
    for i in 0..block.len()
        invariant
            opened@ == Seq::new(i as nat, |k: int| block@[k] ^ KEY_BLOCK_MASK),
    {
        opened.push(block[i] ^ KEY_BLOCK_MASK);
    }
    let plain = aes_ecb_decrypt(opened.as_slice(), &NCM_CORE_KEY)?;
    let content = pkcs7_unpad(plain.as_slice())?;
    if content.len() <= KEY_LABEL_LEN {
        return Err("NCM 音频密钥无效".to_string());
    }
    Ok(copy_range(content.as_slice(), KEY_LABEL_LEN, content.len()))
}

/// Decodes an NCM file.
pub fn decrypt_ncm(data: &[u8]) -> (res: Result<(Vec<u8>, String), String>)
    ensures
        file_outcome(res) == ncm_decoded(data@),
{
    if data.len() < 14 || !starts_with(data, &NCM_MAGIC) {
        return Err("无效的 NCM 文件头".to_string());
    }
    let key_len = read_u32_le(data, 10)? as usize;
    let key_end = match key_len.checked_add(14) {
        Some(end) => end,
        None => return Err("NCM key 长度溢出".to_string()),
    };
    if key_end > data.len() || key_len == 0 {
        return Err("NCM key 数据不完整".to_string());
    }
    let key = open_key_block(&data[14..key_end])?;
    let pattern = ncm_key_box(key.as_slice());
    let meta_len = read_u32_le(data, key_end)? as usize;
    let meta_end = match (key_end + 4).checked_add(meta_len) {
        Some(end) => end,
        None => return Err("NCM 元数据长度溢出".to_string()),
    };
    if meta_end > data.len() {
        return Err("NCM 元数据不完整".to_string());
    }
    let frame_at = match meta_end.checked_add(5) {
        Some(at) => at,
        None => return Err("NCM 封面帧偏移溢出".to_string()),
    };
    let frame_len = read_u32_le(data, frame_at)? as usize;
    let start = match frame_at.checked_add(8) {
        Some(at) => match at.checked_add(frame_len) {
            Some(start) => start,
            None => return Err("NCM 封面帧长度溢出".to_string()),
        },
        None => return Err("NCM 封面帧长度溢出".to_string()),
    };
    if start > data.len() {
        return Err("NCM 封面帧不完整".to_string());
    }
    let mut audio = copy_range(data, start, data.len());
    let ghost masked = audio@;
    let len = audio.len();
    for i in 0..len
        invariant
            pattern@ == key_box(key@),
            len == audio@.len(),
            len == masked.len(),
            forall|k: int| 0 <= k < i ==> #[trigger] audio@[k] == masked[k] ^ key_box(key@)[k % 256],
            forall|k: int| i <= k < len ==> audio@[k] == masked[k],
    {
        let byte = audio[i] ^ pattern[i % 256];
        audio[i] = byte;
    }
    assert(audio@ =~= ncm_masked(masked, key@));
    let format = sniff_audio(audio.as_slice())?;
    Ok((audio, format))
}

/// Taking PKCS#7 padding off gives back what was padded.
pub proof fn law_unpad_inverts_pad(data: Seq<u8>, n: nat)
    requires
        1 <= n <= 16,
    ensures
        unpadded(padded(data, n)) == Ok::<Seq<u8>, Seq<char>>(data),
{
    let whole = padded(data, n);
    assert(whole.last() == n);
    assert(ends_in_padding(whole, n as int));
    assert(whole.subrange(0, data.len() as int) =~= data);
}

/// Masking with the pattern of one key twice gives the audio back.
pub proof fn law_ncm_mask_reversible(audio: Seq<u8>, key: Seq<u8>)
    ensures
        ncm_masked(ncm_masked(audio, key), key) == audio,
{
    let twice = ncm_masked(ncm_masked(audio, key), key);
    assert forall|i: int| 0 <= i < audio.len() implies #[trigger] twice[i] == audio[i] by {
        let b = audio[i];
        let m = key_box(key)[i % 256];
        assert((b ^ m) ^ m == b) by (bit_vector);
    }
    assert(twice =~= audio);
}

/// Whether two keys, each repeated without end, agree in the first 256 bytes.
pub open spec fn same_repeated(key: Seq<u8>, other: Seq<u8>) -> bool {
    forall|i: int|
        #![trigger key[i % (key.len() as int)]]
        #![trigger other[i % (other.len() as int)]]
        0 <= i < 256 ==> other[i % (other.len() as int)] == key[i % (key.len() as int)]
}

proof fn lemma_same_schedule(key: Seq<u8>, other: Seq<u8>, steps: nat)
    requires
        same_repeated(key, other),
        steps <= 256,
    ensures
        box_schedule(other, steps) == box_schedule(key, steps),
    decreases steps,
{
    if steps > 0 {
        let i = steps - 1;
        lemma_same_schedule(key, other, i as nat);
        assert(other[i % (other.len() as int)] == key[i % (key.len() as int)]);
    }
}

/// The pattern depends on the first 256 bytes of the repeated key alone.
pub proof fn law_key_box_of_repeated_key(key: Seq<u8>, other: Seq<u8>)
    requires
        key.len() > 0,
        other.len() > 0,
        same_repeated(key, other),
    ensures
        key_box(other) == key_box(key),
{
    lemma_same_schedule(key, other, 256);
    assert(key_box(other) =~= key_box(key));
}

/// `key` repeated to the given length.
pub open spec fn repeated(key: Seq<u8>, len: nat) -> Seq<u8> {
    Seq::new(len, |i: int| key[i % (key.len() as int)])
}

/// A key may be repeated a whole number of times, or repeated to 256 bytes with anything
/// behind them: the pattern stays the same.
pub proof fn law_key_box_of_longer_key(key: Seq<u8>, times: nat, rest: Seq<u8>)
    requires
        key.len() > 0,
        times > 0,
    ensures
        key_box(repeated(key, times * key.len())) == key_box(key),
        key_box(repeated(key, 256) + rest) == key_box(key),
{
    let n = key.len() as int;
    let size = times * key.len();
    let whole = repeated(key, size);
    assert(size > 0) by (nonlinear_arith)
        requires
            size == times * key.len(),
            times > 0,
            key.len() > 0,
    ;
    assert forall|i: int| 0 <= i < 256 implies #[trigger] whole[i % (size as int)] == key[i % n] by {
        vstd::arithmetic::div_mod::lemma_mod_mod(i, n, times as int);
        vstd::arithmetic::mul::lemma_mul_is_commutative(times as int, n);
        vstd::arithmetic::div_mod::lemma_mod_bound(i, size as int);
        assert(i % (size as int) % n == i % n);
    }
    assert(same_repeated(key, whole));
    law_key_box_of_repeated_key(key, whole);
    let long = repeated(key, 256) + rest;
    assert forall|i: int| 0 <= i < 256 implies #[trigger] long[i % (long.len() as int)] == key[i
        % n] by {
        vstd::arithmetic::div_mod::lemma_small_mod(i as nat, long.len());
    }
    assert(same_repeated(key, long));
    law_key_box_of_repeated_key(key, long);
}

/// A key block gives back the key that was put into it: one whose blocks, the mask taken
/// off, decrypt to a label, the key and padding.
pub proof fn law_key_block_round_trip(block: Seq<u8>, label: Seq<u8>, key: Seq<u8>, n: nat)
    requires
        label.len() == KEY_LABEL_LEN,
        key.len() > 0,
        1 <= n <= 16,
        block.len() % 16 == 0,
        ecb_decrypted(Seq::new(block.len(), |i: int| block[i] ^ KEY_BLOCK_MASK), NCM_CORE_KEY@)
            == padded(label + key, n),
    ensures
        key_in_block(block) == Ok::<Seq<u8>, Seq<char>>(key),
{
    reveal(key_in_block);
    law_unpad_inverts_pad(label + key, n);
    assert(ecb_decrypted(
        Seq::new(block.len(), |i: int| block[i] ^ KEY_BLOCK_MASK),
        NCM_CORE_KEY@,
    ).len() == block.len());
    assert((label + key).subrange(KEY_LABEL_LEN as int, (label + key).len() as int) =~= key);
}

/// The part of an NCM file up to and with the key block.
pub open spec fn ncm_front(gap: Seq<u8>, block: Seq<u8>) -> Seq<u8> {
    NCM_MAGIC@ + gap + le32_bytes(block.len() as u32) + block
}

/// The part of an NCM file from the metadata up to the audio.
pub open spec fn ncm_middle(meta: Seq<u8>, gap: Seq<u8>, frame: Seq<u8>, close: Seq<u8>) -> Seq<
    u8,
> {
    le32_bytes(meta.len() as u32) + meta + gap + le32_bytes(frame.len() as u32) + frame + close
}

proof fn lemma_front(gap: Seq<u8>, block: Seq<u8>, rest: Seq<u8>)
    requires
        gap.len() == 2,
        0 < block.len() <= u32::MAX,
        ncm_front(gap, block).len() + rest.len() <= usize::MAX,
    ensures
        ({
            let file = ncm_front(gap, block) + rest;
            &&& file.len() >= 14
            &&& NCM_MAGIC@.is_prefix_of(file)
            &&& key_block_end(file) == Ok::<int, Seq<char>>(14 + block.len() as int)
            &&& file.subrange(14, 14 + block.len() as int) == block
        }),
{
    let file = ncm_front(gap, block) + rest;
    assert(file.subrange(0, 8) =~= NCM_MAGIC@);
    assert(file.subrange(10, 14) =~= le32_bytes(block.len() as u32));
    lemma_le32_read(file, 10, block.len() as u32);
    assert(file.subrange(14, 14 + block.len() as int) =~= block);
}

proof fn lemma_middle(
    front: Seq<u8>,
    meta: Seq<u8>,
    gap: Seq<u8>,
    frame: Seq<u8>,
    close: Seq<u8>,
    rest: Seq<u8>,
)
    requires
        meta.len() <= u32::MAX,
        gap.len() == 5,
        frame.len() <= u32::MAX,
        close.len() == 4,
        (front + ncm_middle(meta, gap, frame, close)).len() + rest.len() <= usize::MAX,
    ensures
        ({
            let file = front + ncm_middle(meta, gap, frame, close) + rest;
            let meta_end = front.len() + 4 + meta.len() as int;
            let start = meta_end + 13 + frame.len();
            &&& metadata_end(file, front.len() as int) == Ok::<int, Seq<char>>(meta_end)
            &&& audio_start(file, meta_end) == Ok::<int, Seq<char>>(start)
            &&& file.subrange(start, file.len() as int) == rest
        }),
{
    let file = front + ncm_middle(meta, gap, frame, close) + rest;
    let from = front.len() as int;
    let meta_end = from + 4 + meta.len();
    let start = meta_end + 13 + frame.len();
    assert(file.subrange(from, from + 4) =~= le32_bytes(meta.len() as u32));
    lemma_le32_read(file, from, meta.len() as u32);
    assert(file.subrange(meta_end + 5, meta_end + 9) =~= le32_bytes(frame.len() as u32));
    lemma_le32_read(file, meta_end + 5, frame.len() as u32);
    assert(file.subrange(start, file.len() as int) =~= rest);
}

proof fn lemma_joined(a: Seq<u8>, b: Seq<u8>, c: Seq<u8>)
    ensures
        a + b + c == a + (b + c),
{
    assert(a + b + c =~= a + (b + c));
}

proof fn lemma_decoded_by_parts(
    data: Seq<u8>,
    key_end: int,
    key: Seq<u8>,
    meta_end: int,
    start: int,
    audio: Seq<u8>,
)
    requires
        data.len() >= 14,
        NCM_MAGIC@.is_prefix_of(data),
        key_block_end(data) == Ok::<int, Seq<char>>(key_end),
        key_in_block(data.subrange(14, key_end)) == Ok::<Seq<u8>, Seq<char>>(key),
        metadata_end(data, key_end) == Ok::<int, Seq<char>>(meta_end),
        audio_start(data, meta_end) == Ok::<int, Seq<char>>(start),
        ncm_masked(data.subrange(start, data.len() as int), key) == audio,
        is_audio(audio),
    ensures
        ncm_decoded(data) == Ok::<(Seq<u8>, Seq<char>), Seq<char>>((audio, extension_of(audio))),
{
}

/// An NCM file gives back the audio that was masked into it: whatever its gaps, metadata,
/// cover frame and closing bytes hold, the audio starts right behind them.
pub proof fn law_ncm_file_round_trip(
    gap: Seq<u8>,
    block: Seq<u8>,
    key: Seq<u8>,
    meta: Seq<u8>,
    second_gap: Seq<u8>,
    frame: Seq<u8>,
    close: Seq<u8>,
    audio: Seq<u8>,
)
    requires
        gap.len() == 2,
        0 < block.len() <= u32::MAX,
        key_in_block(block) == Ok::<Seq<u8>, Seq<char>>(key),
        meta.len() <= u32::MAX,
        second_gap.len() == 5,
        frame.len() <= u32::MAX,
        close.len() == 4,
        is_audio(audio),
        (ncm_front(gap, block) + ncm_middle(meta, second_gap, frame, close)).len() + audio.len()
            <= usize::MAX,
    ensures
        ncm_decoded(
            ncm_front(gap, block) + ncm_middle(meta, second_gap, frame, close) + ncm_masked(
                audio,
                key,
            ),
        ) == Ok::<(Seq<u8>, Seq<char>), Seq<char>>((audio, extension_of(audio))),
{
    let front = ncm_front(gap, block);
    let middle = ncm_middle(meta, second_gap, frame, close);
    let masked = ncm_masked(audio, key);
    let file = front + middle + masked;
    let key_end = 14 + block.len() as int;
    let meta_end = key_end + 4 + meta.len();
    let start = meta_end + 13 + frame.len();
    assert(masked.len() == audio.len());
    assert(front.len() == key_end);
    assert(file == front + (middle + masked)) by {
        lemma_joined(front, middle, masked);
    }
    assert({
        &&& file.len() >= 14
        &&& NCM_MAGIC@.is_prefix_of(file)
        &&& key_block_end(file) == Ok::<int, Seq<char>>(key_end)
        &&& file.subrange(14, key_end) == block
    }) by {
        lemma_front(gap, block, middle + masked);
    }
    assert({
        &&& metadata_end(file, key_end) == Ok::<int, Seq<char>>(meta_end)
        &&& audio_start(file, meta_end) == Ok::<int, Seq<char>>(start)
        &&& file.subrange(start, file.len() as int) == masked
    }) by {
        lemma_middle(front, meta, second_gap, frame, close, masked);
    }
    assert(ncm_masked(masked, key) == audio) by {
        law_ncm_mask_reversible(audio, key);
    }
    lemma_decoded_by_parts(file, key_end, key, meta_end, start, audio);
}

/// Where the parts of an NCM file that decodes end: the key block, the metadata, and what
/// stands in front of the audio.
pub open spec fn ncm_parts(data: Seq<u8>) -> (int, int, int) {
    let key_end = key_block_end(data)->Ok_0;
    let meta_end = metadata_end(data, key_end)->Ok_0;
    (key_end, meta_end, audio_start(data, meta_end)->Ok_0)
}

/// The key of an NCM file that decodes.
spec fn ncm_key(data: Seq<u8>) -> Seq<u8> {
    key_in_block(data.subrange(14, ncm_parts(data).0))->Ok_0
}

proof fn lemma_parts_known(data: Seq<u8>)
    requires
        ncm_decoded(data) is Ok,
    ensures
        ({
            let (key_end, meta_end, start) = ncm_parts(data);
            let audio = ncm_masked(data.subrange(start, data.len() as int), ncm_key(data));
            &&& data.len() >= 14
            &&& NCM_MAGIC@.is_prefix_of(data)
            &&& key_block_end(data) == Ok::<int, Seq<char>>(key_end)
            &&& key_in_block(data.subrange(14, key_end)) == Ok::<Seq<u8>, Seq<char>>(
                ncm_key(data),
            )
            &&& metadata_end(data, key_end) == Ok::<int, Seq<char>>(meta_end)
            &&& audio_start(data, meta_end) == Ok::<int, Seq<char>>(start)
            &&& 14 < key_end
            &&& key_end + 4 <= meta_end
            &&& meta_end + 13 <= start <= data.len()
            &&& is_audio(audio)
            &&& ncm_decoded(data) == Ok::<(Seq<u8>, Seq<char>), Seq<char>>(
                (audio, extension_of(audio)),
            )
        }),
{
}

proof fn lemma_read_in_cut(data: Seq<u8>, n: int, at: int)
    requires
        0 <= n <= data.len(),
        0 <= at,
    ensures
        u32_le_read(data.subrange(0, n), at) is Ok ==> u32_le_read(data.subrange(0, n), at)
            == u32_le_read(data, at),
        at + 4 <= n ==> u32_le_read(data.subrange(0, n), at) is Ok,
{
}

/// What is left of an NCM file that was cut is laid out as before, as far as it reaches.
proof fn lemma_cut_parts(data: Seq<u8>, n: int)
    requires
        ncm_decoded(data) is Ok,
        0 <= n <= data.len(),
    ensures
        ({
            let (key_end, meta_end, start) = ncm_parts(data);
            let cut = data.subrange(0, n);
            &&& ncm_decoded(cut) is Ok ==> start <= n
            &&& start <= n ==> {
                &&& cut.len() >= 14
                &&& NCM_MAGIC@.is_prefix_of(cut)
                &&& key_block_end(cut) == Ok::<int, Seq<char>>(key_end)
                &&& cut.subrange(14, key_end) == data.subrange(14, key_end)
                &&& metadata_end(cut, key_end) == Ok::<int, Seq<char>>(meta_end)
                &&& audio_start(cut, meta_end) == Ok::<int, Seq<char>>(start)
            }
        }),
{
    lemma_parts_known(data);
    let (key_end, meta_end, start) = ncm_parts(data);
    let cut = data.subrange(0, n);
    lemma_read_in_cut(data, n, 10);
    lemma_read_in_cut(data, n, key_end);
    lemma_read_in_cut(data, n, meta_end + 5);
    if ncm_decoded(cut) is Ok {
        lemma_parts_known(cut);
    }
    if start <= n {
        assert(cut.subrange(0, 8) =~= data.subrange(0, 8));
        assert(cut.subrange(14, key_end) =~= data.subrange(14, key_end));
    }
}

/// An NCM file that decodes is refused once it is cut at or in front of its audio; cut four
/// or more bytes behind the start of the audio, it gives the front of the audio.
pub proof fn law_ncm_cut_file(data: Seq<u8>, n: int)
    requires
        ncm_decoded(data) is Ok,
        0 <= n <= data.len(),
    ensures
        ({
            let (audio, ext) = ncm_decoded(data)->Ok_0;
            let start = data.len() - audio.len();
            &&& n <= start ==> ncm_decoded(data.subrange(0, n)) is Err
            &&& n >= start + 4 ==> ncm_decoded(data.subrange(0, n)) == Ok::<
                (Seq<u8>, Seq<char>),
                Seq<char>,
            >((audio.subrange(0, n - start), ext))
        }),
{
    lemma_parts_known(data);
    lemma_cut_parts(data, n);
    let (key_end, meta_end, start) = ncm_parts(data);
    let key = ncm_key(data);
    let audio = ncm_masked(data.subrange(start, data.len() as int), key);
    let cut = data.subrange(0, n);
    if start <= n {
        let left = ncm_masked(cut.subrange(start, n), key);
        assert(left =~= audio.subrange(0, n - start));
        if n >= start + 4 {
            law_four_bytes_tell(audio, n - start);
            lemma_decoded_by_parts(cut, key_end, key, meta_end, start, left);
        } else if n == start && ncm_decoded(cut) is Ok {
            lemma_parts_known(cut);
            assert(ncm_parts(cut) == (key_end, meta_end, start));
            assert(ncm_masked(cut.subrange(start, n), ncm_key(cut)).len() == 0);
        }
    }
}

/// Whether index `i` of an NCM file that decodes lies in what decoding does not look at:
/// the gap behind the magic, the metadata and the gap behind them, and the cover frame with
/// the bytes that close it.
pub open spec fn ncm_unread(data: Seq<u8>, i: int) -> bool {
    let (key_end, meta_end, start) = ncm_parts(data);
    8 <= i < 10 || key_end + 4 <= i < meta_end + 5 || meta_end + 9 <= i < start
}

proof fn lemma_same_read(data: Seq<u8>, other: Seq<u8>, at: int)
    requires
        other.len() == data.len(),
        0 <= at,
        at + 4 <= data.len(),
        forall|i: int| at <= i < at + 4 ==> #[trigger] other[i] == data[i],
    ensures
        u32_le_read(other, at) == u32_le_read(data, at),
{
}

/// What gaps, metadata, cover and closing bytes hold does not matter: an NCM file that
/// decodes gives the same audio under the same extension when they are changed.
pub proof fn law_ncm_unread_bytes(data: Seq<u8>, other: Seq<u8>)
    requires
        ncm_decoded(data) is Ok,
        other.len() == data.len(),
        forall|i: int|
            0 <= i < data.len() && !ncm_unread(data, i) ==> #[trigger] other[i] == data[i],
    ensures
        ncm_decoded(other) == ncm_decoded(data),
{
    lemma_parts_known(data);
    let (key_end, meta_end, start) = ncm_parts(data);
    let key = ncm_key(data);
    let n = data.len() as int;
    let audio = ncm_masked(data.subrange(start, n), key);
    lemma_same_read(data, other, 10);
    lemma_same_read(data, other, key_end);
    lemma_same_read(data, other, meta_end + 5);
    assert(other.subrange(0, 8) =~= data.subrange(0, 8));
    assert(other.subrange(14, key_end) =~= data.subrange(14, key_end));
    assert(other.subrange(start, n) =~= data.subrange(start, n));
    lemma_decoded_by_parts(other, key_end, key, meta_end, start, audio);
}

/// Blocks are decrypted each by itself: block `b` of the data gives block `b` of the result,
/// wherever it stands.
pub proof fn law_blocks_by_themselves(data: Seq<u8>, key: Seq<u8>, b: int, j: int)
    requires
        data.len() > 0,
        data.len() % 16 == 0,
        0 <= b,
        16 * b + 16 <= data.len(),
        0 <= j < 16,
    ensures
        ecb_opened(data, key) matches Ok(plain) && plain.len() == data.len() && plain[16 * b + j]
            == aes128_decrypted(data.subrange(16 * b, 16 * b + 16), key)[j],
{
    let i = 16 * b + j;
    assert(i / 16 == b && i % 16 == j);
}

/// Padding is taken off exactly if it is there: what comes out, with as many bytes behind it
/// as each of them says, from one to sixteen, is what went in.
pub proof fn law_unpad_exact(data: Seq<u8>)
    ensures
        unpadded(data) matches Ok(content) ==> {
            &&& 1 <= data.len() - content.len() <= 16
            &&& data == padded(content, (data.len() - content.len()) as nat)
        },
        unpadded(data) is Ok <==> data.len() > 0 && 1 <= data.last() <= 16 && data.last()
            <= data.len() && forall|i: int|
            data.len() - data.last() <= i < data.len() ==> #[trigger] data[i] == data.last(),
        data.len() == 0 ==> unpadded(data) == Err::<Seq<u8>, Seq<char>>("PKCS#7 数据为空"@),
        data.len() > 0 && unpadded(data) is Err ==> unpadded(data) == Err::<Seq<u8>, Seq<char>>(
            "PKCS#7 填充无效"@,
        ),
{
    if unpadded(data) is Ok {
        let content = unpadded(data)->Ok_0;
        assert(data =~= padded(content, (data.len() - content.len()) as nat));
    }
}

/// Sixteen bytes of a key block, each combined with 0x64.
pub open spec fn unlocked(block: Seq<u8>, b: int) -> Seq<u8> {
    Seq::new(16, |k: int| block[16 * b + k] ^ 0x64)
}

/// A key block gives its key: each byte combined with 0x64, the blocks decrypted under the
/// fixed key, the padding taken off, and the seventeen bytes of the label dropped.
pub proof fn law_key_block_opened(block: Seq<u8>, core: Seq<u8>, plain: Seq<u8>, n: nat)
    requires
        core == seq![
            0x68u8,
            0x7a,
            0x48,
            0x52,
            0x41,
            0x6d,
            0x73,
            0x6f,
            0x35,
            0x6b,
            0x49,
            0x6e,
            0x62,
            0x61,
            0x78,
            0x57,
        ],
        block.len() > 0,
        block.len() % 16 == 0,
        plain.len() + n == block.len(),
        1 <= n <= 16,
        forall|b: int, j: int|
            0 <= b && 16 * b + 16 <= block.len() && 0 <= j < 16 ==> #[trigger] aes128_decrypted(
                unlocked(block, b),
                core,
            )[j] == padded(plain, n)[16 * b + j],
    ensures
        plain.len() > 17 ==> key_in_block(block) == Ok::<Seq<u8>, Seq<char>>(
            plain.subrange(17, plain.len() as int),
        ),
        plain.len() <= 17 ==> key_in_block(block) == Err::<Seq<u8>, Seq<char>>(
            "NCM 音频密钥无效"@,
        ),
{
    reveal(key_in_block);
    let opened = Seq::new(block.len(), |i: int| block[i] ^ KEY_BLOCK_MASK);
    assert(NCM_CORE_KEY@ =~= core);
    let got = ecb_decrypted(opened, NCM_CORE_KEY@);
    assert forall|i: int| 0 <= i < block.len() implies #[trigger] got[i] == padded(plain, n)[i] by {
        let b = i / 16;
        let j = i % 16;
        assert(i == 16 * b + j);
        assert(16 * b + 16 <= block.len());
        assert(opened.subrange(i / 16 * 16, i / 16 * 16 + 16) =~= unlocked(block, b));
        assert(aes128_decrypted(unlocked(block, b), core)[j] == padded(plain, n)[16 * b + j]);
    }
    assert(got =~= padded(plain, n));
    law_unpad_inverts_pad(plain, n);
}

/// One step of the key schedule: the index moves on by the table entry and the key byte of
/// the step, the key repeated, round the table of 256; those two entries change places; all
/// others stay.
pub proof fn law_box_step(key: Seq<u8>, step: nat, at: int)
    requires
        key.len() > 0,
        step < 256,
        0 <= at < 256,
    ensures
        ({
            let (table, last) = box_schedule(key, step);
            let (after, j) = box_schedule(key, step + 1);
            &&& table.len() == 256 && after.len() == 256
            &&& 0 <= j < 256
            &&& (last + table[step as int] + key[step as int % (key.len() as int)] - j) % 256 == 0
            &&& after[j] == table[step as int]
            &&& after[step as int] == table[j]
            &&& at != j && at != step ==> after[at] == table[at]
        }),
        box_schedule(key, 0).1 == 0,
        box_schedule(key, 0).0[at] == at,
{
    lemma_box_shape(key, step);
    lemma_box_shape(key, step + 1);
}

proof fn lemma_box_shape(key: Seq<u8>, steps: nat)
    requires
        steps <= 256,
    ensures
        box_schedule(key, steps).0.len() == 256,
        0 <= box_schedule(key, steps).1 < 256,
    decreases steps,
{
    if steps > 0 {
        lemma_box_shape(key, (steps - 1) as nat);
    }
}

/// Audio is masked with 256 bytes over and over, at whatever distance from its start; each
/// of them is the table entry at the sum of two entries, the one behind its index and the
/// one that many places further on.
pub proof fn law_ncm_pattern(audio: Seq<u8>, key: Seq<u8>, i: int, a: int, b: int, c: int)
    requires
        key.len() > 0,
        0 <= i < audio.len(),
        0 <= a < 256,
        0 <= b < 256,
        0 <= c < 256,
        (i + 1 - a) % 256 == 0,
        (a + box_schedule(key, 256).0[a] - b) % 256 == 0,
        (box_schedule(key, 256).0[a] + box_schedule(key, 256).0[b] - c) % 256 == 0,
    ensures
        ncm_masked(audio, key).len() == audio.len(),
        ncm_masked(audio, key)[i] == audio[i] ^ box_schedule(key, 256).0[c],
{
    let x = i % 256;
    let table = box_schedule(key, 256).0;
    lemma_box_shape(key, 256);
    assert((x + 1) % 256 == a);
    let first = table[a];
    assert((x + 1 + first) % 256 == b);
    let second = table[b];
    assert((first + second) % 256 == c);
    assert(key_box(key)[x] == table[c]);
}

/// Where everything stands in an NCM file: the length of the key block at 10 and the block
/// behind it; the length of the metadata and they behind it; five bytes; the length of the
/// cover frame, the frame, and four more bytes; and the audio.
pub proof fn law_ncm_layout(data: Seq<u8>, key: Seq<u8>)
    requires
        data.len() >= 14,
        data.len() <= usize::MAX,
        data.subrange(0, 8) == seq![
            0x43u8,
            0x54,
            0x45,
            0x4e,
            0x46,
            0x44,
            0x41,
            0x4d,
        ],
        le32_at(data, 10) > 0,
        14 + le32_at(data, 10) + 4 <= data.len(),
        key_in_block(data.subrange(14, 14 + le32_at(data, 10))) == Ok::<Seq<u8>, Seq<char>>(key),
        ({
            let meta = 18 + le32_at(data, 10);
            let frame = meta + le32_at(data, meta - 4) + 9;
            &&& frame <= data.len()
            &&& frame + le32_at(data, frame - 4) + 4 <= data.len()
        }),
    ensures
        ({
            let meta = 18 + le32_at(data, 10);
            let frame = meta + le32_at(data, meta - 4) + 9;
            let start = frame + le32_at(data, frame - 4) + 4;
            let audio = ncm_masked(data.subrange(start, data.len() as int), key);
            ncm_decoded(data) == (if is_audio(audio) {
                Ok::<(Seq<u8>, Seq<char>), Seq<char>>((audio, extension_of(audio)))
            } else {
                Err("解密后无法识别音频格式"@)
            })
        }),
{
    assert(NCM_MAGIC@ =~= data.subrange(0, 8));
    crate::bytes::law_le32_digits(data, 10);
    let meta = 18 + le32_at(data, 10);
    crate::bytes::law_le32_digits(data, meta - 4);
    let frame = meta + le32_at(data, meta - 4) + 9;
    crate::bytes::law_le32_digits(data, frame - 4);
}

/// An NCM file is refused at the first part that is not whole: the header, the key block, the
/// metadata or the cover frame; a length that is missing altogether is answered as such.
pub proof fn law_ncm_refused(data: Seq<u8>, key: Seq<u8>)
    requires
        data.len() + 0x1_0000_0000 <= usize::MAX,
    ensures
        data.len() < 14 || data.subrange(0, 8) != NCM_MAGIC@ ==> ncm_decoded(data) == Err::<
            (Seq<u8>, Seq<char>),
            Seq<char>,
        >("无效的 NCM 文件头"@),
        data.len() >= 14 && data.subrange(0, 8) == NCM_MAGIC@ ==> {
            let key_end = 14 + le32_at(data, 10);
            let meta_end = key_end + 4 + le32_at(data, key_end);
            &&& le32_at(data, 10) == 0 || key_end > data.len() ==> ncm_decoded(data) == Err::<
                (Seq<u8>, Seq<char>),
                Seq<char>,
            >("NCM key 数据不完整"@)
            &&& 14 < key_end <= data.len() && key_in_block(data.subrange(14, key_end)) == Ok::<
                Seq<u8>,
                Seq<char>,
            >(key) ==> {
                &&& key_end + 4 > data.len() ==> ncm_decoded(data) == Err::<
                    (Seq<u8>, Seq<char>),
                    Seq<char>,
                >("文件头长度不足"@)
                &&& key_end + 4 <= data.len() < meta_end ==> ncm_decoded(data) == Err::<
                    (Seq<u8>, Seq<char>),
                    Seq<char>,
                >("NCM 元数据不完整"@)
                &&& meta_end <= data.len() < meta_end + 9 && key_end + 4 <= data.len()
                    ==> ncm_decoded(data) == Err::<(Seq<u8>, Seq<char>), Seq<char>>(
                    "文件头长度不足"@,
                )
                &&& meta_end + 9 <= data.len() < meta_end + 13 + le32_at(data, meta_end + 5)
                    && key_end + 4 <= data.len() ==> ncm_decoded(data) == Err::<
                    (Seq<u8>, Seq<char>),
                    Seq<char>,
                >("NCM 封面帧不完整"@)
            }
        },
{
    if data.len() >= 14 {
        crate::bytes::law_le32_digits(data, 10);
        let key_end = 14 + le32_at(data, 10);
        if key_end + 4 <= data.len() {
            crate::bytes::law_le32_digits(data, key_end);
            let meta_end = key_end + 4 + le32_at(data, key_end);
            if meta_end + 9 <= data.len() {
                crate::bytes::law_le32_digits(data, meta_end + 5);
            }
        }
    }
}

} // verus!
