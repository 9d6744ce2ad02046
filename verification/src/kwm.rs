//! KWM files: audio masked with a 32-byte pattern that a number in the header gives.
use crate::audio::{
    extension_of, file_outcome, is_audio, lemma_prefix_bytes, no_audio, recognised, sniff_audio,
};
use crate::bytes::{copy_range, le64, le64_at, starts_with};
use crate::text::{decimal, decimal_digits};
use vstd::prelude::*;

verus! {

/// "yeelion-kuwo-tme", what newer KWM files begin with.
pub const KWM_MAGIC_1: [u8; 16] = [
    0x79, 0x65, 0x65, 0x6c, 0x69, 0x6f, 0x6e, 0x2d, 0x6b, 0x75, 0x77, 0x6f, 0x2d, 0x74, 0x6d, 0x65,
];

/// "yeelion-kuwo" and four zeros, what older KWM files begin with.
pub const KWM_MAGIC_2: [u8; 16] = [
    0x79, 0x65, 0x65, 0x6c, 0x69, 0x6f, 0x6e, 0x2d, 0x6b, 0x75, 0x77, 0x6f, 0x00, 0x00, 0x00, 0x00,
];

/// "MoOtOiTvINGwd2E6n0E1i7L5t2IoOoNk", which the digits of the number are laid over.
pub const KWM_PREDEFINED_KEY: [u8; 32] = [
    0x4d, 0x6f, 0x4f, 0x74, 0x4f, 0x69, 0x54, 0x76, 0x49, 0x4e, 0x47, 0x77, 0x64, 0x32, 0x45, 0x36,
    0x6e, 0x30, 0x45, 0x31, 0x69, 0x37, 0x4c, 0x35, 0x74, 0x32, 0x49, 0x6f, 0x4f, 0x6f, 0x4e, 0x6b,
];

/// Bytes in the header.
pub const KWM_HEADER_LEN: usize = 0x400;

/// The pattern for a number: its decimal digits, repeated, laid over the fixed key.
pub open spec fn kwm_pattern(number: nat) -> Seq<u8> {
    let digits = decimal_digits(number);
    Seq::new(32, |i: int| KWM_PREDEFINED_KEY@[i] ^ digits[i % (digits.len() as int)])
}

/// Audio masked with the pattern of a number; masking and unmasking are the same.
pub open spec fn kwm_masked(audio: Seq<u8>, number: nat) -> Seq<u8> {
    Seq::new(audio.len(), |i: int| audio[i] ^ kwm_pattern(number)[i % 32])
}

/// Whether `data` has the header of a KWM file.
pub open spec fn is_kwm(data: Seq<u8>) -> bool {
    data.len() >= KWM_HEADER_LEN && (KWM_MAGIC_1@.is_prefix_of(data) || KWM_MAGIC_2@.is_prefix_of(
        data,
    ))
}

/// A KWM file decoded.
pub open spec fn kwm_decoded(data: Seq<u8>) -> Result<(Seq<u8>, Seq<char>), Seq<char>> {
    if !is_kwm(data) {
        Err("无效的 KWM 文件头"@)
    } else {
        recognised(
            kwm_masked(
                data.subrange(KWM_HEADER_LEN as int, data.len() as int),
                le64_at(data, 0x18) as nat,
            ),
            no_audio(),
        )
    }
}

/// The pattern for a number.
fn build_pattern(number: u64) -> (pattern: Vec<u8>)
    ensures
        pattern@ == kwm_pattern(number as nat),
{
    let digits = decimal(number);
    let mut pattern: Vec<u8> = Vec::new();
    for i in 0..32
        invariant
            digits@ == decimal_digits(number as nat),
            digits@.len() >= 1,
            pattern@ == kwm_pattern(number as nat).subrange(0, i as int),
    {
        let ghost full = kwm_pattern(number as nat);
        pattern.push(KWM_PREDEFINED_KEY[i] ^ digits[i % digits.len()]);
        assert(full.subrange(0, i + 1) =~= full.subrange(0, i as int).push(full[i as int]));
    }
    assert(kwm_pattern(number as nat).subrange(0, 32) =~= kwm_pattern(number as nat));
    pattern
}

/// Decodes a KWM file.
pub fn decrypt_kwm(data: &[u8]) -> (res: Result<(Vec<u8>, String), String>)
    ensures
        file_outcome(res) == kwm_decoded(data@),
{
    if data.len() < KWM_HEADER_LEN || (!starts_with(data, &KWM_MAGIC_1) && !starts_with(
        data,
        &KWM_MAGIC_2,
    )) {
        return Err("无效的 KWM 文件头".to_string());
    }
    let number = le64(data, 0x18);
    let pattern = build_pattern(number);
    let mut audio = copy_range(data, KWM_HEADER_LEN, data.len());
    let ghost masked = audio@;
    let len = audio.len();
    for i in 0..len
        invariant
            pattern@ == kwm_pattern(number as nat),
            len == audio@.len(),
            len == masked.len(),
            forall|k: int|
                0 <= k < i ==> #[trigger] audio@[k] == masked[k] ^ kwm_pattern(number as nat)[k % 32],
            forall|k: int| i <= k < len ==> audio@[k] == masked[k],
    {
        let byte = audio[i] ^ pattern[i % 32];
        audio[i] = byte;
    }
    assert(audio@ =~= kwm_masked(masked, number as nat));
    let format = sniff_audio(audio.as_slice())?;
    Ok((audio, format))
}

/// Masking with the pattern of one number twice gives the audio back.
pub proof fn law_kwm_mask_reversible(audio: Seq<u8>, number: nat)
    ensures
        kwm_masked(kwm_masked(audio, number), number) == audio,
{
    let twice = kwm_masked(kwm_masked(audio, number), number);
    assert forall|i: int| 0 <= i < audio.len() implies #[trigger] twice[i] == audio[i] by {
        let b = audio[i];
        let m = kwm_pattern(number)[i % 32];
        assert((b ^ m) ^ m == b) by (bit_vector);
    }
    assert(twice =~= audio);
}

/// A KWM file gives back the audio that was masked into it, whatever number its header
/// holds.
pub proof fn law_kwm_file_round_trip(header: Seq<u8>, audio: Seq<u8>)
    requires
        header.len() == KWM_HEADER_LEN,
        KWM_MAGIC_1@.is_prefix_of(header) || KWM_MAGIC_2@.is_prefix_of(header),
        is_audio(audio),
    ensures
        kwm_decoded(header + kwm_masked(audio, le64_at(header, 0x18) as nat)) == Ok::<
            (Seq<u8>, Seq<char>),
            Seq<char>,
        >((audio, extension_of(audio))),
{
    let number = le64_at(header, 0x18) as nat;
    let file = header + kwm_masked(audio, number);
    assert(file.subrange(0, 16) =~= header.subrange(0, 16));
    assert(file.subrange(KWM_HEADER_LEN as int, file.len() as int) =~= kwm_masked(audio, number));
    law_kwm_mask_reversible(audio, number);
}

/// Whether `data` begins with the bytes of a text of ASCII characters.
pub open spec fn begins_with_text(data: Seq<u8>, text: Seq<char>) -> bool {
    data.len() >= text.len() && forall|i: int|
        0 <= i < text.len() ==> data[i] as int == #[trigger] text[i] as int
}

/// A KWM file has 1024 bytes of header, which begins with "yeelion-kuwo-tme" or with
/// "yeelion-kuwo" and four zeros. Byte `i` of its audio is combined with the character at
/// `i`, modulo 32, of a fixed text and with the digit there of the number at 24 in the
/// header, the digits repeated.
pub proof fn law_kwm_bytes(data: Seq<u8>, digits: Seq<u8>)
    requires
        data.len() >= 1024,
        begins_with_text(data, "yeelion-kuwo-tme"@) || begins_with_text(
            data,
            "yeelion-kuwo\0\0\0\0"@,
        ),
        digits == decimal_digits(le64_at(data, 24) as nat),
    ensures
        ({
            let audio = Seq::new(
                (data.len() - 1024) as nat,
                |i: int|
                    data[1024 + i] ^ ("MoOtOiTvINGwd2E6n0E1i7L5t2IoOoNk"@[i % 32] as u8)
                        ^ digits[i % 32 % (digits.len() as int)],
            );
            kwm_decoded(data) == (if is_audio(audio) {
                Ok::<(Seq<u8>, Seq<char>), Seq<char>>((audio, extension_of(audio)))
            } else {
                Err("解密后无法识别音频格式"@)
            })
        }),
{
    lemma_magic_texts(data);
    lemma_key_text();
    let number = le64_at(data, 24) as nat;
    let audio = Seq::new(
        (data.len() - 1024) as nat,
        |i: int|
            data[1024 + i] ^ ("MoOtOiTvINGwd2E6n0E1i7L5t2IoOoNk"@[i % 32] as u8) ^ digits[i % 32
                % (digits.len() as int)],
    );
    let got = kwm_masked(data.subrange(KWM_HEADER_LEN as int, data.len() as int), number);
    assert forall|i: int| 0 <= i < audio.len() implies #[trigger] got[i] == audio[i] by {
        let b = data[1024 + i];
        let k = KWM_PREDEFINED_KEY@[i % 32];
        let d = digits[i % 32 % (digits.len() as int)];
        assert(b ^ (k ^ d) == b ^ k ^ d) by (bit_vector);
        assert("MoOtOiTvINGwd2E6n0E1i7L5t2IoOoNk"@[i % 32] as int == k);
    }
    assert(got =~= audio);
}

/// Everything else is refused.
pub proof fn law_kwm_refused(data: Seq<u8>)
    requires
        data.len() < 1024 || !(begins_with_text(data, "yeelion-kuwo-tme"@) || begins_with_text(
            data,
            "yeelion-kuwo\0\0\0\0"@,
        )),
    ensures
        kwm_decoded(data) == Err::<(Seq<u8>, Seq<char>), Seq<char>>(
            "无效的 KWM 文件头"@,
        ),
{
    lemma_magic_texts(data);
}

proof fn lemma_key_text()
    ensures
        "MoOtOiTvINGwd2E6n0E1i7L5t2IoOoNk"@.len() == 32,
        forall|i: int|
            0 <= i < 32 ==> #[trigger] "MoOtOiTvINGwd2E6n0E1i7L5t2IoOoNk"@[i] as int
                == KWM_PREDEFINED_KEY@[i],
{
    reveal_strlit("MoOtOiTvINGwd2E6n0E1i7L5t2IoOoNk");
}

proof fn lemma_magic_texts(data: Seq<u8>)
    ensures
        begins_with_text(data, "yeelion-kuwo-tme"@) <==> KWM_MAGIC_1@.is_prefix_of(data),
        begins_with_text(data, "yeelion-kuwo\0\0\0\0"@) <==> KWM_MAGIC_2@.is_prefix_of(data),
{
    reveal_strlit("yeelion-kuwo-tme");
    reveal_strlit("yeelion-kuwo\0\0\0\0");
    let a = "yeelion-kuwo-tme"@;
    let b = "yeelion-kuwo\0\0\0\0"@;
    assert(forall|i: int| 0 <= i < 16 ==> #[trigger] a[i] as int == KWM_MAGIC_1@[i]);
    assert(forall|i: int| 0 <= i < 16 ==> #[trigger] b[i] as int == KWM_MAGIC_2@[i]);
    lemma_prefix_bytes(KWM_MAGIC_1@, data);
    lemma_prefix_bytes(KWM_MAGIC_2@, data);
    if begins_with_text(data, a) {
        assert forall|i: int| 0 <= i < 16 implies #[trigger] KWM_MAGIC_1@[i] == data[i] by {
            assert(a[i] as int == KWM_MAGIC_1@[i]);
        }
    }
    if begins_with_text(data, b) {
        assert forall|i: int| 0 <= i < 16 implies #[trigger] KWM_MAGIC_2@[i] == data[i] by {
            assert(b[i] as int == KWM_MAGIC_2@[i]);
        }
    }
}

} // verus!
