//! What the library has from outside crates and from parts of the standard library
//! that carry no specification. Each item here is believed, not proved; its comment
//! says what is claimed of the function behind it.
use aes::cipher::generic_array::GenericArray;
use aes::cipher::{BlockDecrypt, KeyInit};
use base64::Engine;
use cipher::block_padding::NoPadding;
use cipher::{BlockDecryptMut, KeyIvInit};
use md5::Digest;
use vstd::prelude::*;
use vstd::utf8::{decode_utf8, valid_utf8};

verus! {

/// The MD5 digest of `data`.
pub uninterp spec fn md5_digest(data: Seq<u8>) -> Seq<u8>;

/// The decryption of one AES block of sixteen bytes under a key of sixteen bytes.
pub uninterp spec fn aes128_decrypted(block: Seq<u8>, key: Seq<u8>) -> Seq<u8>;

/// What the Base64 decoder reports about a text that it does not take.
pub uninterp spec fn base64_complaint(text: Seq<u8>) -> Seq<char>;

/// The characters of `bytes` read as UTF-8, each malformed part replaced by the
/// replacement character.
pub uninterp spec fn lossy_text(bytes: Seq<u8>) -> Seq<char>;

/// The decryption of `data` in cipher block chaining mode: each block is decrypted by
/// itself and combined with the block before it, the first one with `iv`.
pub open spec fn cbc_decrypted(data: Seq<u8>, key: Seq<u8>, iv: Seq<u8>) -> Seq<u8> {
    Seq::new(
        data.len(),
        |i: int|
            aes128_decrypted(data.subrange(i / 16 * 16, i / 16 * 16 + 16), key)[i % 16] ^ (if i
                < 16 {
                iv[i]
            } else {
                data[i - 16]
            }),
    )
}

/// The Base64 symbol for a number below 64.
pub open spec fn base64_symbol(value: int) -> u8 {
    if value < 26 {
        (65 + value) as u8
    } else if value < 52 {
        (97 + value - 26) as u8
    } else if value < 62 {
        (48 + value - 52) as u8
    } else if value == 62 {
        43
    } else {
        47
    }
}

/// The Base64 text of `bytes` in the standard alphabet, padded with `=` to a multiple
/// of four symbols.
pub open spec fn base64_text(bytes: Seq<u8>) -> Seq<u8>
    decreases bytes.len(),
{
    if bytes.len() == 0 {
        Seq::empty()
    } else if bytes.len() == 1 {
        let n = 0x1_0000 * bytes[0];
        seq![base64_symbol(n / 0x4_0000), base64_symbol(n / 0x1000 % 64), 61, 61]
    } else if bytes.len() == 2 {
        let n = 0x1_0000 * bytes[0] + 0x100 * bytes[1];
        seq![
            base64_symbol(n / 0x4_0000),
            base64_symbol(n / 0x1000 % 64),
            base64_symbol(n / 64 % 64),
            61,
        ]
    } else {
        let n = 0x1_0000 * bytes[0] + 0x100 * bytes[1] + bytes[2];
        seq![
            base64_symbol(n / 0x4_0000),
            base64_symbol(n / 0x1000 % 64),
            base64_symbol(n / 64 % 64),
            base64_symbol(n % 64),
        ] + base64_text(bytes.subrange(3, bytes.len() as int))
    }
}

/// The text that bytes are read as: the one whose UTF-8 encoding they are, and if they are
/// none, one in which each malformed part is replaced.
pub open spec fn text_read(bytes: Seq<u8>) -> Seq<char> {
    if valid_utf8(bytes) {
        decode_utf8(bytes)
    } else {
        lossy_text(bytes)
    }
}

/// `md5::Md5::digest`: a function of the data, sixteen bytes long.
#[verifier::external_body]
pub(crate) fn md5_of(data: &[u8]) -> (digest: [u8; 16])
    ensures
        digest@ == md5_digest(data@),
{
    md5::Md5::digest(data).into()
}

/// `aes::Aes128` with its `decrypt_block`: a function of the block and the key.
#[verifier::external_body]
pub(crate) fn aes128_decrypt_block(block: &[u8], key: &[u8; 16]) -> (plain: [u8; 16])
    requires
        block@.len() == 16,
    ensures
        plain@ == aes128_decrypted(block@, key@),
{
    let cipher = aes::Aes128::new(GenericArray::from_slice(key));
    let mut plain = GenericArray::clone_from_slice(block);
    cipher.decrypt_block(&mut plain);
    plain.into()
}

/// `decrypt_padded_mut` of `cbc::Decryptor<aes::Aes128>` without padding: it takes whole
/// blocks, which it decrypts in cipher block chaining mode, and refuses any other length.
#[verifier::external_body]
pub(crate) fn cbc_decrypt_blocks(data: &[u8], key: &[u8], iv: &[u8]) -> (plain: Option<Vec<u8>>)
    requires
        key@.len() == 16,
        iv@.len() == 16,
    ensures
        plain is Some <==> data@.len() % 16 == 0,
        plain matches Some(bytes) ==> bytes@ == cbc_decrypted(data@, key@, iv@),
{
    let cipher = cbc::Decryptor::<aes::Aes128>::new(key.into(), iv.into());
    let mut buf = data.to_vec();
    let plain = cipher.decrypt_padded_mut::<NoPadding>(&mut buf).ok();
    plain.map(|bytes| bytes.to_vec())
}

/// `decode` of `base64::engine::general_purpose::STANDARD`: it takes exactly the padded
/// texts of the standard alphabet, and gives the bytes that such a text encodes. Its
/// error is handed on as the text that it displays.
#[verifier::external_body]
pub(crate) fn base64_decode(text: &[u8]) -> (res: Result<Vec<u8>, String>)
    ensures
        res matches Ok(bytes) ==> base64_text(bytes@) == text@,
        res matches Err(message) ==> message@ == base64_complaint(text@),
        res is Err ==> forall|bytes: Seq<u8>| #[trigger] base64_text(bytes) != text@,
{
    base64::engine::general_purpose::STANDARD.decode(text).map_err(|e| e.to_string())
}

/// `std::str::from_utf8`: the string whose UTF-8 encoding `bytes` is, if it is one.
#[verifier::external_body]
pub(crate) fn utf8_str(bytes: &[u8]) -> (text: Option<&str>)
    ensures
        text is Some <==> valid_utf8(bytes@),
        text matches Some(s) ==> s@ == decode_utf8(bytes@),
{
    std::str::from_utf8(bytes).ok()
}

/// `String::from_utf8_lossy`: a function of the bytes, which for well-formed UTF-8 is
/// the string that they encode.
#[verifier::external_body]
pub(crate) fn utf8_lossy(bytes: &[u8]) -> (text: String)
    ensures
        text@ == lossy_text(bytes@),
        valid_utf8(bytes@) ==> text@ == decode_utf8(bytes@),
{
    String::from_utf8_lossy(bytes).to_string()
}

/// `String::push`: it appends one character.
pub assume_specification[ String::push ](text: &mut String, c: char)
    ensures
        final(text)@ == old(text)@.push(c),
;

} // verus!
