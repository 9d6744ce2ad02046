//! Derivation of the stream key from the text form of a wrapped key.
use crate::bytes::{append, bytes_outcome, copy_range, starts_with};
use crate::outside::{base64_complaint, base64_decode, base64_symbol, base64_text};
use crate::tea::{
    decrypt_tencent_tea, frame_content, is_frame, law_unwrap_inverts_wrap, unwrapped, wrapped,
};
use vstd::prelude::*;
use vstd::string::StringExecFns;
use vstd::utf8::encode_utf8;

verus! {

/// Every other byte of the first wrapping's key: a hundred times the absolute value of
/// the tangent of 106, 106.1 and so on up to 106.7, truncated.
pub const SIMPLE_KEY: [u8; 8] = [105, 86, 70, 56, 43, 32, 21, 11];

/// What the raw bytes of a key in the second form begin with.
pub const V2_PREFIX: [u8; 18] = [
    0x51, 0x51, 0x4d, 0x75, 0x73, 0x69, 0x63, 0x20, 0x45, 0x6e, 0x63, 0x56, 0x32, 0x2c, 0x4b, 0x65,
    0x79, 0x3a,
];

/// The key of the outer wrapping of the second form.
pub const V2_OUTER_KEY: [u8; 16] = [
    0x33, 0x38, 0x36, 0x5a, 0x4a, 0x59, 0x21, 0x40, 0x23, 0x2a, 0x24, 0x25, 0x5e, 0x26, 0x29, 0x28,
];

/// The key of the inner wrapping of the second form.
pub const V2_INNER_KEY: [u8; 16] = [
    0x2a, 0x2a, 0x23, 0x21, 0x28, 0x23, 0x24, 0x25, 0x26, 0x5e, 0x61, 0x31, 0x63, 0x5a, 0x2c, 0x54,
];

/// The bytes that a Base64 text encodes, if it is one.
pub open spec fn base64_bytes(text: Seq<u8>) -> Option<Seq<u8>> {
    if exists|bytes: Seq<u8>| #[trigger] base64_text(bytes) == text {
        Some(choose|bytes: Seq<u8>| #[trigger] base64_text(bytes) == text)
    } else {
        None
    }
}

/// The key of the wrapping in the first form: fixed bytes alternate with the first eight
/// bytes of the raw key.
pub open spec fn v1_wrapping_key(raw: Seq<u8>) -> Seq<u8> {
    Seq::new(
        16,
        |i: int|
            if i % 2 == 0 {
                SIMPLE_KEY@[i / 2]
            } else {
                raw[i / 2]
            },
    )
}

/// The stream key in a raw key of the first form: its first eight bytes stand for
/// themselves, and the rest is wrapped.
pub open spec fn key_v1(raw: Seq<u8>) -> Result<Seq<u8>, Seq<char>> {
    if raw.len() < 16 {
        Err("key too short"@)
    } else {
        match unwrapped(raw.subrange(8, raw.len() as int), v1_wrapping_key(raw)) {
            Ok(rest) => Ok(raw.subrange(0, 8) + rest),
            Err(text) => Err(text),
        }
    }
}

/// The complaint about a text that is not Base64.
pub open spec fn base64_error(text: Seq<u8>) -> Seq<char> {
    "base64 error: "@ + base64_complaint(text)
}

/// The raw key of the first form in one of the second: it is wrapped twice, and what
/// comes out is Base64 again.
pub open spec fn key_v2(raw: Seq<u8>) -> Result<Seq<u8>, Seq<char>> {
    match unwrapped(raw, V2_OUTER_KEY@) {
        Ok(inner) => match unwrapped(inner, V2_INNER_KEY@) {
            Ok(text) => match base64_bytes(text) {
                Some(bytes) => Ok(bytes),
                None => Err(base64_error(text)),
            },
            Err(text) => Err(text),
        },
        Err(text) => Err(text),
    }
}

/// The stream key in the text of a wrapped key.
#[verifier::opaque]
pub open spec fn key_derived(text: Seq<u8>) -> Result<Seq<u8>, Seq<char>> {
    match base64_bytes(text) {
        Some(raw) => if V2_PREFIX@.is_prefix_of(raw) {
            match key_v2(raw.subrange(V2_PREFIX@.len() as int, raw.len() as int)) {
                Ok(inner) => key_v1(inner),
                Err(text) => Err(text),
            }
        } else {
            key_v1(raw)
        },
        None => Err(base64_error(text)),
    }
}

proof fn lemma_symbol_injective(a: int, b: int)
    requires
        0 <= a < 64,
        0 <= b < 64,
    ensures
        base64_symbol(a) == base64_symbol(b) ==> a == b,
        base64_symbol(a) != 61,
{
}

/// The four numbers that three bytes are written as.
#[verifier::opaque]
spec fn sextets(a: int, b: int, c: int) -> (int, int, int, int) {
    let n = 0x1_0000 * a + 0x100 * b + c;
    (n / 0x4_0000, n / 0x1000 % 64, n / 64 % 64, n % 64)
}

proof fn lemma_sextets(a: int, b: int, c: int)
    requires
        0 <= a < 0x100,
        0 <= b < 0x100,
        0 <= c < 0x100,
    ensures
        ({
            let (w, x, y, z) = sextets(a, b, c);
            &&& 0 <= w < 64 && 0 <= x < 64 && 0 <= y < 64 && 0 <= z < 64
            &&& 0x4_0000 * w + 0x1000 * x + 64 * y + z == 0x1_0000 * a + 0x100 * b + c
        }),
{
    reveal(sextets);
    let n = 0x1_0000 * a + 0x100 * b + c;
    let n1 = n / 64;
    let n2 = n / 0x1000;
    assert(n2 == n1 / 64);
    assert(n / 0x4_0000 == n2 / 64);
}

/// Byte `i` of `bytes`, or zero past its end.
spec fn byte_or_zero(bytes: Seq<u8>, i: int) -> int {
    if i < bytes.len() {
        bytes[i] as int
    } else {
        0
    }
}

/// The sextets of the first three bytes, zeros standing in for missing ones.
spec fn head_sextets(bytes: Seq<u8>) -> (int, int, int, int) {
    sextets(byte_or_zero(bytes, 0), byte_or_zero(bytes, 1), byte_or_zero(bytes, 2))
}

/// What is left after the first three bytes.
spec fn after_head(bytes: Seq<u8>) -> Seq<u8> {
    if bytes.len() >= 3 {
        bytes.subrange(3, bytes.len() as int)
    } else {
        Seq::empty()
    }
}

/// A text is one group of four symbols and the text of what is left.
proof fn lemma_text_head(bytes: Seq<u8>)
    requires
        bytes.len() > 0,
    ensures
        ({
            let text = base64_text(bytes);
            let (w, x, y, z) = head_sextets(bytes);
            &&& text.len() >= 4
            &&& text[0] == base64_symbol(w)
            &&& text[1] == base64_symbol(x)
            &&& text[2] == (if bytes.len() > 1 {
                base64_symbol(y)
            } else {
                61
            })
            &&& text[3] == (if bytes.len() > 2 {
                base64_symbol(z)
            } else {
                61
            })
            &&& text.subrange(4, text.len() as int) == base64_text(after_head(bytes))
        }),
{
    reveal(sextets);
    let text = base64_text(bytes);
    assert(text.subrange(4, text.len() as int) =~= base64_text(after_head(bytes)));
}

/// Bytes with one text agree in the first three, and in how many of those there are.
proof fn lemma_heads_agree(a: Seq<u8>, b: Seq<u8>)
    requires
        a.len() > 0,
        b.len() > 0,
        base64_text(a) == base64_text(b),
    ensures
        a.len() > 1 <==> b.len() > 1,
        a.len() > 2 <==> b.len() > 2,
        byte_or_zero(a, 0) == byte_or_zero(b, 0),
        byte_or_zero(a, 1) == byte_or_zero(b, 1),
        byte_or_zero(a, 2) == byte_or_zero(b, 2),
{
    lemma_text_head(a);
    lemma_text_head(b);
    let (a0, a1, a2) = (byte_or_zero(a, 0), byte_or_zero(a, 1), byte_or_zero(a, 2));
    let (b0, b1, b2) = (byte_or_zero(b, 0), byte_or_zero(b, 1), byte_or_zero(b, 2));
    lemma_sextets(a0, a1, a2);
    lemma_sextets(b0, b1, b2);
    let s = head_sextets(a);
    let t = head_sextets(b);
    lemma_symbol_injective(s.2, t.2);
    lemma_symbol_injective(t.2, s.2);
    lemma_symbol_injective(s.3, t.3);
    lemma_symbol_injective(t.3, s.3);
    lemma_symbol_injective(s.0, t.0);
    lemma_symbol_injective(s.1, t.1);
    if a.len() <= 2 {
        lemma_padded_sextets(a0, a1);
        lemma_padded_sextets(b0, b1);
    }
    if a.len() <= 1 {
        lemma_half_padded_sextets(a0);
        lemma_half_padded_sextets(b0);
    }
    assert(s == t);
}

proof fn lemma_padded_sextets(a: int, b: int)
    ensures
        sextets(a, b, 0).3 == 0,
{
    reveal(sextets);
}

proof fn lemma_half_padded_sextets(a: int)
    ensures
        sextets(a, 0, 0).2 == 0,
{
    reveal(sextets);
    assert(0x1_0000 * a / 64 == 0x400 * a);
}

/// A Base64 text encodes one sequence of bytes only.
pub proof fn law_base64_unambiguous(a: Seq<u8>, b: Seq<u8>)
    requires
        base64_text(a) == base64_text(b),
    ensures
        a == b,
    decreases a.len(),
{
    if a.len() == 0 {
        if b.len() > 0 {
            lemma_text_head(b);
        }
        assert(a =~= b);
    } else if b.len() == 0 {
        lemma_text_head(a);
    } else {
        lemma_heads_agree(a, b);
        lemma_text_head(a);
        lemma_text_head(b);
        if a.len() >= 3 {
            law_base64_unambiguous(after_head(a), after_head(b));
            assert forall|i: int| 0 <= i < a.len() implies a[i] == b[i] by {
                if i < 3 {
                    assert(byte_or_zero(a, i) == byte_or_zero(b, i));
                } else {
                    assert(after_head(a)[i - 3] == after_head(b)[i - 3]);
                }
            }
            assert(after_head(a).len() == after_head(b).len());
        }
        assert forall|i: int| 0 <= i < a.len() && i < 3 implies a[i] == b[i] by {
            assert(byte_or_zero(a, i) == byte_or_zero(b, i));
        }
        assert(a =~= b);
    }
}

/// Decodes a Base64 text.
fn decode_text(text: &[u8]) -> (res: Result<Vec<u8>, String>)
    ensures
        match res {
            Ok(bytes) => base64_bytes(text@) == Some(bytes@),
            Err(message) => base64_bytes(text@) is None && message@ == base64_error(text@),
        },
{
    match base64_decode(text) {
        Ok(bytes) => {
            proof {
                let chosen = choose|b: Seq<u8>| #[trigger] base64_text(b) == text@;
                assert(base64_text(bytes@) == text@);
                law_base64_unambiguous(bytes@, chosen);
            }
            Ok(bytes)
        },
        Err(complaint) => {
            let mut message = "base64 error: ".to_string();
            message.append(complaint.as_str());
            Err(message)
        },
    }
}

/// The stream key in a raw key of the first form.
pub fn derive_key_v1(raw: &[u8]) -> (res: Result<Vec<u8>, String>)
    ensures
        bytes_outcome(res) == key_v1(raw@),
{
    if raw.len() < 16 {
        return Err("key too short".to_string());
    }
    let mut key: Vec<u8> = Vec::new();
    for i in 0..8
        invariant
            raw@.len() >= 16,
            key@.len() == 2 * i,
            forall|x: int| 0 <= x < key@.len() ==> key@[x] == #[trigger] v1_wrapping_key(raw@)[x],
    {
        key.push(SIMPLE_KEY[i]);
        key.push(raw[i]);
    }
    assert(key@ =~= v1_wrapping_key(raw@));
    let rest = decrypt_tencent_tea(&raw[8..raw.len()], key.as_slice())?;
    let mut result = copy_range(raw, 0, 8);
    append(&mut result, rest.as_slice());
    Ok(result)
}

/// The raw key of the first form in one of the second.
pub fn derive_key_v2(raw: &[u8]) -> (res: Result<Vec<u8>, String>)
    ensures
        bytes_outcome(res) == key_v2(raw@),
{
    let inner = decrypt_tencent_tea(raw, &V2_OUTER_KEY)?;
    let text = decrypt_tencent_tea(inner.as_slice(), &V2_INNER_KEY)?;
    decode_text(text.as_slice())
}

/// The stream key in the text of a wrapped key.
pub fn derive_key(ekey: &str) -> (res: Result<Vec<u8>, String>)
    ensures
        bytes_outcome(res) == key_derived(encode_utf8(ekey@)),
{
    proof {
        reveal(key_derived);
    }
    let raw = decode_text(ekey.as_bytes())?;
    if starts_with(raw.as_slice(), &V2_PREFIX) {
        let inner = derive_key_v2(&raw.as_slice()[V2_PREFIX.len()..raw.len()])?;
        derive_key_v1(inner.as_slice())
    } else {
        derive_key_v1(raw.as_slice())
    }
}

proof fn lemma_base64_round_trip(bytes: Seq<u8>)
    ensures
        base64_bytes(base64_text(bytes)) == Some(bytes),
{
    let chosen = choose|b: Seq<u8>| #[trigger] base64_text(b) == base64_text(bytes);
    law_base64_unambiguous(bytes, chosen);
}

/// The text of raw bytes is opened by what they begin with: behind the prefix of the second
/// form they are unwrapped first, and without it they are a key of the first form.
pub proof fn law_form_by_prefix(raw: Seq<u8>)
    ensures
        !V2_PREFIX@.is_prefix_of(raw) ==> key_derived(base64_text(raw)) == key_v1(raw),
        V2_PREFIX@.is_prefix_of(raw) ==> key_derived(base64_text(raw)) == (match key_v2(
            raw.subrange(V2_PREFIX@.len() as int, raw.len() as int),
        ) {
            Ok(inner) => key_v1(inner),
            Err(text) => Err(text),
        }),
{
    reveal(key_derived);
    lemma_base64_round_trip(raw);
}

/// A text that is not Base64 is refused, and so is the empty text, as too short.
pub proof fn law_texts_without_key(text: Seq<u8>)
    ensures
        base64_bytes(text) is None ==> key_derived(text) == Err::<Seq<u8>, Seq<char>>(
            base64_error(text),
        ),
        text.len() == 0 ==> key_derived(text) == Err::<Seq<u8>, Seq<char>>("key too short"@),
{
    reveal(key_derived);
    if text.len() == 0 {
        let none = Seq::<u8>::empty();
        assert(base64_text(none) =~= text);
        law_form_by_prefix(none);
    }
}

/// A key that was wrapped in the first form is derived again: eight bytes, and behind
/// them what the frame carries. A raw key that happens to begin like one of the second
/// form is read as such and is left out.
pub proof fn law_v1_key_round_trip(head: Seq<u8>, message: Seq<u8>)
    requires
        head.len() == 8,
        is_frame(message),
        !V2_PREFIX@.is_prefix_of(head + wrapped(message, v1_wrapping_key(head))),
    ensures
        key_derived(base64_text(head + wrapped(message, v1_wrapping_key(head)))) == Ok::<
            Seq<u8>,
            Seq<char>,
        >(head + frame_content(message)),
{
    let raw = head + wrapped(message, v1_wrapping_key(head));
    reveal(key_derived);
    lemma_base64_round_trip(raw);
    assert(v1_wrapping_key(raw) =~= v1_wrapping_key(head));
    assert(raw.subrange(8, raw.len() as int) =~= wrapped(message, v1_wrapping_key(head)));
    assert(raw.subrange(0, 8) =~= head);
    law_unwrap_inverts_wrap(message, v1_wrapping_key(head));
}

/// A raw key that was wrapped in the second form, its text wrapped once and the result
/// wrapped again behind the prefix, is derived as the raw key itself is.
pub proof fn law_v2_key_round_trip(raw: Seq<u8>, inner: Seq<u8>, outer: Seq<u8>)
    requires
        is_frame(inner),
        frame_content(inner) == base64_text(raw),
        is_frame(outer),
        frame_content(outer) == wrapped(inner, V2_INNER_KEY@),
    ensures
        key_derived(base64_text(V2_PREFIX@ + wrapped(outer, V2_OUTER_KEY@))) == key_v1(raw),
{
    let whole = V2_PREFIX@ + wrapped(outer, V2_OUTER_KEY@);
    reveal(key_derived);
    lemma_base64_round_trip(whole);
    lemma_base64_round_trip(raw);
    assert(V2_PREFIX@ =~= whole.subrange(0, V2_PREFIX@.len() as int));
    assert(whole.subrange(V2_PREFIX@.len() as int, whole.len() as int) =~= wrapped(
        outer,
        V2_OUTER_KEY@,
    ));
    law_unwrap_inverts_wrap(outer, V2_OUTER_KEY@);
    law_unwrap_inverts_wrap(inner, V2_INNER_KEY@);
}

proof fn lemma_v1_lengths(raw: Seq<u8>)
    requires
        key_v1(raw) is Ok,
    ensures
        raw.len() >= 16,
        key_v1(raw)->Ok_0.len() >= 8,
{
}

/// A text that a stream key comes out of is not empty, and neither is the key: there is
/// a cipher for every key that can be derived.
pub proof fn law_derived_key_not_empty(text: Seq<u8>)
    requires
        key_derived(text) is Ok,
    ensures
        text.len() > 0,
        key_derived(text)->Ok_0.len() > 0,
{
    reveal(key_derived);
    let raw = base64_bytes(text)->Some_0;
    if V2_PREFIX@.is_prefix_of(raw) {
        lemma_v1_lengths(key_v2(raw.subrange(V2_PREFIX@.len() as int, raw.len() as int))->Ok_0);
    } else {
        lemma_v1_lengths(raw);
    }
    assert(raw.len() > 0);
    assert(base64_text(raw) == text);
    lemma_text_head(raw);
}

/// The symbols of Base64 in their order.
pub proof fn law_base64_alphabet(value: int)
    requires
        0 <= value < 64,
    ensures
        base64_symbol(value) as int
            == "ABCDEFGHIJKLMNOPQRSTUVWXYZabcdefghijklmnopqrstuvwxyz0123456789+/"@[value] as int,
{
    reveal_strlit("ABCDEFGHIJKLMNOPQRSTUVWXYZabcdefghijklmnopqrstuvwxyz0123456789+/");
}

/// Three bytes are written as the four symbols of the numbers below 64 that make up the same
/// 24 bits, and what is left behind them as if it stood alone. One or two bytes at the end
/// are followed by zeros to that end, and symbols that hold nothing of them give way to "=".
pub proof fn law_base64_group(bytes: Seq<u8>, w: int, x: int, y: int, z: int)
    requires
        bytes.len() > 0,
        0 <= w < 64,
        0 <= x < 64,
        0 <= y < 64,
        0 <= z < 64,
        0x4_0000 * w + 0x1000 * x + 64 * y + z == 0x1_0000 * bytes[0] + (if bytes.len() > 1 {
            0x100 * bytes[1]
        } else {
            0
        }) + (if bytes.len() > 2 {
            bytes[2] as int
        } else {
            0
        }),
    ensures
        ({
            let text = base64_text(bytes);
            &&& text.len() >= 4
            &&& text[0] == base64_symbol(w)
            &&& text[1] == base64_symbol(x)
            &&& text[2] == (if bytes.len() > 1 {
                base64_symbol(y)
            } else {
                61
            })
            &&& text[3] == (if bytes.len() > 2 {
                base64_symbol(z)
            } else {
                61
            })
            &&& bytes.len() <= 3 ==> text.len() == 4
            &&& bytes.len() > 3 ==> text.subrange(4, text.len() as int) == base64_text(
                bytes.subrange(3, bytes.len() as int),
            )
        }),
{
    lemma_text_head(bytes);
    let (a, b, c) = (byte_or_zero(bytes, 0), byte_or_zero(bytes, 1), byte_or_zero(bytes, 2));
    lemma_sextets(a, b, c);
    let (w0, x0, y0, z0) = sextets(a, b, c);
    assert(w == w0 && x == x0 && y == y0 && z == z0);
    assert(base64_text(Seq::<u8>::empty()) =~= Seq::<u8>::empty());
    if bytes.len() == 3 {
        assert(after_head(bytes) =~= Seq::<u8>::empty());
    }
}

/// A raw key of the first form: its first eight bytes stand for themselves, and what follows
/// is unwrapped under a key in which they alternate with eight fixed bytes. One of fewer
/// than sixteen bytes is refused.
pub proof fn law_first_form(raw: Seq<u8>, key: Seq<u8>)
    requires
        raw.len() >= 16 ==> key.len() == 16 && key[0] == 105 && key[2] == 86 && key[4] == 70
            && key[6] == 56 && key[8] == 43 && key[10] == 32 && key[12] == 21 && key[14] == 11,
        raw.len() >= 16 ==> forall|i: int| 0 <= i < 8 ==> key[2 * i + 1] == #[trigger] raw[i],
    ensures
        raw.len() < 16 ==> key_v1(raw) == Err::<Seq<u8>, Seq<char>>("key too short"@),
        raw.len() >= 16 ==> (match unwrapped(raw.subrange(8, raw.len() as int), key) {
            Ok(rest) => key_v1(raw) matches Ok(found) && found.len() == 8 + rest.len()
                && found.subrange(0, 8) == raw.subrange(0, 8) && found.subrange(
                8,
                found.len() as int,
            ) == rest,
            Err(text) => key_v1(raw) == Err::<Seq<u8>, Seq<char>>(text),
        }),
{
    if raw.len() >= 16 {
        assert forall|i: int| 0 <= i < 16 implies #[trigger] key[i] == v1_wrapping_key(raw)[i] by {
            if i % 2 == 1 {
                assert(key[2 * (i / 2) + 1] == raw[i / 2]);
            }
        }
        assert(key =~= v1_wrapping_key(raw));
        if key_v1(raw) is Ok {
            let found = key_v1(raw)->Ok_0;
            let rest = unwrapped(raw.subrange(8, raw.len() as int), key)->Ok_0;
            assert(found == raw.subrange(0, 8) + rest);
            assert(found.subrange(0, 8) =~= raw.subrange(0, 8));
            assert(found.subrange(8, found.len() as int) =~= rest);
        }
    }
}

/// A raw key of the second form: it is unwrapped under one fixed key, what comes out under
/// another, and that is the text of the raw key of the first form.
pub proof fn law_second_form(
    raw: Seq<u8>,
    outer: Seq<u8>,
    inner: Seq<u8>,
    once: Seq<u8>,
    bytes: Seq<u8>,
)
    requires
        outer == seq![
            0x33u8,
            0x38,
            0x36,
            0x5a,
            0x4a,
            0x59,
            0x21,
            0x40,
            0x23,
            0x2a,
            0x24,
            0x25,
            0x5e,
            0x26,
            0x29,
            0x28,
        ],
        inner == seq![
            0x2au8,
            0x2a,
            0x23,
            0x21,
            0x28,
            0x23,
            0x24,
            0x25,
            0x26,
            0x5e,
            0x61,
            0x31,
            0x63,
            0x5a,
            0x2c,
            0x54,
        ],
        unwrapped(raw, outer) == Ok::<Seq<u8>, Seq<char>>(once),
        unwrapped(once, inner) == Ok::<Seq<u8>, Seq<char>>(base64_text(bytes)),
    ensures
        key_v2(raw) == Ok::<Seq<u8>, Seq<char>>(bytes),
{
    assert(V2_OUTER_KEY@ =~= outer);
    assert(V2_INNER_KEY@ =~= inner);
    lemma_base64_round_trip(bytes);
}

/// Raw bytes are of the second form if they begin with "QQMusic EncV2,Key:".
pub proof fn law_second_form_told(raw: Seq<u8>)
    ensures
        V2_PREFIX@.is_prefix_of(raw) <==> raw.len() >= 18 && forall|i: int|
            0 <= i < 18 ==> raw[i] as int == #[trigger] "QQMusic EncV2,Key:"@[i] as int,
{
    reveal_strlit("QQMusic EncV2,Key:");
    let text = "QQMusic EncV2,Key:"@;
    assert(forall|i: int| 0 <= i < 18 ==> #[trigger] text[i] as int == V2_PREFIX@[i]);
    crate::audio::lemma_prefix_bytes(V2_PREFIX@, raw);
    if raw.len() >= 18 && forall|i: int| 0 <= i < 18 ==> raw[i] as int == #[trigger] text[i] as int {
        assert forall|i: int| 0 <= i < 18 implies #[trigger] V2_PREFIX@[i] == raw[i] by {
            assert(text[i] as int == V2_PREFIX@[i]);
        }
    }
}

} // verus!
