//! The block cipher that wraps file keys, and the chained mode it is used in.
use crate::bytes::{be32, be32_at, be32_bytes, bytes_outcome, lemma_be32_inverse};
use vstd::prelude::*;

verus! {

/// What the running sum of the rounds grows by in each of them.
pub const TEA_DELTA: u32 = 0x9e37_79b9;

/// Rounds that a block goes through.
pub const TEA_ROUNDS: u32 = 16;

/// Salt bytes in front of a wrapped message.
pub const SALT_LEN: usize = 2;

/// Closing bytes behind a wrapped message.
pub const ZERO_LEN: usize = 7;

/// The running sum in round `round`, counted from one.
pub open spec fn round_sum(round: nat) -> u32 {
    ((TEA_DELTA * round) % 0x1_0000_0000) as u32
}

/// What one half of a block adds to the other: `a` and `b` are two words of the key.
pub open spec fn half_round(x: u32, sum: u32, a: u32, b: u32) -> u32 {
    (x << 4u32).wrapping_add(a) ^ x.wrapping_add(sum) ^ (x >> 5u32).wrapping_add(b)
}

/// Word `i` of a key, whose words are big-endian.
pub open spec fn key_word(key: Seq<u8>, i: int) -> u32 {
    be32_at(key, 4 * i) as u32
}

/// The halves of a block after the first `rounds` rounds of encryption.
pub open spec fn rounds_done(halves: (u32, u32), key: Seq<u8>, rounds: nat) -> (u32, u32)
    decreases rounds,
{
    if rounds == 0 {
        halves
    } else {
        let (x, y) = rounds_done(halves, key, (rounds - 1) as nat);
        let sum = round_sum(rounds);
        let x1 = x.wrapping_add(half_round(y, sum, key_word(key, 0), key_word(key, 1)));
        let y1 = y.wrapping_add(half_round(x1, sum, key_word(key, 2), key_word(key, 3)));
        (x1, y1)
    }
}

/// The halves of a block before its last `rounds` rounds of encryption: the rounds are
/// taken back from the last one to the first.
pub open spec fn rounds_undone(halves: (u32, u32), key: Seq<u8>, rounds: nat) -> (u32, u32)
    decreases rounds,
{
    if rounds == 0 {
        halves
    } else {
        let (x, y) = halves;
        let sum = round_sum(rounds);
        let y1 = y.wrapping_sub(half_round(x, sum, key_word(key, 2), key_word(key, 3)));
        let x1 = x.wrapping_sub(half_round(y1, sum, key_word(key, 0), key_word(key, 1)));
        rounds_undone((x1, y1), key, (rounds - 1) as nat)
    }
}

/// The two halves of a block, which are big-endian.
pub open spec fn block_halves(block: Seq<u8>) -> (u32, u32) {
    (be32_at(block, 0) as u32, be32_at(block, 4) as u32)
}

/// The block with the given halves.
pub open spec fn block_of(halves: (u32, u32)) -> Seq<u8> {
    be32_bytes(halves.0) + be32_bytes(halves.1)
}

/// The eight bytes of `block` decrypted.
pub open spec fn block_decrypted(block: Seq<u8>, key: Seq<u8>) -> Seq<u8> {
    block_of(rounds_undone(block_halves(block), key, TEA_ROUNDS as nat))
}

/// The eight bytes of `block` encrypted.
pub open spec fn block_encrypted(block: Seq<u8>, key: Seq<u8>) -> Seq<u8> {
    block_of(rounds_done(block_halves(block), key, TEA_ROUNDS as nat))
}

/// The running sum of the round before.
proof fn lemma_sum_back(round: nat)
    requires
        0 < round,
    ensures
        round_sum(round).wrapping_sub(TEA_DELTA) == round_sum((round - 1) as nat),
{
    let modulus = 0x1_0000_0000int;
    let before = TEA_DELTA * (round - 1);
    let now = TEA_DELTA * round;
    assert(now == before + TEA_DELTA) by (nonlinear_arith)
        requires
            now == TEA_DELTA * round,
            before == TEA_DELTA * (round - 1),
    ;
    vstd::arithmetic::div_mod::lemma_fundamental_div_mod(before, modulus);
    let q = before / modulus;
    let r = before % modulus;
    if r + TEA_DELTA < modulus {
        vstd::arithmetic::div_mod::lemma_fundamental_div_mod_converse(
            now,
            modulus,
            q,
            r + TEA_DELTA,
        );
    } else {
        vstd::arithmetic::div_mod::lemma_fundamental_div_mod_converse(
            now,
            modulus,
            q + 1,
            r + TEA_DELTA - modulus,
        );
    }
}

/// Decrypts the first eight bytes of `block` under the first sixteen of `key`.
pub fn tea_decrypt_block(block: &[u8], key: &[u8]) -> (plain: [u8; 8])
    requires
        block@.len() >= 8,
        key@.len() >= 16,
    ensures
        plain@ == block_decrypted(block@, key@),
{
    let mut x = be32(block, 0);
    let mut y = be32(block, 4);
    let k0 = be32(key, 0);
    let k1 = be32(key, 4);
    let k2 = be32(key, 8);
    let k3 = be32(key, 12);
    let mut sum = TEA_DELTA.wrapping_mul(TEA_ROUNDS);
    let mut left: u32 = TEA_ROUNDS;
    while left > 0
        invariant
            left <= 16,
            sum == round_sum(left as nat),
            k0 == key_word(key@, 0),
            k1 == key_word(key@, 1),
            k2 == key_word(key@, 2),
            k3 == key_word(key@, 3),
            rounds_undone((x, y), key@, left as nat) == rounds_undone(
                block_halves(block@),
                key@,
                TEA_ROUNDS as nat,
            ),
        decreases left,
    {
        let t = (x << 4u32).wrapping_add(k2) ^ x.wrapping_add(sum) ^ (x >> 5u32).wrapping_add(k3);
        y = y.wrapping_sub(t);
        let t = (y << 4u32).wrapping_add(k0) ^ y.wrapping_add(sum) ^ (y >> 5u32).wrapping_add(k1);
        x = x.wrapping_sub(t);
        proof {
            lemma_sum_back(left as nat);
        }
        sum = sum.wrapping_sub(TEA_DELTA);
        left = left - 1;
    }
    let plain: [u8; 8] = [
        (x / 0x100_0000) as u8,
        (x / 0x1_0000 % 0x100) as u8,
        (x / 0x100 % 0x100) as u8,
        (x % 0x100) as u8,
        (y / 0x100_0000) as u8,
        (y / 0x1_0000 % 0x100) as u8,
        (y / 0x100 % 0x100) as u8,
        (y % 0x100) as u8,
    ];
    assert(plain@ =~= block_of((x, y)));
    plain
}

/// Two byte sequences combined bit by bit; the first gives the length.
pub open spec fn xored(a: Seq<u8>, b: Seq<u8>) -> Seq<u8> {
    Seq::new(a.len(), |i: int| a[i] ^ b[i])
}

/// Block `i` of `data`.
pub open spec fn block_at(data: Seq<u8>, i: int) -> Seq<u8> {
    data.subrange(8 * i, 8 * i + 8)
}

/// What the block cipher gives for block `i` of a wrapped message: each block is
/// combined with the one before it on its way in.
pub open spec fn chained(input: Seq<u8>, key: Seq<u8>, i: nat) -> Seq<u8>
    decreases i,
{
    if i == 0 {
        block_decrypted(block_at(input, 0), key)
    } else {
        block_decrypted(xored(chained(input, key, (i - 1) as nat), block_at(input, i as int)), key)
    }
}

/// The byte at index `p` of the message, its frame included: the block cipher's byte
/// combined with the wrapped byte one block earlier.
pub open spec fn framed_byte(input: Seq<u8>, key: Seq<u8>, p: int) -> u8 {
    let byte = chained(input, key, (p / 8) as nat)[p % 8];
    if p < 8 {
        byte
    } else {
        byte ^ input[p - 8]
    }
}

/// The number of filler bytes, which the first byte of the message gives.
pub open spec fn filler_len(input: Seq<u8>, key: Seq<u8>) -> int {
    chained(input, key, 0)[0] as int % 8
}

/// The message inside `input`: behind one length byte, the filler and the salt, and in
/// front of the closing bytes.
pub open spec fn unwrapped(input: Seq<u8>, key: Seq<u8>) -> Result<Seq<u8>, Seq<char>> {
    let filler = filler_len(input, key);
    if input.len() % 8 != 0 || input.len() < 16 {
        Err("invalid TEA input"@)
    } else if input.len() < 1 + filler + SALT_LEN + ZERO_LEN {
        Err("invalid TEA padding"@)
    } else {
        Ok(
            Seq::new(
                (input.len() - (1 + filler + SALT_LEN + ZERO_LEN)) as nat,
                |i: int| framed_byte(input, key, 1 + filler + SALT_LEN + i),
            ),
        )
    }
}

/// Takes a message out of its wrapping under the first sixteen bytes of `key`.
pub fn decrypt_tencent_tea(input: &[u8], key: &[u8]) -> (res: Result<Vec<u8>, String>)
    requires
        input@.len() % 8 == 0 && input@.len() >= 16 ==> key@.len() >= 16,
    ensures
        bytes_outcome(res) == unwrapped(input@, key@),
{
    let len = input.len();
    if len % 8 != 0 || len < 16 {
        return Err("invalid TEA input".to_string());
    }
    let mut plain = tea_decrypt_block(&input[0..8], key);
    assert(plain@.len() == 8);
    let filler = (plain[0] % 8) as usize;
    if len < 1 + filler + SALT_LEN + ZERO_LEN {
        return Err("invalid TEA padding".to_string());
    }
    let start = 1 + filler + SALT_LEN;
    let end = len - ZERO_LEN;
    let mut out: Vec<u8> = Vec::new();
    let mut block: usize = 0;
    let mut p = start;
    while p < end
        invariant
            key@.len() >= 16,
            len == input@.len(),
            len % 8 == 0,
            start <= p <= end,
            end < len,
            8 * block < len,
            8 * block <= p,
            plain@ == chained(input@, key@, block as nat),
            out@.len() == p - start,
            forall|i: int|
                0 <= i < p - start ==> #[trigger] out@[i] == framed_byte(input@, key@, start + i),
        decreases end - p, len - 8 * block,
    {
        if p - 8 * block < 8 {
            let byte = plain[p - 8 * block];
            if p < 8 {
                out.push(byte);
            } else {
                out.push(byte ^ input[p - 8]);
            }
            p = p + 1;
        } else {
            let next = 8 * (block + 1);
            let mut mixed: [u8; 8] = [0;8];
            for i in 0..8
                invariant
                    len == input@.len(),
                    next + 8 <= len,
                    forall|x: int| 0 <= x < i ==> mixed@[x] == plain@[x] ^ input@[next + x],
            {
                mixed[i] = plain[i] ^ input[next + i];
            }
            assert(mixed@ =~= xored(plain@, block_at(input@, block + 1)));
            plain = tea_decrypt_block(&mixed, key);
            block = block + 1;
        }
    }
    assert(out@ =~= unwrapped(input@, key@)->Ok_0);
    Ok(out)
}

proof fn lemma_add_then_subtract(a: u32, b: u32)
    ensures
        a.wrapping_add(b).wrapping_sub(b) == a,
{
}

proof fn lemma_rounds_inverse(halves: (u32, u32), key: Seq<u8>, rounds: nat)
    ensures
        rounds_undone(rounds_done(halves, key, rounds), key, rounds) == halves,
    decreases rounds,
{
    if rounds > 0 {
        lemma_rounds_inverse(halves, key, (rounds - 1) as nat);
        let (x, y) = rounds_done(halves, key, (rounds - 1) as nat);
        let sum = round_sum(rounds);
        let f = half_round(y, sum, key_word(key, 0), key_word(key, 1));
        let x1 = x.wrapping_add(f);
        let g = half_round(x1, sum, key_word(key, 2), key_word(key, 3));
        lemma_add_then_subtract(y, g);
        lemma_add_then_subtract(x, f);
    }
}

/// Decryption takes every block back from its encryption, under every key.
pub proof fn law_block_round_trip(block: Seq<u8>, key: Seq<u8>)
    requires
        block.len() == 8,
        key.len() >= 16,
    ensures
        block_encrypted(block, key).len() == 8,
        block_decrypted(block_encrypted(block, key), key) == block,
{
    let halves = block_halves(block);
    let done = rounds_done(halves, key, TEA_ROUNDS as nat);
    lemma_rounds_inverse(halves, key, TEA_ROUNDS as nat);
    let wrapped = block_of(done);
    lemma_be32_inverse(block, 0, done.0);
    lemma_be32_inverse(block, 4, done.1);
    assert(wrapped.subrange(0, 4) =~= be32_bytes(done.0));
    assert(wrapped.subrange(4, 8) =~= be32_bytes(done.1));
    assert(block_halves(wrapped) == done);
    assert(block =~= block.subrange(0, 4) + block.subrange(4, 8));
}

/// `byte` with its top bit flipped.
pub open spec fn top_flipped(byte: u8) -> u8 {
    byte ^ 0x80
}

/// Whether two keys agree at the indices `i` and `j`, or differ there in the top bits of
/// both bytes and nothing else.
pub open spec fn tops_paired(key: Seq<u8>, other: Seq<u8>, i: int, j: int) -> bool {
    ||| other[i] == key[i] && other[j] == key[j]
    ||| other[i] == top_flipped(key[i]) && other[j] == top_flipped(key[j])
}

/// Whether two keys are the same to the block cipher: their first sixteen bytes agree, but
/// for the top bits of the first two words, which may be flipped together, and of the last
/// two words, likewise.
pub open spec fn same_key(key: Seq<u8>, other: Seq<u8>) -> bool {
    &&& forall|i: int| 0 <= i < 16 && i % 4 != 0 ==> #[trigger] other[i] == key[i]
    &&& tops_paired(key, other, 0, 4)
    &&& tops_paired(key, other, 8, 12)
}

proof fn lemma_top_of_sum(x: u32, a: u32)
    ensures
        x.wrapping_add(a ^ 0x8000_0000) == x.wrapping_add(a) ^ 0x8000_0000,
{
    assert(({
        let b = a ^ 0x8000_0000;
        let plain: u32 = if x + a > 0xffff_ffff {
            (x + a - 0x1_0000_0000) as u32
        } else {
            (x + a) as u32
        };
        let other: u32 = if x + b > 0xffff_ffff {
            (x + b - 0x1_0000_0000) as u32
        } else {
            (x + b) as u32
        };
        other == plain ^ 0x8000_0000
    })) by (bit_vector);
}

proof fn lemma_tops_cancel(x: u32, sum: u32, a: u32, b: u32)
    ensures
        half_round(x, sum, a ^ 0x8000_0000, b ^ 0x8000_0000) == half_round(x, sum, a, b),
{
    lemma_top_of_sum(x << 4u32, a);
    lemma_top_of_sum(x >> 5u32, b);
    let p = (x << 4u32).wrapping_add(a);
    let q = x.wrapping_add(sum);
    let r = (x >> 5u32).wrapping_add(b);
    assert((p ^ 0x8000_0000) ^ q ^ (r ^ 0x8000_0000) == p ^ q ^ r) by (bit_vector);
}

proof fn lemma_top_of_word(key: Seq<u8>, other: Seq<u8>, i: int)
    requires
        0 <= i < 4,
        other[4 * i] == top_flipped(key[4 * i]),
        other[4 * i + 1] == key[4 * i + 1],
        other[4 * i + 2] == key[4 * i + 2],
        other[4 * i + 3] == key[4 * i + 3],
    ensures
        key_word(other, i) == key_word(key, i) ^ 0x8000_0000,
{
    let top = key[4 * i];
    let rest: u32 = (0x1_0000 * key[4 * i + 1] + 0x100 * key[4 * i + 2] + key[4 * i + 3]) as u32;
    assert(({
        let flipped = top ^ 0x80;
        (0x100_0000 * flipped + rest) as u32 == ((0x100_0000 * top + rest) as u32) ^ 0x8000_0000
    })) by (bit_vector)
        requires
            rest < 0x100_0000,
    ;
    assert(key_word(key, i) == (0x100_0000 * top + rest) as u32);
    assert(key_word(other, i) == (0x100_0000 * (top ^ 0x80) + rest) as u32);
}

proof fn lemma_same_half_round(
    key: Seq<u8>,
    other: Seq<u8>,
    i: int,
    x: u32,
    sum: u32,
)
    requires
        i == 0 || i == 2,
        same_key(key, other),
    ensures
        half_round(x, sum, key_word(other, i), key_word(other, i + 1)) == half_round(
            x,
            sum,
            key_word(key, i),
            key_word(key, i + 1),
        ),
{
    if other[4 * i] == key[4 * i] && other[4 * i + 4] == key[4 * i + 4] {
        assert(key_word(other, i) == key_word(key, i));
        assert(key_word(other, i + 1) == key_word(key, i + 1));
    } else {
        lemma_top_of_word(key, other, i);
        lemma_top_of_word(key, other, i + 1);
        lemma_tops_cancel(x, sum, key_word(key, i), key_word(key, i + 1));
    }
}

proof fn lemma_same_rounds(halves: (u32, u32), key: Seq<u8>, other: Seq<u8>, rounds: nat)
    requires
        same_key(key, other),
    ensures
        rounds_undone(halves, other, rounds) == rounds_undone(halves, key, rounds),
    decreases rounds,
{
    if rounds > 0 {
        let (x, y) = halves;
        let sum = round_sum(rounds);
        lemma_same_half_round(key, other, 2, x, sum);
        let y1 = y.wrapping_sub(half_round(x, sum, key_word(key, 2), key_word(key, 3)));
        lemma_same_half_round(key, other, 0, y1, sum);
        let x1 = x.wrapping_sub(half_round(y1, sum, key_word(key, 0), key_word(key, 1)));
        lemma_same_rounds((x1, y1), key, other, (rounds - 1) as nat);
    }
}

/// Every key has three others that decrypt alike: the top bits of its first two words may
/// be flipped together, and so may those of its last two. What follows the first eight
/// bytes of a block or the first sixteen of a key does not matter.
pub proof fn law_equivalent_keys(
    block: Seq<u8>,
    other_block: Seq<u8>,
    key: Seq<u8>,
    other_key: Seq<u8>,
)
    requires
        block.len() >= 8,
        other_block.len() >= 8,
        other_block.subrange(0, 8) == block.subrange(0, 8),
        key.len() >= 16,
        other_key.len() >= 16,
        same_key(key, other_key),
    ensures
        block_decrypted(other_block, other_key) == block_decrypted(block, key),
{
    assert forall|i: int| 0 <= i < 8 implies #[trigger] other_block[i] == block[i] by {
        assert(other_block.subrange(0, 8)[i] == other_block[i]);
        assert(block.subrange(0, 8)[i] == block[i]);
    }
    assert(block_halves(other_block) == block_halves(block));
    lemma_same_rounds(block_halves(block), key, other_key, TEA_ROUNDS as nat);
}

/// How block `i` of a framed message is wrapped: the value that goes into the block
/// cipher and the wrapped block that comes out of the chain.
pub open spec fn wrapping(message: Seq<u8>, key: Seq<u8>, i: nat) -> (Seq<u8>, Seq<u8>)
    decreases i,
{
    if i == 0 {
        (block_at(message, 0), block_encrypted(block_at(message, 0), key))
    } else {
        let (before, wrapped) = wrapping(message, key, (i - 1) as nat);
        let inner = xored(block_at(message, i as int), wrapped);
        (inner, xored(block_encrypted(inner, key), before))
    }
}

/// The wrapping of a framed message, whose length is a multiple of eight.
pub open spec fn wrapped(message: Seq<u8>, key: Seq<u8>) -> Seq<u8> {
    Seq::new(message.len(), |p: int| wrapping(message, key, (p / 8) as nat).1[p % 8])
}

proof fn lemma_wrapping_shape(message: Seq<u8>, key: Seq<u8>, i: nat)
    requires
        8 * i + 8 <= message.len(),
    ensures
        wrapping(message, key, i).0.len() == 8,
        wrapping(message, key, i).1.len() == 8,
    decreases i,
{
    if i > 0 {
        lemma_wrapping_shape(message, key, (i - 1) as nat);
    }
}

proof fn lemma_wrapped_block(message: Seq<u8>, key: Seq<u8>, i: nat)
    requires
        8 * i + 8 <= message.len(),
    ensures
        block_at(wrapped(message, key), i as int) == wrapping(message, key, i).1,
{
    lemma_wrapping_shape(message, key, i);
    assert(block_at(wrapped(message, key), i as int) =~= wrapping(message, key, i).1);
}

proof fn lemma_xor_cancels(a: Seq<u8>, b: Seq<u8>)
    requires
        a.len() == b.len(),
    ensures
        xored(xored(a, b), b) == a,
        xored(b, xored(a, b)) == a,
{
    assert forall|i: int| 0 <= i < a.len() implies #[trigger] (a[i] ^ b[i]) ^ b[i] == a[i] && b[i]
        ^ (a[i] ^ b[i]) == a[i] by {
        let x = a[i];
        let y = b[i];
        assert((x ^ y) ^ y == x && y ^ (x ^ y) == x) by (bit_vector);
    }
    assert(xored(xored(a, b), b) =~= a);
    assert(xored(b, xored(a, b)) =~= a);
}

proof fn lemma_chain_inverse(message: Seq<u8>, key: Seq<u8>, i: nat)
    requires
        8 * i + 8 <= message.len(),
        key.len() >= 16,
    ensures
        chained(wrapped(message, key), key, i) == wrapping(message, key, i).0,
    decreases i,
{
    lemma_wrapped_block(message, key, i);
    lemma_wrapping_shape(message, key, i);
    let (inner, out) = wrapping(message, key, i);
    law_block_round_trip(inner, key);
    if i > 0 {
        lemma_chain_inverse(message, key, (i - 1) as nat);
        lemma_wrapping_shape(message, key, (i - 1) as nat);
        let before = wrapping(message, key, (i - 1) as nat).0;
        lemma_xor_cancels(block_encrypted(inner, key), before);
    }
}

proof fn lemma_inner_byte(message: Seq<u8>, key: Seq<u8>, i: nat, r: int)
    requires
        0 < i,
        8 * i + 8 <= message.len(),
        0 <= r < 8,
    ensures
        wrapping(message, key, i).0[r] == message[8 * i + r] ^ wrapped(message, key)[8 * i + r - 8],
{
    let before = wrapping(message, key, (i - 1) as nat).1;
    lemma_wrapping_shape(message, key, (i - 1) as nat);
    let q = 8 * i + r - 8;
    assert(q / 8 == i - 1 && q % 8 == r);
    assert(wrapped(message, key)[q] == before[r]);
    assert(block_at(message, i as int)[r] == message[8 * i + r]);
}

proof fn lemma_framed_byte_inverse(message: Seq<u8>, key: Seq<u8>, p: int)
    requires
        key.len() >= 16,
        message.len() % 8 == 0,
        0 <= p < message.len(),
    ensures
        framed_byte(wrapped(message, key), key, p) == message[p],
{
    let input = wrapped(message, key);
    let i = (p / 8) as nat;
    let r = p % 8;
    assert(p == 8 * i + r);
    assert(8 * i + 8 <= message.len());
    lemma_chain_inverse(message, key, i);
    if i > 0 {
        lemma_inner_byte(message, key, i, r);
        let a = message[p];
        let b = input[p - 8];
        assert((a ^ b) ^ b == a) by (bit_vector);
    } else {
        assert(wrapping(message, key, i).0 == block_at(message, 0));
    }
}

/// Whether `message` is framed: whole blocks, at least two of them, with room for the
/// length byte, the filler, the salt and the closing bytes.
pub open spec fn is_frame(message: Seq<u8>) -> bool {
    &&& message.len() % 8 == 0
    &&& message.len() >= 16
    &&& message.len() >= 1 + message[0] as int % 8 + SALT_LEN + ZERO_LEN
}

/// What a framed message carries.
pub open spec fn frame_content(message: Seq<u8>) -> Seq<u8> {
    message.subrange(1 + message[0] as int % 8 + SALT_LEN, message.len() - ZERO_LEN)
}

/// Unwrapping gives back what was wrapped, for every frame and every key.
pub proof fn law_unwrap_inverts_wrap(message: Seq<u8>, key: Seq<u8>)
    requires
        key.len() >= 16,
        is_frame(message),
    ensures
        unwrapped(wrapped(message, key), key) == Ok::<Seq<u8>, Seq<char>>(frame_content(message)),
{
    let input = wrapped(message, key);
    lemma_chain_inverse(message, key, 0);
    let filler = message[0] as int % 8;
    assert(filler_len(input, key) == filler);
    assert forall|p: int| 0 <= p < message.len() implies #[trigger] framed_byte(input, key, p)
        == message[p] by {
        lemma_framed_byte_inverse(message, key, p);
    }
    assert(unwrapped(input, key)->Ok_0 =~= frame_content(message));
}

/// Block `i` of `data`; zeros in front of the first one.
pub open spec fn block_or_zeros(data: Seq<u8>, i: int) -> Seq<u8> {
    if i < 0 {
        Seq::new(8, |k: int| 0u8)
    } else {
        block_at(data, i)
    }
}

/// Block `i` of a chain: the encryption of the message block combined with the chain's
/// block before it, combined in turn with the message block before and the chain's block
/// two before.
pub open spec fn chain_block(message: Seq<u8>, chain: Seq<u8>, key: Seq<u8>, i: int) -> Seq<u8> {
    let inner = xored(block_at(message, i), block_or_zeros(chain, i - 1));
    xored(
        xored(block_encrypted(inner, key), block_or_zeros(message, i - 1)),
        block_or_zeros(chain, i - 2),
    )
}

/// Whether `chain` is the chain of `message`.
pub open spec fn is_chain(message: Seq<u8>, chain: Seq<u8>, key: Seq<u8>) -> bool {
    &&& chain.len() == message.len()
    &&& forall|i: int|
        0 <= i < message.len() as int / 8 ==> #[trigger] block_at(chain, i) == chain_block(
            message,
            chain,
            key,
            i,
        )
}

/// Combining with zeros changes nothing, and combining is associative.
proof fn lemma_xor_rules(a: Seq<u8>, b: Seq<u8>, c: Seq<u8>)
    requires
        a.len() == 8,
        b.len() == 8,
        c.len() == 8,
    ensures
        xored(a, Seq::new(8, |k: int| 0u8)) == a,
        xored(xored(a, b), c) == xored(a, xored(b, c)),
{
    let zeros = Seq::new(8, |k: int| 0u8);
    assert forall|i: int| 0 <= i < 8 implies #[trigger] xored(a, zeros)[i] == a[i] && xored(
        xored(a, b),
        c,
    )[i] == xored(a, xored(b, c))[i] by {
        let x = a[i];
        let y = b[i];
        let z = c[i];
        assert(x ^ 0 == x && (x ^ y) ^ z == x ^ (y ^ z)) by (bit_vector);
    }
    assert(xored(a, zeros) =~= a);
    assert(xored(xored(a, b), c) =~= xored(a, xored(b, c)));
}

proof fn lemma_chain_is_wrapping(message: Seq<u8>, chain: Seq<u8>, key: Seq<u8>, i: nat)
    requires
        is_chain(message, chain, key),
        8 * i + 8 <= message.len(),
    ensures
        block_at(chain, i as int) == wrapping(message, key, i).1,
        xored(block_at(message, i as int), block_or_zeros(chain, i - 1)) == wrapping(
            message,
            key,
            i,
        ).0,
    decreases i,
{
    let p = block_at(message, i as int);
    let c1 = block_or_zeros(chain, i - 1);
    let inner = xored(p, c1);
    assert(block_at(chain, i as int) == chain_block(message, chain, key, i as int));
    lemma_xor_rules(p, p, p);
    let e = block_encrypted(inner, key);
    lemma_xor_rules(e, block_or_zeros(message, i - 1), block_or_zeros(chain, i - 2));
    if i > 0 {
        lemma_chain_is_wrapping(message, chain, key, (i - 1) as nat);
    } else {
        lemma_xor_rules(e, e, e);
    }
}

proof fn lemma_chain_is_wrapped(message: Seq<u8>, chain: Seq<u8>, key: Seq<u8>)
    requires
        is_chain(message, chain, key),
        message.len() % 8 == 0,
    ensures
        chain == wrapped(message, key),
{
    let input = wrapped(message, key);
    assert forall|p: int| 0 <= p < message.len() implies #[trigger] chain[p] == input[p] by {
        let i = (p / 8) as nat;
        assert(8 * i + 8 <= message.len());
        assert(block_at(chain, i as int)[p % 8] == chain[p]);
        assert(block_at(chain, i as int) == wrapping(message, key, i).1) by {
            lemma_chain_is_wrapping(message, chain, key, i);
        }
    }
    assert(chain =~= input);
}

/// A message in its frame: the lead byte, whose low three bits count the filler, the
/// filler, the salt, the content and the closing bytes.
pub open spec fn framed(
    lead: u8,
    filler: Seq<u8>,
    salt: Seq<u8>,
    content: Seq<u8>,
    close: Seq<u8>,
) -> Seq<u8> {
    seq![lead] + filler + salt + content + close
}

proof fn lemma_framed(
    lead: u8,
    filler: Seq<u8>,
    salt: Seq<u8>,
    content: Seq<u8>,
    close: Seq<u8>,
)
    requires
        filler.len() == lead as int % 8,
        salt.len() == SALT_LEN,
        close.len() == ZERO_LEN,
        framed(lead, filler, salt, content, close).len() % 8 == 0,
    ensures
        is_frame(framed(lead, filler, salt, content, close)),
        frame_content(framed(lead, filler, salt, content, close)) == content,
{
    let message = framed(lead, filler, salt, content, close);
    assert(message[0] == lead);
    assert(frame_content(message) =~= content);
}

/// Every content comes back from the chain of its frame, whatever the filler, the salt and
/// the closing bytes are.
pub proof fn law_content_round_trip(
    lead: u8,
    filler: Seq<u8>,
    salt: Seq<u8>,
    content: Seq<u8>,
    close: Seq<u8>,
    key: Seq<u8>,
    chain: Seq<u8>,
)
    requires
        key.len() >= 16,
        filler.len() == lead as int % 8,
        salt.len() == SALT_LEN,
        close.len() == ZERO_LEN,
        framed(lead, filler, salt, content, close).len() % 8 == 0,
        is_chain(framed(lead, filler, salt, content, close), chain, key),
    ensures
        unwrapped(chain, key) == Ok::<Seq<u8>, Seq<char>>(content),
{
    let message = framed(lead, filler, salt, content, close);
    lemma_chain_is_wrapped(message, chain, key);
    lemma_framed(lead, filler, salt, content, close);
    law_unwrap_inverts_wrap(message, key);
}

proof fn lemma_shifts(x: u32)
    ensures
        x << 4u32 == x * 16 % 0x1_0000_0000,
        x >> 5u32 == x / 32,
{
    assert(x << 4u32 == x * 16 % 0x1_0000_0000) by (bit_vector);
    assert(x >> 5u32 == x / 32) by (bit_vector);
}

proof fn lemma_half_round_value(x: u32, sum: u32, a: u32, b: u32, p: u32, q: u32, r: u32)
    requires
        p == (x * 16 + a) % 0x1_0000_0000,
        q == (x + sum) % 0x1_0000_0000,
        r == (x as int / 32 + b) % 0x1_0000_0000,
    ensures
        half_round(x, sum, a, b) == p ^ q ^ r,
{
    lemma_shifts(x);
    assert((x << 4u32).wrapping_add(a) == p) by {
        vstd::arithmetic::div_mod::lemma_add_mod_noop_right(a as int, x * 16, 0x1_0000_0000);
    }
    assert(x.wrapping_add(sum) == q);
    assert((x >> 5u32).wrapping_add(b) == r);
}

/// One round of the block cipher, and what taking it back gives: one half grows by the other
/// one times sixteen and a key word, combined with the other one and the running sum, and
/// with a thirty-second of the other one and the next key word; then the roles change. The
/// running sum is the round's number times 0x9e3779b9. All of it is in 32 bits.
pub proof fn law_round_taken_back(
    x: u32,
    y: u32,
    key: Seq<u8>,
    round: nat,
    sum: u32,
    x1: u32,
    y1: u32,
    u: (u32, u32, u32),
    w: (u32, u32, u32),
)
    requires
        key.len() >= 16,
        round > 0,
        sum == (0x9e37_79b9 * round) % 0x1_0000_0000,
        u.0 == (y * 16 + be32_at(key, 0)) % 0x1_0000_0000,
        u.1 == (y + sum) % 0x1_0000_0000,
        u.2 == (y as int / 32 + be32_at(key, 4)) % 0x1_0000_0000,
        x1 == (x + (u.0 ^ u.1 ^ u.2)) % 0x1_0000_0000,
        w.0 == (x1 * 16 + be32_at(key, 8)) % 0x1_0000_0000,
        w.1 == (x1 + sum) % 0x1_0000_0000,
        w.2 == (x1 as int / 32 + be32_at(key, 12)) % 0x1_0000_0000,
        y1 == (y + (w.0 ^ w.1 ^ w.2)) % 0x1_0000_0000,
    ensures
        rounds_undone((x1, y1), key, round) == rounds_undone((x, y), key, (round - 1) as nat),
        rounds_undone((x, y), key, 0) == (x, y),
{
    let k0 = key_word(key, 0);
    let k1 = key_word(key, 1);
    let k2 = key_word(key, 2);
    let k3 = key_word(key, 3);
    assert(k0 == be32_at(key, 0) && k1 == be32_at(key, 4) && k2 == be32_at(key, 8) && k3
        == be32_at(key, 12)) by {
        crate::bytes::law_be32_digits(key, 0);
        crate::bytes::law_be32_digits(key, 4);
        crate::bytes::law_be32_digits(key, 8);
        crate::bytes::law_be32_digits(key, 12);
    }
    let f = half_round(y, sum, k0, k1);
    let g = half_round(x1, sum, k2, k3);
    assert(f == u.0 ^ u.1 ^ u.2) by {
        lemma_half_round_value(y, sum, k0, k1, u.0, u.1, u.2);
    }
    assert(g == w.0 ^ w.1 ^ w.2) by {
        lemma_half_round_value(x1, sum, k2, k3, w.0, w.1, w.2);
    }
    lemma_subtracted(x, f, x1);
    lemma_subtracted(y, g, y1);
    lemma_round_unfolded((x1, y1), key, round, sum);
}

proof fn lemma_subtracted(a: u32, b: u32, sum: u32)
    requires
        sum == (a + b) % 0x1_0000_0000,
    ensures
        sum.wrapping_sub(b) == a,
{
}

proof fn lemma_round_unfolded(halves: (u32, u32), key: Seq<u8>, round: nat, sum: u32)
    requires
        round > 0,
        sum == (0x9e37_79b9 * round) % 0x1_0000_0000,
    ensures
        ({
            let y = halves.1.wrapping_sub(
                half_round(halves.0, sum, key_word(key, 2), key_word(key, 3)),
            );
            let x = halves.0.wrapping_sub(half_round(y, sum, key_word(key, 0), key_word(key, 1)));
            rounds_undone(halves, key, round) == rounds_undone((x, y), key, (round - 1) as nat)
        }),
{
    assert(sum == round_sum(round));
}

/// A block is taken back through sixteen rounds; its halves are big-endian numbers, on the
/// way in and on the way out.
pub proof fn law_block_of_sixteen_rounds(block: Seq<u8>, key: Seq<u8>)
    requires
        block.len() >= 8,
    ensures
        ({
            let plain = block_decrypted(block, key);
            let halves = rounds_undone(
                (be32_at(block, 0) as u32, be32_at(block, 4) as u32),
                key,
                16,
            );
            &&& plain.len() == 8
            &&& be32_at(plain, 0) == halves.0
            &&& be32_at(plain, 4) == halves.1
        }),
{
    let plain = block_decrypted(block, key);
    let halves = rounds_undone(block_halves(block), key, 16);
    assert(plain.subrange(0, 4) =~= be32_bytes(halves.0));
    assert(plain.subrange(4, 8) =~= be32_bytes(halves.1));
    crate::bytes::lemma_be32_read(plain, 0, halves.0);
    crate::bytes::lemma_be32_read(plain, 4, halves.1);
}

/// What is no wrapped message: not whole blocks of eight bytes, or only one, or none that
/// has room for its filler and the ten bytes around the content.
pub proof fn law_wrapping_refused(input: Seq<u8>, key: Seq<u8>)
    ensures
        input.len() % 8 != 0 || input.len() < 16 ==> unwrapped(input, key) == Err::<
            Seq<u8>,
            Seq<char>,
        >("invalid TEA input"@),
        input.len() % 8 == 0 && input.len() >= 16 ==> {
            let filler = block_decrypted(input.subrange(0, 8), key)[0] as int % 8;
            &&& input.len() < 10 + filler ==> unwrapped(input, key) == Err::<Seq<u8>, Seq<char>>(
                "invalid TEA padding"@,
            )
            &&& input.len() >= 10 + filler ==> unwrapped(input, key) is Ok && unwrapped(
                input,
                key,
            )->Ok_0.len() == input.len() - 10 - filler
        },
{
    assert(block_at(input, 0) =~= input.subrange(0, 8));
}

} // verus!
