//! Fixed-width integers inside byte sequences, and tests on the ends of one.
use vstd::prelude::*;
use vstd::slice::slice_to_vec;

verus! {

/// The little-endian number in the four bytes of `data` from index `at` on.
pub open spec fn le32_at(data: Seq<u8>, at: int) -> int {
    data[at] + 0x100 * data[at + 1] + 0x1_0000 * data[at + 2] + 0x100_0000 * data[at + 3]
}

/// The big-endian number in the four bytes of `data` from index `at` on.
pub open spec fn be32_at(data: Seq<u8>, at: int) -> int {
    0x100_0000 * data[at] + 0x1_0000 * data[at + 1] + 0x100 * data[at + 2] + data[at + 3]
}

/// The little-endian number in the eight bytes of `data` from index `at` on.
pub open spec fn le64_at(data: Seq<u8>, at: int) -> int {
    le32_at(data, at) + 0x1_0000_0000 * le32_at(data, at + 4)
}

/// The four bytes of `value`, the least significant one first.
pub open spec fn le32_bytes(value: u32) -> Seq<u8> {
    seq![
        (value % 0x100) as u8,
        (value / 0x100 % 0x100) as u8,
        (value / 0x1_0000 % 0x100) as u8,
        (value / 0x100_0000) as u8,
    ]
}

/// The four bytes of `value`, the most significant one first.
pub open spec fn be32_bytes(value: u32) -> Seq<u8> {
    seq![
        (value / 0x100_0000) as u8,
        (value / 0x1_0000 % 0x100) as u8,
        (value / 0x100 % 0x100) as u8,
        (value % 0x100) as u8,
    ]
}

/// The bytes of a number read big-endian are the bytes it was read from, and the other
/// way round.
pub proof fn lemma_be32_inverse(data: Seq<u8>, at: int, value: u32)
    requires
        0 <= at,
        at + 4 <= data.len(),
    ensures
        0 <= be32_at(data, at) <= u32::MAX,
        be32_bytes(be32_at(data, at) as u32) == data.subrange(at, at + 4),
        be32_at(be32_bytes(value), 0) == value,
{
    let read = be32_at(data, at);
    lemma_digits(read, data[at] as int, data[at + 1] as int, data[at + 2] as int, data[at + 3] as int);
    assert(be32_bytes(read as u32) =~= data.subrange(at, at + 4));
    let bytes = be32_bytes(value);
    let high = value / 0x100;
    assert(value == 0x100 * high + value % 0x100);
    let higher = value / 0x1_0000;
    assert(high == 0x100 * higher + high % 0x100);
    assert(higher == 0x100 * (value / 0x100_0000) + higher % 0x100);
}

/// A number read little-endian from the bytes it was written as.
pub proof fn lemma_le32_inverse(value: u32)
    ensures
        le32_at(le32_bytes(value), 0) == value,
{
    let high = value / 0x100;
    assert(value == 0x100 * high + value % 0x100);
    let higher = value / 0x1_0000;
    assert(high == 0x100 * higher + high % 0x100);
    assert(higher == 0x100 * (value / 0x100_0000) + higher % 0x100);
}

/// A number is read little-endian wherever the bytes stand that it was written as.
pub proof fn lemma_le32_read(data: Seq<u8>, at: int, value: u32)
    requires
        0 <= at,
        at + 4 <= data.len(),
        data.subrange(at, at + 4) == le32_bytes(value),
    ensures
        le32_at(data, at) == value,
{
    lemma_le32_inverse(value);
    let part = data.subrange(at, at + 4);
    assert(part[0] == data[at] && part[1] == data[at + 1] && part[2] == data[at + 2] && part[3]
        == data[at + 3]);
}

/// A number is read big-endian wherever the bytes stand that it was written as.
pub proof fn lemma_be32_read(data: Seq<u8>, at: int, value: u32)
    requires
        0 <= at,
        at + 4 <= data.len(),
        data.subrange(at, at + 4) == be32_bytes(value),
    ensures
        be32_at(data, at) == value,
{
    lemma_be32_inverse(data, at, value);
    let part = data.subrange(at, at + 4);
    assert(part[0] == data[at] && part[1] == data[at + 1] && part[2] == data[at + 2] && part[3]
        == data[at + 3]);
}

/// The digits of a number of four digits in base 0x100.
proof fn lemma_digits(number: int, a: int, b: int, c: int, d: int)
    requires
        number == 0x100_0000 * a + 0x1_0000 * b + 0x100 * c + d,
        0 <= a < 0x100,
        0 <= b < 0x100,
        0 <= c < 0x100,
        0 <= d < 0x100,
    ensures
        number / 0x100_0000 == a,
        number / 0x1_0000 % 0x100 == b,
        number / 0x100 % 0x100 == c,
        number % 0x100 == d,
{
    assert(number / 0x100 == 0x1_0000 * a + 0x100 * b + c);
    assert(number / 0x1_0000 == 0x100 * a + b);
}

/// What a call that gives bytes or a complaint returned.
pub open spec fn bytes_outcome(res: Result<Vec<u8>, String>) -> Result<Seq<u8>, Seq<char>> {
    match res {
        Ok(bytes) => Ok(bytes@),
        Err(text) => Err(text@),
    }
}

/// What `read_u32_le` gives: the number at `at`, or a complaint that the data ends
/// before it does.
pub open spec fn u32_le_read(data: Seq<u8>, at: int) -> Result<int, Seq<char>> {
    if at + 4 <= data.len() {
        Ok(le32_at(data, at))
    } else {
        Err("文件头长度不足"@)
    }
}

/// Reads a little-endian number that is known to lie inside `data`.
pub(crate) fn le32(data: &[u8], at: usize) -> (value: u32)
    requires
        at + 4 <= data@.len(),
    ensures
        value == le32_at(data@, at as int),
{
    data[at] as u32 + 0x100 * data[at + 1] as u32 + 0x1_0000 * data[at + 2] as u32 + 0x100_0000
        * data[at + 3] as u32
}

/// Reads a big-endian number that is known to lie inside `data`.
pub(crate) fn be32(data: &[u8], at: usize) -> (value: u32)
    requires
        at + 4 <= data@.len(),
    ensures
        value == be32_at(data@, at as int),
{
    0x100_0000 * data[at] as u32 + 0x1_0000 * data[at + 1] as u32 + 0x100 * data[at + 2] as u32
        + data[at + 3] as u32
}

/// Reads an eight-byte little-endian number that is known to lie inside `data`.
pub(crate) fn le64(data: &[u8], at: usize) -> (value: u64)
    requires
        at + 8 <= data@.len(),
    ensures
        value == le64_at(data@, at as int),
{
    assert(at + 8 <= data.len());
    le32(data, at) as u64 + 0x1_0000_0000 * le32(data, at + 4) as u64
}

/// Splits a number into its bytes, the least significant one first.
pub(crate) fn le32_split(value: u32) -> (bytes: [u8; 4])
    ensures
        bytes@ == le32_bytes(value),
{
    let bytes: [u8; 4] = [
        (value % 0x100) as u8,
        (value / 0x100 % 0x100) as u8,
        (value / 0x1_0000 % 0x100) as u8,
        (value / 0x100_0000) as u8,
    ];
    assert(bytes@ =~= le32_bytes(value));
    bytes
}

/// Reads the little-endian number at `at`, if the data reaches that far.
pub fn read_u32_le(data: &[u8], at: usize) -> (res: Result<u32, String>)
    ensures
        match res {
            Ok(value) => u32_le_read(data@, at as int) == Ok::<int, Seq<char>>(value as int),
            Err(text) => u32_le_read(data@, at as int) == Err::<int, Seq<char>>(text@),
        },
{
    if data.len() < 4 || at > data.len() - 4 {
        return Err("文件头长度不足".to_string());
    }
    Ok(le32(data, at))
}

/// Whether `data` begins with `prefix`.
pub(crate) fn starts_with(data: &[u8], prefix: &[u8]) -> (yes: bool)
    ensures
        yes == prefix@.is_prefix_of(data@),
{
    if data.len() < prefix.len() {
        return false;
    }
    for i in 0..prefix.len()
        invariant
            prefix@.len() <= data@.len(),
            forall|k: int| 0 <= k < i ==> prefix@[k] == data@[k],
    {
        if data[i] != prefix[i] {
            assert(data@.subrange(0, prefix@.len() as int)[i as int] != prefix@[i as int]);
            return false;
        }
    }
    assert(prefix@ =~= data@.subrange(0, prefix@.len() as int));
    true
}

/// Whether `data` ends with `tail`.
pub(crate) fn ends_with(data: &[u8], tail: &[u8]) -> (yes: bool)
    ensures
        yes == tail@.is_suffix_of(data@),
{
    if data.len() < tail.len() {
        return false;
    }
    let from = data.len() - tail.len();
    for i in 0..tail.len()
        invariant
            from + tail.len() == data.len(),
            forall|k: int| 0 <= k < i ==> data@[from + k] == #[trigger] tail@[k],
    {
        if data[from + i] != tail[i] {
            assert(data@.subrange(from as int, data@.len() as int)[i as int] != tail@[i as int]);
            return false;
        }
    }
    assert(data@.subrange(from as int, data@.len() as int) =~= tail@);
    true
}

/// Copies the bytes of `data` from `from` up to, not including, `to`.
pub(crate) fn copy_range(data: &[u8], from: usize, to: usize) -> (copy: Vec<u8>)
    requires
        from <= to <= data@.len(),
    ensures
        copy@ == data@.subrange(from as int, to as int),
{
    slice_to_vec(&data[from..to])
}

/// `data` with the bytes from index `at` on replaced by those of `part`.
pub open spec fn spliced(data: Seq<u8>, at: int, part: Seq<u8>) -> Seq<u8> {
    data.subrange(0, at) + part + data.subrange(at + part.len(), data.len() as int)
}

/// Writes `part` over the bytes of `data` from index `at` on.
pub(crate) fn overwrite(data: &mut [u8], at: usize, part: &[u8])
    requires
        at + part@.len() <= old(data)@.len(),
    ensures
        final(data)@ == spliced(old(data)@, at as int, part@),
{
    let size = part.len();
    assert(at + size <= data.len());
    for i in 0..size
        invariant
            size == part@.len(),
            at + size <= data.len(),
            data@.len() == old(data)@.len(),
            forall|k: int| 0 <= k < i ==> #[trigger] data@[at + k] == part@[k],
            forall|k: int|
                0 <= k < data@.len() && !(at <= k < at + i) ==> #[trigger] data@[k] == old(data)@[k],
    {
        data[at + i] = part[i];
    }
    assert(data@ =~= spliced(old(data)@, at as int, part@)) by {
        assert forall|k: int| at <= k < at + size implies data@[k] == part@[k - at] by {
            assert(data@[at + (k - at)] == part@[k - at]);
        }
    }
}

/// Appends the bytes of `part`.
pub(crate) fn append(data: &mut Vec<u8>, part: &[u8])
    ensures
        final(data)@ == old(data)@ + part@,
{
    for i in 0..part.len()
        invariant
            data@ == old(data)@ + part@.subrange(0, i as int),
    {
        data.push(part[i]);
    }
    assert(part@.subrange(0, part@.len() as int) =~= part@);
}

/// A number read little-endian has the bytes it was read from as its digits in base 0x100,
/// all four of them, the first one being the lowest.
pub proof fn law_le32_digits(data: Seq<u8>, at: int)
    requires
        0 <= at,
        at + 4 <= data.len(),
    ensures
        0 <= le32_at(data, at) < 0x1_0000_0000,
        le32_at(data, at) % 0x100 == data[at],
        le32_at(data, at) / 0x100 % 0x100 == data[at + 1],
        le32_at(data, at) / 0x1_0000 % 0x100 == data[at + 2],
        le32_at(data, at) / 0x100_0000 == data[at + 3],
{
    lemma_digits(
        le32_at(data, at),
        data[at + 3] as int,
        data[at + 2] as int,
        data[at + 1] as int,
        data[at] as int,
    );
}

/// A number read big-endian has the bytes it was read from as its digits in base 0x100,
/// all four of them, the last one being the lowest.
pub proof fn law_be32_digits(data: Seq<u8>, at: int)
    requires
        0 <= at,
        at + 4 <= data.len(),
    ensures
        0 <= be32_at(data, at) < 0x1_0000_0000,
        be32_at(data, at) / 0x100_0000 == data[at],
        be32_at(data, at) / 0x1_0000 % 0x100 == data[at + 1],
        be32_at(data, at) / 0x100 % 0x100 == data[at + 2],
        be32_at(data, at) % 0x100 == data[at + 3],
{
    lemma_digits(
        be32_at(data, at),
        data[at] as int,
        data[at + 1] as int,
        data[at + 2] as int,
        data[at + 3] as int,
    );
}

/// The low half of an eight-byte number is the number in the first four bytes, and its high
/// half the number in the other four.
pub proof fn law_le64_halves(data: Seq<u8>, at: int)
    requires
        0 <= at,
        at + 8 <= data.len(),
    ensures
        le64_at(data, at) % 0x1_0000_0000 == le32_at(data, at),
        le64_at(data, at) / 0x1_0000_0000 == le32_at(data, at + 4),
{
    law_le32_digits(data, at);
    law_le32_digits(data, at + 4);
    let low = le32_at(data, at);
    let high = le32_at(data, at + 4);
    vstd::arithmetic::div_mod::lemma_fundamental_div_mod_converse(
        le64_at(data, at),
        0x1_0000_0000,
        high,
        low,
    );
}

/// Reading takes back what was written, in either order of bytes, and the two orders write
/// the same four bytes back to front.
pub proof fn law_orders_mirrored(value: u32)
    ensures
        le32_bytes(value).len() == 4,
        be32_bytes(value) == le32_bytes(value).reverse(),
        le32_at(le32_bytes(value), 0) == value,
        be32_at(be32_bytes(value), 0) == value,
{
    lemma_le32_inverse(value);
    lemma_be32_inverse(be32_bytes(value), 0, value);
    assert(be32_bytes(value) =~= le32_bytes(value).reverse());
}

/// A number is read wherever four bytes are left, and nowhere else.
pub proof fn law_number_read(data: Seq<u8>, at: int)
    requires
        0 <= at,
    ensures
        at + 4 <= data.len() ==> u32_le_read(data, at) == Ok::<int, Seq<char>>(le32_at(data, at)),
        at + 4 > data.len() ==> u32_le_read(data, at) == Err::<int, Seq<char>>(
            "文件头长度不足"@,
        ),
{
}

} // verus!
