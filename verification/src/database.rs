//! The local key database: a SQLite file whose pages are encrypted one by one, each
//! under a key and an initial block of its own.
use crate::bytes::{
    append, copy_range, le32, le32_at, le32_bytes, le32_split, overwrite, spliced, starts_with,
};
use crate::outside::{aes128_decrypted, cbc_decrypt_blocks, cbc_decrypted, md5_digest, md5_of};
use vstd::arithmetic::power2::{lemma2_to64, pow2};
use vstd::prelude::*;
use vstd::slice::slice_to_vec;

verus! {

/// Bytes in one page.
pub const PAGE_SIZE: usize = 0x400;

/// What a SQLite file begins with.
pub const SQLITE_HEADER: [u8; 16] = [
    0x53, 0x51, 0x4c, 0x69, 0x74, 0x65, 0x20, 0x66, 0x6f, 0x72, 0x6d, 0x61, 0x74, 0x20, 0x33, 0x00,
];

/// The bytes that the page keys are made from; those from index 0x10 up to 0x14 give
/// way to the page number.
pub const DEFAULT_MASTER_KEY: [u8; 24] = [
    0x1d, 0x61, 0x31, 0x45, 0xb2, 0x47, 0xbf, 0x7f, 0x3d, 0x18, 0x96, 0x72, 0x14, 0x4f, 0xe4, 0xbf,
    0x00, 0x00, 0x00, 0x00, 0x73, 0x41, 0x6c, 0x54,
];

/// The number after `seed` in the sequence that initial blocks are made from. All
/// arithmetic is in 32 bits.
#[verifier::opaque]
pub open spec fn next_seed(seed: u32) -> u32 {
    let left = (seed * 0x9ef4) % 0x1_0000_0000;
    let right = ((seed / 0xce26) * 0x7fff_ff07) % 0x1_0000_0000;
    let value = (left - right) % 0x1_0000_0000;
    if value < 0x8000_0000 {
        value as u32
    } else {
        ((value + 0x7fff_ff07) % 0x1_0000_0000) as u32
    }
}

/// The number `i` places behind the one after the page number.
pub open spec fn page_seed(page: u32, i: nat) -> u32
    decreases i,
{
    if i == 0 {
        ((page + 1) % 0x1_0000_0000) as u32
    } else {
        next_seed(page_seed(page, (i - 1) as nat))
    }
}

/// The initial block of a page.
pub open spec fn page_iv(page: u32) -> Seq<u8> {
    md5_digest(
        le32_bytes(page_seed(page, 1)) + le32_bytes(page_seed(page, 2)) + le32_bytes(
            page_seed(page, 3),
        ) + le32_bytes(page_seed(page, 4)),
    )
}

/// The key of a page.
pub open spec fn page_key(page: u32) -> Seq<u8> {
    md5_digest(spliced(DEFAULT_MASTER_KEY@, 0x10, le32_bytes(page)))
}

/// Whether the start of an encrypted file is that of a database: a page size that is a
/// power of two from 512 to 32768, and the four bytes that follow the format versions
/// and the reserved space.
pub open spec fn page1_plausible(data: Seq<u8>) -> bool {
    &&& data[0x11] == 0
    &&& data[0x10] == 2 || data[0x10] == 4 || data[0x10] == 8 || data[0x10] == 16 || data[0x10]
        == 32 || data[0x10] == 64 || data[0x10] == 128
    &&& le32_at(data, 0x14) == 0x2020_4000
}

/// The file with its first page decrypted. The page is encrypted from byte 0x10 on, and
/// the first eight of those bytes are kept at byte 8; the header goes to the front. A
/// page that does not look like one is left as it is.
pub open spec fn page1_decrypted(data: Seq<u8>) -> Seq<u8> {
    if page1_plausible(data) {
        let body = data.subrange(8, 0x10) + data.subrange(0x18, PAGE_SIZE as int);
        SQLITE_HEADER@ + cbc_decrypted(body, page_key(1), page_iv(1)) + data.subrange(
            PAGE_SIZE as int,
            data.len() as int,
        )
    } else {
        data
    }
}

/// How many pages are decrypted, as a 32-bit number.
pub open spec fn page_count(data: Seq<u8>) -> int {
    data.len() as int / (PAGE_SIZE as int) % 0x1_0000_0000
}

/// Page `page` of `data`, counted from one.
pub open spec fn page_at(data: Seq<u8>, page: int) -> Seq<u8> {
    data.subrange((page - 1) * PAGE_SIZE, page * PAGE_SIZE)
}

/// The whole file decrypted: a plain database stays as it is; otherwise the first page
/// is decrypted by its own rule, every other whole page under its key and initial block,
/// and an incomplete page at the end is kept.
pub open spec fn database_decrypted(data: Seq<u8>) -> Seq<u8> {
    if SQLITE_HEADER@.is_prefix_of(data) {
        data
    } else {
        Seq::new(
            data.len(),
            |i: int|
                {
                    let page = i / (PAGE_SIZE as int) + 1;
                    if page == 1 {
                        page1_decrypted(data)[i]
                    } else if page <= page_count(data) {
                        cbc_decrypted(
                            page_at(data, page),
                            page_key(page as u32),
                            page_iv(page as u32),
                        )[i % (PAGE_SIZE as int)]
                    } else {
                        data[i]
                    }
                },
        )
    }
}

/// Whether a file is long enough to be decrypted: it is plain, or it reaches past the
/// bytes that tell a database, and if they do tell one, to the end of the first page.
pub open spec fn database_complete(data: Seq<u8>) -> bool {
    SQLITE_HEADER@.is_prefix_of(data) || (data.len() >= 0x18 && (page1_plausible(data)
        ==> data.len() >= PAGE_SIZE))
}

/// The low 32 bits of a number.
pub fn u32(v: u64) -> (low: u32)
    ensures
        low == v % 0x1_0000_0000,
{
    (v % 0x1_0000_0000) as u32
}

/// The MD5 digest of `data`.
pub fn md5(data: &[u8]) -> (digest: [u8; 16])
    ensures
        digest@ == md5_digest(data@),
{
    md5_of(data)
}

/// Decrypts whole blocks in cipher block chaining mode; data of any other length comes
/// back as it is.
pub fn aes_cbc_decrypt(data: &[u8], key: &[u8], iv: &[u8]) -> (plain: Vec<u8>)
    requires
        key@.len() == 16,
        iv@.len() == 16,
    ensures
        plain@ == (if data@.len() % 16 == 0 {
            cbc_decrypted(data@, key@, iv@)
        } else {
            data@
        }),
{
    match cbc_decrypt_blocks(data, key, iv) {
        Some(plain) => plain,
        None => slice_to_vec(data),
    }
}

proof fn lemma_difference_low_bits(left: int, right: int, difference: int)
    requires
        0 <= left < 0x1_0000_0000,
        0 <= right < 0x1_0000_0000,
        difference == (if left >= right {
            left - right
        } else {
            left - right + 0x1_0000_0000_0000_0000
        }),
    ensures
        difference % 0x1_0000_0000 == (left - right) % 0x1_0000_0000,
{
    if left < right {
        let d = left - right;
        assert(d % 0x1_0000_0000 == d + 0x1_0000_0000);
        assert(difference == 0xffff_ffff * 0x1_0000_0000 + (d + 0x1_0000_0000));
    }
}

/// The number after `seed`.
pub fn derive_iv_seed(seed: u32) -> (next: u32)
    ensures
        next == next_seed(seed),
{
    let left = u32(seed as u64 * 0x9ef4);
    let right = u32((seed / 0xce26) as u64 * 0x7fff_ff07);
    let difference = (left as u64).wrapping_sub(right as u64);
    let value = u32(difference);
    proof {
        reveal(next_seed);
        lemma_difference_low_bits(left as int, right as int, difference as int);
    }
    if value < 0x8000_0000 {
        value
    } else {
        u32(value as u64 + 0x7fff_ff07)
    }
}

/// The initial block of a page.
pub fn derive_page_iv(page: u32) -> (iv: [u8; 16])
    ensures
        iv@ == page_iv(page),
{
    let p1 = derive_iv_seed(page.wrapping_add(1));
    let p2 = derive_iv_seed(p1);
    let p3 = derive_iv_seed(p2);
    let p4 = derive_iv_seed(p3);
    let mut block: Vec<u8> = Vec::new();
    append(&mut block, &le32_split(p1));
    append(&mut block, &le32_split(p2));
    append(&mut block, &le32_split(p3));
    append(&mut block, &le32_split(p4));
    assert(p1 == page_seed(page, 1)) by {
        assert(page_seed(page, 0) == page.wrapping_add(1));
    }
    assert(p2 == page_seed(page, 2));
    assert(p3 == page_seed(page, 3));
    assert(p4 == page_seed(page, 4));
    assert(Seq::<u8>::empty() + le32_bytes(p1) =~= le32_bytes(p1));
    md5(&block)
}

/// The key of a page.
pub fn derive_page_key(page: u32) -> (key: [u8; 16])
    ensures
        key@ == page_key(page),
{
    let mut material: [u8; 24] = DEFAULT_MASTER_KEY;
    overwrite(&mut material, 0x10, &le32_split(page));
    md5(&material)
}

/// The sequence of seeds is the multiplicative generator with multiplier 40692 modulo
/// 2147483399: the arithmetic in 32 bits loses nothing, whatever the seed.
pub proof fn law_seed_is_congruential(seed: u32)
    ensures
        next_seed(seed) == 40692 * seed % 2147483399,
{
    reveal(next_seed);
    let k = seed as int / 52774;
    let r = seed as int % 52774;
    assert(seed == 52774 * k + r);
    assert(0 <= k <= 81384);
    let exact = 40692 * r - 3791 * k;
    let left = (seed * 0x9ef4) % 0x1_0000_0000;
    let right = (k * 0x7fff_ff07) % 0x1_0000_0000;
    assert(40692 * seed == 2147483399 * k + exact);
    assert((left - right) % 0x1_0000_0000 == exact % 0x1_0000_0000) by {
        let a = (seed * 0x9ef4) / 0x1_0000_0000;
        let b = (k * 0x7fff_ff07) / 0x1_0000_0000;
        assert(left - right == exact - 0x1_0000_0000 * (a - b));
        vstd::arithmetic::div_mod::lemma_mod_multiples_vanish(
            -(a - b),
            exact,
            0x1_0000_0000,
        );
    }
    if exact >= 0 {
        assert(exact % 0x1_0000_0000 == exact);
        vstd::arithmetic::div_mod::lemma_mod_multiples_vanish(k, exact, 2147483399);
        assert(exact % 2147483399 == exact);
    } else {
        assert(exact % 0x1_0000_0000 == exact + 0x1_0000_0000);
        vstd::arithmetic::div_mod::lemma_mod_multiples_vanish(k, exact, 2147483399);
        assert(exact % 2147483399 == exact + 2147483399);
    }
}

proof fn lemma_page_size_bits(low: u32, high: u32)
    requires
        low <= 0xff,
        high <= 0xff,
    ensures
        ({
            let size: u32 = (low << 8u32) | (high << 24u32);
            let first = if size >= 0x200 {
                size - 0x200
            } else {
                size - 0x200 + 0x1_0000_0000
            };
            let less_one: u32 = if size > 0 {
                (size - 1) as u32
            } else {
                0xffff_ffff
            };
            (first <= 0xfe00 && (less_one & size) == 0) <==> (high == 0 && (low == 2 || low == 4
                || low == 8 || low == 16 || low == 32 || low == 64 || low == 128))
        }),
{
    assert(({
        let size: u32 = (low << 8u32) | (high << 24u32);
        let first = if size >= 0x200 {
            size - 0x200
        } else {
            size - 0x200 + 0x1_0000_0000
        };
        let less_one: u32 = if size > 0 {
            (size - 1) as u32
        } else {
            0xffff_ffff
        };
        (first <= 0xfe00 && (less_one & size) == 0) <==> (high == 0 && (low == 2 || low == 4
            || low == 8 || low == 16 || low == 32 || low == 64 || low == 128))
    })) by (bit_vector)
        requires
            low <= 0xff,
            high <= 0xff,
    ;
}

/// Whether the start of an encrypted file is that of a database.
fn looks_like_page1(data: &[u8]) -> (yes: bool)
    requires
        data@.len() >= 0x18,
    ensures
        yes == page1_plausible(data@),
{
    let low = data[0x10] as u32;
    let high = data[0x11] as u32;
    let size: u32 = (low << 8u32) | (high << 24u32);
    let fixed = le32(data, 0x14) == 0x2020_4000;
    let in_range = size.wrapping_sub(0x200) <= 0xfe00;
    let power_of_two = (size.wrapping_sub(1) & size) == 0;
    proof {
        lemma_page_size_bits(low, high);
    }
    fixed && in_range && power_of_two
}

/// Decrypts the first page where it stands, if it looks like one.
pub fn decrypt_page1(buf: &mut [u8])
    requires
        old(buf)@.len() >= 0x18,
        page1_plausible(old(buf)@) ==> old(buf)@.len() >= PAGE_SIZE,
    ensures
        final(buf)@ == page1_decrypted(old(buf)@),
{
    if !looks_like_page1(buf) {
        return;
    }
    let kept = copy_range(buf, 8, 0x10);
    overwrite(buf, 0x10, kept.as_slice());
    let key = derive_page_key(1);
    let iv = derive_page_iv(1);
    let body = copy_range(buf, 0x10, PAGE_SIZE);
    assert(body@ =~= old(buf)@.subrange(8, 0x10) + old(buf)@.subrange(0x18, PAGE_SIZE as int));
    let plain = aes_cbc_decrypt(body.as_slice(), &key, &iv);
    overwrite(buf, 0x10, plain.as_slice());
    overwrite(buf, 0, &SQLITE_HEADER);
    assert(buf@ =~= page1_decrypted(old(buf)@));
}

/// Whether a file is long enough to be decrypted.
pub fn database_is_complete(data: &[u8]) -> (complete: bool)
    ensures
        complete == database_complete(data@),
{
    starts_with(data, &SQLITE_HEADER) || (data.len() >= 0x18 && (!looks_like_page1(data)
        || data.len() >= PAGE_SIZE))
}

/// Decrypts a whole database file.
pub fn decrypt_database(data: &[u8]) -> (plain: Vec<u8>)
    requires
        database_complete(data@),
    ensures
        plain@ == database_decrypted(data@),
{
    if starts_with(data, &SQLITE_HEADER) {
        return slice_to_vec(data);
    }
    let len = data.len();
    let count = (len / PAGE_SIZE) as u64 % 0x1_0000_0000;
    let mut buf = slice_to_vec(data);
    decrypt_page1(buf.as_mut_slice());
    assert(buf@.len() == data@.len());
    let ghost expected = database_decrypted(data@);
    let mut page: u64 = 2;
    while page <= count
        invariant
            len == data@.len(),
            buf@.len() == len,
            count == page_count(data@),
            count <= len / PAGE_SIZE,
            2 <= page,
            page <= count + 1 || page == 2,
            expected == database_decrypted(data@),
            !SQLITE_HEADER@.is_prefix_of(data@),
            forall|i: int|
                0 <= i < len && i < (page - 1) * PAGE_SIZE ==> #[trigger] buf@[i] == expected[i],
            forall|i: int|
                (page - 1) * PAGE_SIZE <= i < len ==> #[trigger] buf@[i] == data@[i],
        decreases count + 1 - page,
    {
        let start = (page - 1) as usize * PAGE_SIZE;
        let key = derive_page_key(page as u32);
        let iv = derive_page_iv(page as u32);
        let body = copy_range(buf.as_slice(), start, start + PAGE_SIZE);
        assert(body@ =~= page_at(data@, page as int));
        let plain = aes_cbc_decrypt(body.as_slice(), &key, &iv);
        overwrite(buf.as_mut_slice(), start, plain.as_slice());
        page = page + 1;
    }
    assert(buf@ =~= expected);
    buf
}

/// Decryption keeps the size of the file, and leaves a plain database as it is.
pub proof fn law_database_size_and_plain(data: Seq<u8>)
    requires
        database_complete(data),
    ensures
        database_decrypted(data).len() == data.len(),
        SQLITE_HEADER@.is_prefix_of(data) ==> database_decrypted(data) == data,
{
}

/// A plain database, and a file that decryption recognises as one, comes out as a plain
/// database, so that decrypting it again changes nothing.
pub proof fn law_database_decrypted_once(data: Seq<u8>)
    requires
        database_complete(data),
        SQLITE_HEADER@.is_prefix_of(data) || page1_plausible(data),
    ensures
        SQLITE_HEADER@.is_prefix_of(database_decrypted(data)),
        database_decrypted(database_decrypted(data)) == database_decrypted(data),
{
    let plain = database_decrypted(data);
    if !SQLITE_HEADER@.is_prefix_of(data) {
        assert forall|i: int| 0 <= i < 16 implies #[trigger] plain[i] == SQLITE_HEADER@[i] by {
            assert(page1_decrypted(data)[i] == SQLITE_HEADER@[i]);
        }
        assert(SQLITE_HEADER@ =~= plain.subrange(0, 16));
    }
}

/// Pages are decrypted independently: past the first one, two encrypted files of one
/// size that agree in a page agree in that page after decryption.
pub proof fn law_pages_independent(a: Seq<u8>, b: Seq<u8>, page: int)
    requires
        database_complete(a),
        database_complete(b),
        !SQLITE_HEADER@.is_prefix_of(a),
        !SQLITE_HEADER@.is_prefix_of(b),
        a.len() == b.len(),
        2 <= page <= a.len() as int / (PAGE_SIZE as int),
        page_at(a, page) == page_at(b, page),
    ensures
        page_at(database_decrypted(a), page) == page_at(database_decrypted(b), page),
{
    let x = database_decrypted(a);
    let y = database_decrypted(b);
    assert forall|i: int| 0 <= i < PAGE_SIZE implies #[trigger] page_at(x, page)[i] == page_at(
        y,
        page,
    )[i] by {
        let at = (page - 1) * PAGE_SIZE + i;
        assert(at / (PAGE_SIZE as int) == page - 1 && at % (PAGE_SIZE as int) == i);
        assert(a[at] == page_at(a, page)[i]);
        assert(b[at] == page_at(b, page)[i]);
    }
    assert(page_at(x, page) =~= page_at(y, page));
}

/// A database comes back whole: if the first page and every other whole page of a file
/// decrypt to those of a plain database, and the two agree in what follows the last whole
/// page, then the file decrypts to that database.
pub proof fn law_database_round_trip(data: Seq<u8>, plain: Seq<u8>)
    requires
        !SQLITE_HEADER@.is_prefix_of(data),
        page1_plausible(data),
        data.len() >= PAGE_SIZE,
        plain.len() == data.len(),
        SQLITE_HEADER@.is_prefix_of(plain),
        cbc_decrypted(
            data.subrange(8, 0x10) + data.subrange(0x18, PAGE_SIZE as int),
            page_key(1),
            page_iv(1),
        ) == plain.subrange(0x10, PAGE_SIZE as int),
        forall|page: int|
            2 <= page <= page_count(data) ==> cbc_decrypted(
                #[trigger] page_at(data, page),
                page_key(page as u32),
                page_iv(page as u32),
            ) == page_at(plain, page),
        forall|i: int| page_count(data) * PAGE_SIZE <= i < data.len() ==> data[i] == plain[i],
    ensures
        database_decrypted(data) == plain,
{
    let size = PAGE_SIZE as int;
    let got = database_decrypted(data);
    let first = page1_decrypted(data);
    assert forall|i: int| 0 <= i < data.len() implies #[trigger] got[i] == plain[i] by {
        let page = i / size + 1;
        vstd::arithmetic::div_mod::lemma_fundamental_div_mod(i, size);
        if page == 1 {
            if i < 16 {
                assert(first[i] == SQLITE_HEADER@[i]);
                assert(plain.subrange(0, 16)[i] == SQLITE_HEADER@[i]);
            } else {
                assert(plain.subrange(0x10, size)[i - 16] == plain[i]);
            }
        } else if page <= page_count(data) {
            assert(page_at(plain, page)[i % size] == plain[i]);
            assert(cbc_decrypted(
                page_at(data, page),
                page_key(page as u32),
                page_iv(page as u32),
            )[i % size] == plain[i]);
        }
    }
    assert(got =~= plain);
}

/// Every page of an encrypted file is decrypted, up to the last whole one: page `page` is
/// the part of the file that 1024 times its number ends, and there are as many as 1024 goes
/// into the length. It comes out as the decryption of that part under the page's key and
/// initial block.
pub proof fn law_every_page_decrypted(data: Seq<u8>, page: int)
    requires
        database_complete(data),
        !SQLITE_HEADER@.is_prefix_of(data),
        data.len() as int / 1024 < 0x1_0000_0000,
        2 <= page <= data.len() as int / 1024,
    ensures
        database_decrypted(data).subrange(1024 * (page - 1), 1024 * page) == cbc_decrypted(
            data.subrange(1024 * (page - 1), 1024 * page),
            page_key(page as u32),
            page_iv(page as u32),
        ),
{
    let got = database_decrypted(data).subrange(1024 * (page - 1), 1024 * page);
    let body = data.subrange(1024 * (page - 1), 1024 * page);
    let plain = cbc_decrypted(body, page_key(page as u32), page_iv(page as u32));
    assert(page_at(data, page) =~= body);
    assert forall|i: int| 0 <= i < 1024 implies #[trigger] got[i] == plain[i] by {
        let at = 1024 * (page - 1) + i;
        assert(at / 1024 == page - 1 && at % 1024 == i);
        assert(got[i] == database_decrypted(data)[at]);
    }
    assert(got =~= plain);
}

/// What follows the last whole page of an encrypted file is kept, and so is the first page
/// if it does not look like one.
pub proof fn law_rest_is_kept(data: Seq<u8>, i: int)
    requires
        database_complete(data),
        0 <= i < data.len(),
        i >= data.len() as int / 1024 * 1024 || (i < 1024 && !page1_plausible(data)),
        i < 1024 ==> !page1_plausible(data),
    ensures
        database_decrypted(data)[i] == data[i],
{
    if !SQLITE_HEADER@.is_prefix_of(data) && i >= 1024 {
        assert(i / 1024 >= data.len() as int / 1024);
    }
}

/// The first page of a database: it starts with "SQLite format 3" and a zero, and from byte
/// 16 on it is the decryption of what stood there, with the eight bytes from byte 8 on in
/// front of what stood from byte 24 on.
pub proof fn law_first_page_decrypted(data: Seq<u8>)
    requires
        database_complete(data),
        !SQLITE_HEADER@.is_prefix_of(data),
        page1_plausible(data),
    ensures
        ({
            let got = database_decrypted(data);
            let body = Seq::new(
                1008,
                |i: int|
                    if i < 8 {
                        data[8 + i]
                    } else {
                        data[16 + i]
                    },
            );
            &&& forall|i: int|
                0 <= i < 15 ==> #[trigger] got[i] == "SQLite format 3"@[i] as u8
            &&& got[15] == 0
            &&& got.subrange(16, 1024) == cbc_decrypted(body, page_key(1), page_iv(1))
        }),
{
    reveal_strlit("SQLite format 3");
    let got = database_decrypted(data);
    let first = page1_decrypted(data);
    let body = Seq::new(
        1008,
        |i: int|
            if i < 8 {
                data[8 + i]
            } else {
                data[16 + i]
            },
    );
    assert(body =~= data.subrange(8, 0x10) + data.subrange(0x18, PAGE_SIZE as int));
    let plain = cbc_decrypted(body, page_key(1), page_iv(1));
    assert forall|i: int| 0 <= i < 1024 implies #[trigger] got[i] == (if i < 16 {
        SQLITE_HEADER@[i]
    } else {
        plain[i - 16]
    }) by {
        assert(i / 1024 == 0);
        assert(got[i] == first[i]);
    }
    assert(got.subrange(16, 1024) =~= plain);
}

/// A first page is told by eight bytes: a page size from 512 to 32768, of which only the
/// high byte, a power of two, is not zero, and the four fixed bytes 0, 0x40, 0x20 and 0x20.
pub proof fn law_first_page_told(data: Seq<u8>)
    requires
        data.len() >= 0x18,
    ensures
        page1_plausible(data) <==> {
            &&& data[17] == 0
            &&& exists|k: int| 1 <= k <= 7 && data[16] == #[trigger] pow2(k as nat)
            &&& data[20] == 0 && data[21] == 0x40 && data[22] == 0x20 && data[23] == 0x20
        },
{
    lemma2_to64();
    crate::bytes::law_le32_digits(data, 0x14);
    if page1_plausible(data) {
        let k: int = if data[16] == 2 {
            1
        } else if data[16] == 4 {
            2
        } else if data[16] == 8 {
            3
        } else if data[16] == 16 {
            4
        } else if data[16] == 32 {
            5
        } else if data[16] == 64 {
            6
        } else {
            7
        };
        assert(data[16] == pow2(k as nat));
    }
    if exists|k: int| 1 <= k <= 7 && data[16] == #[trigger] pow2(k as nat) {
        let k = choose|k: int| 1 <= k <= 7 && data[16] == #[trigger] pow2(k as nat);
        assert(k == 1 || k == 2 || k == 3 || k == 4 || k == 5 || k == 6 || k == 7);
    }
}

/// The key of a page is the digest of twenty-four bytes, of which those from index 16 up to
/// 20 are the page number, its lowest byte first.
pub proof fn law_page_key(page: u32)
    ensures
        page_key(page) == md5_digest(
            seq![
                0x1d,
                0x61,
                0x31,
                0x45,
                0xb2,
                0x47,
                0xbf,
                0x7f,
                0x3d,
                0x18,
                0x96,
                0x72,
                0x14,
                0x4f,
                0xe4,
                0xbf,
                (page as int % 0x100) as u8,
                (page as int / 0x100 % 0x100) as u8,
                (page as int / 0x1_0000 % 0x100) as u8,
                (page as int / 0x100_0000) as u8,
                0x73,
                0x41,
                0x6c,
                0x54,
            ],
        ),
{
    let material = spliced(DEFAULT_MASTER_KEY@, 0x10, le32_bytes(page));
    assert(material =~= seq![
        0x1d,
        0x61,
        0x31,
        0x45,
        0xb2,
        0x47,
        0xbf,
        0x7f,
        0x3d,
        0x18,
        0x96,
        0x72,
        0x14,
        0x4f,
        0xe4,
        0xbf,
        (page as int % 0x100) as u8,
        (page as int / 0x100 % 0x100) as u8,
        (page as int / 0x1_0000 % 0x100) as u8,
        (page as int / 0x100_0000) as u8,
        0x73,
        0x41,
        0x6c,
        0x54,
    ]);
}

/// The initial block of a page is the digest of four numbers: the one after the page number
/// times 40692 modulo 2147483399, that one times 40692 again, and so on.
pub proof fn law_page_iv(page: u32, s1: u32, s2: u32, s3: u32, s4: u32)
    requires
        page < u32::MAX,
        s1 == 40692 * (page + 1) % 2147483399,
        s2 == 40692 * s1 % 2147483399,
        s3 == 40692 * s2 % 2147483399,
        s4 == 40692 * s3 % 2147483399,
    ensures
        page_iv(page) == md5_digest(
            le32_bytes(s1) + le32_bytes(s2) + le32_bytes(s3) + le32_bytes(s4),
        ),
{
    let first = (page + 1) as u32;
    assert(page_seed(page, 0) == first);
    law_seed_is_congruential(first);
    law_seed_is_congruential(s1);
    law_seed_is_congruential(s2);
    law_seed_is_congruential(s3);
    assert(page_seed(page, 1) == s1);
    assert(page_seed(page, 2) == s2);
    assert(page_seed(page, 3) == s3);
    assert(page_seed(page, 4) == s4);
}

/// A chain of blocks is decrypted block by block: block `b` is the decryption of that block
/// alone, combined with the block before it, or with the initial block if it is the first.
pub proof fn law_chained_blocks(data: Seq<u8>, key: Seq<u8>, iv: Seq<u8>, b: int, j: int)
    requires
        data.len() % 16 == 0,
        0 <= b,
        16 * b + 16 <= data.len(),
        0 <= j < 16,
    ensures
        cbc_decrypted(data, key, iv).len() == data.len(),
        b == 0 ==> cbc_decrypted(data, key, iv)[j] == aes128_decrypted(
            data.subrange(0, 16),
            key,
        )[j] ^ iv[j],
        b > 0 ==> cbc_decrypted(data, key, iv)[16 * b + j] == aes128_decrypted(
            data.subrange(16 * b, 16 * b + 16),
            key,
        )[j] ^ data.subrange(16 * b - 16, 16 * b)[j],
{
    let i = 16 * b + j;
    assert(i / 16 == b && i % 16 == j);
}

/// A file can be decrypted if it is plain, or holds the 24 bytes that tell a first page, and
/// the whole page if they do tell one.
pub proof fn law_database_complete(data: Seq<u8>)
    ensures
        data.len() >= 1024 ==> database_complete(data),
        SQLITE_HEADER@.is_prefix_of(data) ==> database_complete(data),
        data.len() >= 24 && !page1_plausible(data) ==> database_complete(data),
        data.len() < 16 ==> !database_complete(data),
{
}

} // verus!
