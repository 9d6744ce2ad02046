//! The QMC stream ciphers. Each one masks a byte with a value that depends on the key
//! and on the byte's position in the stream alone, so that applying a cipher twice
//! gives the data back and a stream may be decoded in pieces.
use crate::double::{hundredfold, hundredfold_ratio};
use vstd::prelude::*;

verus! {

/// Bytes in one segment of the segmented cipher.
pub const SEGMENT: usize = 5120;

/// Bytes at the start of a stream that the segmented cipher masks from the key itself.
pub const FIRST: usize = 128;

/// Keys longer than this select the segmented cipher.
pub const LONGEST_MAP_KEY: usize = 300;

/// The table of the cipher that files without an embedded key use.
pub const STATIC_BOX: [u8; 256] = [
    0x77, 0x48, 0x32, 0x73, 0xde, 0xf2, 0xc0, 0xc8, 0x95, 0xec, 0x30, 0xb2, 0x51, 0xc3, 0xe1, 0xa0,
    0x9e, 0xe6, 0x9d, 0xcf, 0xfa, 0x7f, 0x14, 0xd1, 0xce, 0xb8, 0xdc, 0xc3, 0x4a, 0x67, 0x93, 0xd6,
    0x28, 0xc2, 0x91, 0x70, 0xca, 0x8d, 0xa2, 0xa4, 0xf0, 0x08, 0x61, 0x90, 0x7e, 0x6f, 0xa2, 0xe0,
    0xeb, 0xae, 0x3e, 0xb6, 0x67, 0xc7, 0x92, 0xf4, 0x91, 0xb5, 0xf6, 0x6c, 0x5e, 0x84, 0x40, 0xf7,
    0xf3, 0x1b, 0x02, 0x7f, 0xd5, 0xab, 0x41, 0x89, 0x28, 0xf4, 0x25, 0xcc, 0x52, 0x11, 0xad, 0x43,
    0x68, 0xa6, 0x41, 0x8b, 0x84, 0xb5, 0xff, 0x2c, 0x92, 0x4a, 0x26, 0xd8, 0x47, 0x6a, 0x7c, 0x95,
    0x61, 0xcc, 0xe6, 0xcb, 0xbb, 0x3f, 0x47, 0x58, 0x89, 0x75, 0xc3, 0x75, 0xa1, 0xd9, 0xaf, 0xcc,
    0x08, 0x73, 0x17, 0xdc, 0xaa, 0x9a, 0xa2, 0x16, 0x41, 0xd8, 0xa2, 0x06, 0xc6, 0x8b, 0xfc, 0x66,
    0x34, 0x9f, 0xcf, 0x18, 0x23, 0xa0, 0x0a, 0x74, 0xe7, 0x2b, 0x27, 0x70, 0x92, 0xe9, 0xaf, 0x37,
    0xe6, 0x8c, 0xa7, 0xbc, 0x62, 0x65, 0x9c, 0xc2, 0x08, 0xc9, 0x88, 0xb3, 0xf3, 0x43, 0xac, 0x74,
    0x2c, 0x0f, 0xd4, 0xaf, 0xa1, 0xc3, 0x01, 0x64, 0x95, 0x4e, 0x48, 0x9f, 0xf4, 0x35, 0x78, 0x95,
    0x7a, 0x39, 0xd6, 0x6a, 0xa0, 0x6d, 0x40, 0xe8, 0x4f, 0xa8, 0xef, 0x11, 0x1d, 0xf3, 0x1b, 0x3f,
    0x3f, 0x07, 0xdd, 0x6f, 0x5b, 0x19, 0x30, 0x19, 0xfb, 0xef, 0x0e, 0x37, 0xf0, 0x0e, 0xcd, 0x16,
    0x49, 0xfe, 0x53, 0x47, 0x13, 0x1a, 0xbd, 0xa4, 0xf1, 0x40, 0x19, 0x60, 0x0e, 0xed, 0x68, 0x09,
    0x06, 0x5f, 0x4d, 0xcf, 0x3d, 0x1a, 0xfe, 0x20, 0x77, 0xe4, 0xd9, 0xda, 0xf9, 0xa4, 0x2b, 0x76,
    0x1c, 0x71, 0xdb, 0x00, 0xbc, 0xfd, 0x0c, 0x6c, 0xa5, 0x47, 0xf7, 0xf6, 0x00, 0x79, 0x4a, 0x11,
];

/// `data` with each byte masked by the value of `mask` at its position, where the
/// first byte stands at position `offset`.
pub open spec fn masked(data: Seq<u8>, offset: int, mask: spec_fn(int) -> u8) -> Seq<u8> {
    Seq::new(data.len(), |i: int| data[i] ^ mask(offset + i))
}

/// The position from which the table ciphers compute: past 0x7fff they start over.
pub open spec fn folded(offset: int) -> int {
    if offset > 0x7fff {
        offset % 0x7fff
    } else {
        offset
    }
}

/// The mask of the table cipher with the given key at position `offset`: a key byte,
/// picked by the square of the position, whose bits are shifted both ways by an amount
/// that its index gives.
pub open spec fn map_mask(key: Seq<u8>, offset: int) -> u8 {
    let index = (folded(offset) * folded(offset) + 71214) % (key.len() as int);
    let shift = ((index % 8 + 4) % 8) as u8;
    (key[index] << shift) | (key[index] >> shift)
}

/// The mask of the cipher without a key at position `offset`.
pub open spec fn static_mask(offset: int) -> u8 {
    STATIC_BOX@[(folded(offset) * folded(offset) + 27) % 256]
}

/// The position from which the table ciphers compute.
fn fold(offset: usize) -> (at: usize)
    ensures
        at == folded(offset as int),
        at * at <= 0x7fff * 0x7fff,
{
    let at = if offset > 0x7fff {
        offset % 0x7fff
    } else {
        offset
    };
    assert(at * at <= 0x7fff * 0x7fff) by (nonlinear_arith)
        requires
            at <= 0x7fff,
    ;
    at
}

/// The cipher for short keys.
pub struct MapCipher {
    key: Vec<u8>,
    size: usize,
}

impl MapCipher {
    #[verifier::type_invariant]
    spec fn consistent(self) -> bool {
        self.size == self.key@.len()
    }

    /// The key that the cipher was made from.
    pub closed spec fn key_bytes(&self) -> Seq<u8> {
        self.key@
    }

    pub fn new(key: Vec<u8>) -> (cipher: Self)
        ensures
            cipher.key_bytes() == key@,
    {
        let size = key.len();
        Self { key, size }
    }

    /// The mask for the byte at position `offset`.
    pub fn mask(&self, offset: usize) -> (mask: u8)
        requires
            self.key_bytes().len() > 0,
        ensures
            mask == map_mask(self.key_bytes(), offset as int),
    {
        proof {
            use_type_invariant(self);
        }
        let at = fold(offset);
        let index = (at * at + 71214) % self.size;
        let value = self.key[index];
        let shift = ((index % 8 + 4) % 8) as u8;
        (value << shift) | (value >> shift)
    }

    /// Masks `buf`, whose first byte stands at position `offset`.
    pub fn decrypt(&self, buf: &mut [u8], offset: usize)
        requires
            old(buf)@.len() > 0 ==> self.key_bytes().len() > 0,
            offset + old(buf)@.len() <= usize::MAX + 1,
        ensures
            final(buf)@ == masked(
                old(buf)@,
                offset as int,
                |p: int| map_mask(self.key_bytes(), p),
            ),
    {
        let len = buf.len();
        for i in 0..len
            invariant
                len > 0 ==> self.key_bytes().len() > 0,
                len == buf@.len(),
                len == old(buf)@.len(),
                offset + len <= usize::MAX + 1,
                forall|k: int|
                    0 <= k < i ==> #[trigger] buf@[k] == old(buf)@[k] ^ map_mask(
                        self.key_bytes(),
                        offset + k,
                    ),
                forall|k: int| i <= k < len ==> buf@[k] == old(buf)@[k],
        {
            let mask = self.mask(offset + i);
            buf[i] = buf[i] ^ mask;
        }
    }
}

/// `table` with the entries at `i` and `j` exchanged.
pub open spec fn swapped(table: Seq<u8>, i: int, j: int) -> Seq<u8> {
    table.update(i, table[j]).update(j, table[i])
}

/// The first `steps` steps of the key schedule: the table, which starts as the low
/// bytes of its own indices, and the index that the last step exchanged with.
pub open spec fn schedule(key: Seq<u8>, steps: nat) -> (Seq<u8>, int)
    decreases steps,
{
    if steps == 0 {
        (Seq::new(key.len(), |i: int| (i % 0x100) as u8), 0)
    } else {
        let i = steps - 1;
        let (table, last) = schedule(key, i as nat);
        let j = (last + table[i] + key[i]) % (key.len() as int);
        (swapped(table, i, j), j)
    }
}

/// The table that every segment starts from.
pub open spec fn key_table(key: Seq<u8>) -> Seq<u8> {
    schedule(key, key.len()).0
}

/// The product of the non-zero key bytes from index `at` on, times `hash`, in 32 bits;
/// it stops before the first factor that would not make it larger.
pub open spec fn hash_from(key: Seq<u8>, at: int, hash: u32) -> u32
    decreases key.len() - at,
{
    if !(0 <= at < key.len()) {
        hash
    } else if key[at] == 0 {
        hash_from(key, at + 1, hash)
    } else {
        let next = ((hash * key[at]) % 0x1_0000_0000) as u32;
        if next <= hash {
            hash
        } else {
            hash_from(key, at + 1, next)
        }
    }
}

/// The hash of a key.
pub open spec fn key_hash(key: Seq<u8>) -> u32 {
    hash_from(key, 0, 1)
}

/// How far segment `id` runs ahead in its stream; in the first bytes, which key byte
/// masks position `id`.
pub open spec fn segment_skip(key: Seq<u8>, hash: u32, id: int) -> int {
    let seed = key[id % (key.len() as int)];
    if seed == 0 {
        0
    } else {
        let value = hundredfold_ratio(hash as nat, ((id + 1) * seed) as nat);
        let limited = if value > usize::MAX {
            usize::MAX as int
        } else {
            value as int
        };
        limited % (key.len() as int)
    }
}

/// The generator of a segment after `steps` steps: its table and its two indices.
pub open spec fn generator(table: Seq<u8>, steps: nat) -> (Seq<u8>, int, int)
    decreases steps,
{
    if steps == 0 {
        (table, 0, 0)
    } else {
        let n = table.len() as int;
        let (before, j0, k0) = generator(table, (steps - 1) as nat);
        let j = (j0 + 1) % n;
        let k = (before[j] + k0) % n;
        (swapped(before, j, k), j, k)
    }
}

/// The byte that the generator gives in the step after `steps` steps.
pub open spec fn generated(table: Seq<u8>, steps: nat) -> u8 {
    let (after, j, k) = generator(table, steps + 1);
    after[(after[j] + after[k]) % (table.len() as int)]
}

/// The mask of the segmented cipher with the given key and hash at position `p`.
pub open spec fn rc4_mask(key: Seq<u8>, hash: u32, p: int) -> u8 {
    if p < FIRST {
        key[segment_skip(key, hash, p)]
    } else {
        generated(
            key_table(key),
            (p % (SEGMENT as int) + segment_skip(key, hash, p / (SEGMENT as int))) as nat,
        )
    }
}

proof fn lemma_schedule_shape(key: Seq<u8>, steps: nat)
    requires
        key.len() > 0,
        steps <= key.len(),
    ensures
        schedule(key, steps).0.len() == key.len(),
        0 <= schedule(key, steps).1 < key.len(),
    decreases steps,
{
    if steps > 0 {
        lemma_schedule_shape(key, (steps - 1) as nat);
    }
}

proof fn lemma_generator_shape(table: Seq<u8>, steps: nat)
    requires
        table.len() > 0,
    ensures
        generator(table, steps).0.len() == table.len(),
        0 <= generator(table, steps).1 < table.len(),
        0 <= generator(table, steps).2 < table.len(),
    decreases steps,
{
    if steps > 0 {
        lemma_generator_shape(table, (steps - 1) as nat);
    }
}

/// `(a + b) % n` for `a < n`, without overflow.
fn add_mod(a: usize, b: usize, n: usize) -> (sum: usize)
    requires
        a < n,
    ensures
        sum == (a + b) % (n as int),
{
    let rest = b % n;
    proof {
        vstd::arithmetic::div_mod::lemma_add_mod_noop_right(a as int, b as int, n as int);
    }
    if a >= n - rest {
        proof {
            vstd::arithmetic::div_mod::lemma_mod_add_multiples_vanish(
                a + rest - n,
                n as int,
            );
            vstd::arithmetic::div_mod::lemma_small_mod((a + rest - n) as nat, n as nat);
        }
        a - (n - rest)
    } else {
        proof {
            vstd::arithmetic::div_mod::lemma_small_mod((a + rest) as nat, n as nat);
        }
        a + rest
    }
}

/// Exchanges two entries of a table.
fn swap(table: &mut Vec<u8>, i: usize, j: usize)
    requires
        i < old(table)@.len(),
        j < old(table)@.len(),
    ensures
        final(table)@ == swapped(old(table)@, i as int, j as int),
{
    let a = table[i];
    let b = table[j];
    table[i] = b;
    table[j] = a;
}

/// The cipher for long keys.
pub struct Rc4Cipher {
    key: Vec<u8>,
    n: usize,
    box_state: Vec<u8>,
    hash: u32,
}

impl Rc4Cipher {
    #[verifier::type_invariant]
    spec fn consistent(self) -> bool {
        &&& self.n == self.key@.len()
        &&& self.box_state@ == key_table(self.key@)
        &&& self.hash >= 1
    }

    /// The key that the cipher was made from.
    pub closed spec fn key_bytes(&self) -> Seq<u8> {
        self.key@
    }

    /// The hash that the skips are computed from.
    pub closed spec fn hash_base(&self) -> u32 {
        self.hash
    }

    pub fn new(key: Vec<u8>) -> (cipher: Self)
        ensures
            cipher.key_bytes() == key@,
            cipher.hash_base() == key_hash(key@),
    {
        let n = key.len();
        let mut table: Vec<u8> = Vec::new();
        for i in 0..n
            invariant
                n == key@.len(),
                table@ =~= Seq::new(i as nat, |x: int| (x % 0x100) as u8),
        {
            table.push((i % 0x100) as u8);
        }
        let mut j: usize = 0;
        for i in 0..n
            invariant
                n == key@.len(),
                table@.len() == n,
                (table@, j as int) == schedule(key@, i as nat),
                n > 0 ==> j < n,
        {
            proof {
                lemma_schedule_shape(key@, (i + 1) as nat);
            }
            j = add_mod(j, table[i] as usize + key[i] as usize, n);
            swap(&mut table, i, j);
        }
        let mut cipher = Self { key, n, box_state: table, hash: 1 };
        cipher.compute_hash_base();
        cipher
    }

    /// Sets the hash to that of the key.
    pub fn compute_hash_base(&mut self)
        ensures
            final(self).key_bytes() == old(self).key_bytes(),
            final(self).hash_base() == key_hash(old(self).key_bytes()),
    {
        proof {
            use_type_invariant(&*self);
        }
        let mut hash: u32 = 1;
        let mut i: usize = 0;
        while i < self.n
            invariant
                self.n == self.key@.len(),
                hash >= 1,
                hash_from(self.key@, i as int, hash) == key_hash(self.key@),
            ensures
                hash == key_hash(self.key@),
                hash >= 1,
            decreases self.n - i,
        {
            let v = self.key[i] as u32;
            if v != 0 {
                let next = hash.wrapping_mul(v);
                if next == 0 || next <= hash {
                    break;
                }
                hash = next;
            }
            i = i + 1;
        }
        self.hash = hash;
    }

    /// How far segment `id` runs ahead in its stream.
    pub fn seg_skip(&self, id: usize) -> (skip: usize)
        requires
            self.key_bytes().len() > 0,
            id < usize::MAX,
            (id + 1) * self.key_bytes()[id as int % (self.key_bytes().len() as int)] <= usize::MAX,
        ensures
            skip == segment_skip(self.key_bytes(), self.hash_base(), id as int),
            skip < self.key_bytes().len(),
    {
        proof {
            use_type_invariant(self);
        }
        let seed = self.key[id % self.n] as usize;
        if seed == 0 {
            return 0;
        }
        let denom = (id + 1) * seed;
        assert(denom > 0) by (nonlinear_arith)
            requires
                denom == (id + 1) * seed,
                seed > 0,
        ;
        let value = hundredfold(self.hash, denom as u64);
        let limited = if value > usize::MAX as u64 {
            usize::MAX
        } else {
            value as usize
        };
        limited % self.n
    }

    /// Masks bytes from the start of the stream, the first one at position `offset`.
    pub fn enc_first(&self, buf: &mut [u8], offset: usize)
        requires
            old(buf)@.len() > 0 ==> self.key_bytes().len() > 0,
            offset + old(buf)@.len() <= usize::MAX,
            forall|p: int|
                offset <= p < offset + old(buf)@.len() ==> (p + 1)
                    * #[trigger] self.key_bytes()[p % (self.key_bytes().len() as int)]
                    <= usize::MAX,
        ensures
            final(buf)@ == masked(
                old(buf)@,
                offset as int,
                |p: int| self.key_bytes()[segment_skip(self.key_bytes(), self.hash_base(), p)],
            ),
    {
        let len = buf.len();
        let ghost key = self.key_bytes();
        let ghost hash = self.hash_base();
        for i in 0..len
            invariant
                key == self.key_bytes(),
                hash == self.hash_base(),
                len > 0 ==> key.len() > 0,
                len == buf@.len(),
                len == old(buf)@.len(),
                offset + len <= usize::MAX,
                forall|p: int|
                    offset <= p < offset + len ==> (p + 1) * #[trigger] key[p % (key.len() as int)]
                        <= usize::MAX,
                forall|k: int|
                    0 <= k < i ==> #[trigger] buf@[k] == old(buf)@[k] ^ key[segment_skip(
                        key,
                        hash,
                        offset + k,
                    )],
                forall|k: int| i <= k < len ==> buf@[k] == old(buf)@[k],
        {
            assert((offset + i + 1) * key[(offset + i) % (key.len() as int)] <= usize::MAX);
            let skip = self.seg_skip(offset + i);
            buf[i] = buf[i] ^ self.key[skip];
        }
    }

    /// Masks bytes of one segment, the first one at position `offset`.
    pub fn enc_seg(&self, buf: &mut [u8], offset: usize)
        requires
            self.key_bytes().len() > 0,
        ensures
            final(buf)@ == Seq::new(
                old(buf)@.len(),
                |i: int|
                    old(buf)@[i] ^ generated(
                        key_table(self.key_bytes()),
                        (offset as int % (SEGMENT as int) + segment_skip(
                            self.key_bytes(),
                            self.hash_base(),
                            offset as int / (SEGMENT as int),
                        ) + i) as nat,
                    ),
            ),
    {
        proof {
            use_type_invariant(self);
            lemma_schedule_shape(self.key@, self.key@.len());
        }
        let ghost key = self.key_bytes();
        let ghost start = key_table(key);
        let n = self.n;
        let id = offset / SEGMENT;
        assert((id + 1) * key[id as int % (key.len() as int)] <= usize::MAX) by (nonlinear_arith)
            requires
                id <= usize::MAX / 5120,
                0 <= key[id as int % (key.len() as int)] <= 255,
                usize::MAX >= 0xffff,
        ;
        let ahead = self.seg_skip(id);
        let inside = offset % SEGMENT;
        let mut table = self.box_state.clone();
        let mut j: usize = 0;
        let mut k: usize = 0;
        for t in 0..inside
            invariant
                0 < n == start.len(),
                (table@, j as int, k as int) == generator(start, t as nat),
        {
            advance(&mut table, &mut j, &mut k, Ghost(start), Ghost(t as nat));
        }
        for t in 0..ahead
            invariant
                0 < n == start.len(),
                (table@, j as int, k as int) == generator(start, (inside + t) as nat),
        {
            advance(&mut table, &mut j, &mut k, Ghost(start), Ghost((inside + t) as nat));
        }
        let len = buf.len();
        for i in 0..len
            invariant
                0 < n == start.len(),
                (table@, j as int, k as int) == generator(start, (inside + ahead + i) as nat),
                len == buf@.len(),
                len == old(buf)@.len(),
                forall|x: int|
                    0 <= x < i ==> #[trigger] buf@[x] == old(buf)@[x] ^ generated(
                        start,
                        (inside + ahead + x) as nat,
                    ),
                forall|x: int| i <= x < len ==> buf@[x] == old(buf)@[x],
        {
            advance(&mut table, &mut j, &mut k, Ghost(start), Ghost((inside + ahead + i) as nat));
            proof {
                lemma_generator_shape(start, (inside + ahead + i + 1) as nat);
            }
            let at = (table[j] as usize + table[k] as usize) % n;
            buf[i] = buf[i] ^ table[at];
        }
    }

    /// Masks `buf`, whose first byte stands at position `offset`.
    pub fn decrypt(&self, buf: &mut [u8], offset: usize)
        requires
            old(buf)@.len() > 0 ==> self.key_bytes().len() > 0,
            offset + old(buf)@.len() <= usize::MAX + 1,
        ensures
            final(buf)@ == masked(
                old(buf)@,
                offset as int,
                |p: int| rc4_mask(self.key_bytes(), self.hash_base(), p),
            ),
    {
        let ghost key = self.key_bytes();
        let ghost hash = self.hash_base();
        let len = buf.len();
        let mut done: usize = 0;
        if offset < FIRST {
            let size = if len < FIRST - offset {
                len
            } else {
                FIRST - offset
            };
            assert forall|p: int| offset <= p < offset + size implies (p + 1)
                * #[trigger] key[p % (key.len() as int)] <= usize::MAX by {
                assert((p + 1) * key[p % (key.len() as int)] <= 128 * 255) by (nonlinear_arith)
                    requires
                        0 <= p < 128,
                        0 <= key[p % (key.len() as int)] <= 255,
                ;
            }
            let (head, _) = buf.split_at_mut(size);
            self.enc_first(head, offset);
            done = size;
            assert forall|x: int| 0 <= x < done implies #[trigger] buf@[x] == old(buf)@[x]
                ^ rc4_mask(key, hash, offset + x) by {}
        }
        if done < len {
            let inside = (offset + done) % SEGMENT;
            if inside != 0 {
                let size = if len - done < SEGMENT - inside {
                    len - done
                } else {
                    SEGMENT - inside
                };
                self.enc_part(buf, done, size, offset);
                done = done + size;
            }
        }
        while len - done > SEGMENT
            invariant
                key == self.key_bytes(),
                hash == self.hash_base(),
                len > 0 ==> key.len() > 0,
                done <= len,
                len == buf@.len(),
                len == old(buf)@.len(),
                offset + len <= usize::MAX + 1,
                done < len ==> (offset + done) % (SEGMENT as int) == 0 && offset + done >= FIRST,
                forall|x: int|
                    0 <= x < done ==> #[trigger] buf@[x] == old(buf)@[x] ^ rc4_mask(
                        key,
                        hash,
                        offset + x,
                    ),
                forall|x: int| done <= x < len ==> buf@[x] == old(buf)@[x],
            decreases len - done,
        {
            self.enc_part(buf, done, SEGMENT, offset);
            done = done + SEGMENT;
        }
        if done < len {
            self.enc_part(buf, done, len - done, offset);
        }
    }

    /// Masks the `size` bytes of `buf` from index `done` on, which lie in one segment of
    /// a stream whose position `offset` is at index zero.
    fn enc_part(&self, buf: &mut [u8], done: usize, size: usize, offset: usize)
        requires
            self.key_bytes().len() > 0,
            done + size <= old(buf)@.len(),
            offset + done <= usize::MAX,
            offset + done >= FIRST,
            (offset + done) % (SEGMENT as int) + size <= SEGMENT,
        ensures
            final(buf)@.len() == old(buf)@.len(),
            forall|x: int|
                done <= x < done + size ==> #[trigger] final(buf)@[x] == old(buf)@[x] ^ rc4_mask(
                    self.key_bytes(),
                    self.hash_base(),
                    offset + x,
                ),
            forall|x: int|
                0 <= x < old(buf)@.len() && !(done <= x < done + size) ==> final(buf)@[x] == old(
                    buf,
                )@[x],
    {
        let ghost start = offset + done;
        let (_, rest) = buf.split_at_mut(done);
        let (part, _) = rest.split_at_mut(size);
        self.enc_seg(part, offset + done);
        assert forall|x: int| done <= x < done + size implies #[trigger] buf@[x] == old(buf)@[x]
            ^ rc4_mask(self.key_bytes(), self.hash_base(), offset + x) by {
            let segment = SEGMENT as int;
            let i = x - done;
            vstd::arithmetic::div_mod::lemma_fundamental_div_mod(start, segment);
            vstd::arithmetic::div_mod::lemma_fundamental_div_mod_converse(
                start + i,
                segment,
                start / segment,
                start % segment + i,
            );
        }
    }
}

/// One step of a segment's generator.
fn advance(
    table: &mut Vec<u8>,
    j: &mut usize,
    k: &mut usize,
    Ghost(start): Ghost<Seq<u8>>,
    Ghost(steps): Ghost<nat>,
)
    requires
        start.len() > 0,
        (old(table)@, *old(j) as int, *old(k) as int) == generator(start, steps),
    ensures
        (final(table)@, *final(j) as int, *final(k) as int) == generator(start, steps + 1),
        final(table)@.len() == start.len(),
{
    proof {
        lemma_generator_shape(start, steps);
        lemma_generator_shape(start, steps + 1);
    }
    let n = table.len();
    *j = add_mod(*j, 1, n);
    *k = add_mod(*k, table[*j] as usize, n);
    swap(table, *j, *k);
}

/// The cipher of files that carry no key.
pub struct StaticCipher;

impl StaticCipher {
    /// The mask for the byte at position `offset`.
    pub fn mask(&self, offset: usize) -> (mask: u8)
        ensures
            mask == static_mask(offset as int),
    {
        let at = fold(offset);
        STATIC_BOX[(at * at + 27) % 256]
    }

    /// Masks `buf`, whose first byte stands at position `offset`.
    pub fn decrypt(&self, buf: &mut [u8], offset: usize)
        requires
            offset + old(buf)@.len() <= usize::MAX + 1,
        ensures
            final(buf)@ == masked(old(buf)@, offset as int, |p: int| static_mask(p)),
    {
        let len = buf.len();
        for i in 0..len
            invariant
                len == buf@.len(),
                len == old(buf)@.len(),
                offset + len <= usize::MAX + 1,
                forall|k: int|
                    0 <= k < i ==> #[trigger] buf@[k] == old(buf)@[k] ^ static_mask(offset + k),
                forall|k: int| i <= k < len ==> buf@[k] == old(buf)@[k],
        {
            let mask = self.mask(offset + i);
            buf[i] = buf[i] ^ mask;
        }
    }
}

/// A cipher of the family.
pub enum QmcCipher {
    Short(MapCipher),
    Long(Rc4Cipher),
    Static(StaticCipher),
}

/// The mask at position `p` of the cipher that a key selects.
pub open spec fn key_mask(key: Seq<u8>, p: int) -> u8 {
    if key.len() > LONGEST_MAP_KEY {
        rc4_mask(key, key_hash(key), p)
    } else {
        map_mask(key, p)
    }
}

impl QmcCipher {
    /// Whether the cipher can mask anything: one with a key needs a key that is not empty.
    pub open spec fn usable(&self) -> bool {
        match self {
            QmcCipher::Short(cipher) => cipher.key_bytes().len() > 0,
            QmcCipher::Long(cipher) => cipher.key_bytes().len() > 0,
            QmcCipher::Static(_) => true,
        }
    }

    /// The mask at position `p`.
    pub open spec fn mask_at(&self, p: int) -> u8 {
        match self {
            QmcCipher::Short(cipher) => map_mask(cipher.key_bytes(), p),
            QmcCipher::Long(cipher) => rc4_mask(cipher.key_bytes(), cipher.hash_base(), p),
            QmcCipher::Static(_) => static_mask(p),
        }
    }

    /// What `decrypt` makes of `data` at position `offset`.
    pub open spec fn applied(&self, data: Seq<u8>, offset: int) -> Seq<u8> {
        masked(data, offset, |p: int| self.mask_at(p))
    }

    /// The cipher for a key; there is none for the empty key.
    pub fn new(key: Vec<u8>) -> (cipher: Option<Self>)
        ensures
            cipher is Some <==> key@.len() > 0,
            cipher matches Some(c) ==> c.usable(),
            cipher matches Some(c) ==> (c is Long <==> key@.len() > LONGEST_MAP_KEY),
            cipher matches Some(c) ==> (c is Short <==> key@.len() <= LONGEST_MAP_KEY),
            cipher matches Some(QmcCipher::Short(inner)) ==> inner.key_bytes() == key@,
            cipher matches Some(QmcCipher::Long(inner)) ==> inner.key_bytes() == key@
                && inner.hash_base() == key_hash(key@),
            cipher matches Some(c) ==> forall|p: int| #[trigger]
                c.mask_at(p) == key_mask(key@, p),
    {
        if key.len() > LONGEST_MAP_KEY {
            Some(Self::Long(Rc4Cipher::new(key)))
        } else if !key.is_empty() {
            Some(Self::Short(MapCipher::new(key)))
        } else {
            None
        }
    }

    /// The cipher of files that carry no key.
    pub fn static_cipher() -> (cipher: Self)
        ensures
            cipher.usable(),
            cipher is Static,
    {
        Self::Static(StaticCipher)
    }

    /// Masks `buf`, whose first byte stands at position `offset`.
    pub fn decrypt(&self, buf: &mut [u8], offset: usize)
        requires
            old(buf)@.len() > 0 ==> self.usable(),
            offset + old(buf)@.len() <= usize::MAX + 1,
        ensures
            final(buf)@ == self.applied(old(buf)@, offset as int),
    {
        match self {
            Self::Short(cipher) => cipher.decrypt(buf, offset),
            Self::Long(cipher) => cipher.decrypt(buf, offset),
            Self::Static(cipher) => cipher.decrypt(buf, offset),
        }
    }
}

/// Masking data twice with one mask at one position gives it back.
pub proof fn law_mask_reversible(data: Seq<u8>, offset: int, mask: spec_fn(int) -> u8)
    ensures
        masked(masked(data, offset, mask), offset, mask) == data,
{
    let twice = masked(masked(data, offset, mask), offset, mask);
    assert forall|i: int| 0 <= i < data.len() implies #[trigger] twice[i] == data[i] by {
        let d = data[i];
        let m = mask(offset + i);
        assert((d ^ m) ^ m == d) by (bit_vector);
    }
    assert(twice =~= data);
}

/// Every cipher is its own inverse: masking data twice at one position gives it back.
pub proof fn law_cipher_reversible(cipher: &QmcCipher, data: Seq<u8>, offset: int)
    ensures
        cipher.applied(cipher.applied(data, offset), offset) == data,
{
    law_mask_reversible(data, offset, |p: int| cipher.mask_at(p));
}

/// A mask that depends on the position alone may be applied in pieces, wherever they are
/// parted: this holds of each cipher by itself.
pub proof fn law_mask_in_pieces(data: Seq<u8>, at: int, offset: int, mask: spec_fn(int) -> u8)
    requires
        0 <= at <= data.len(),
    ensures
        masked(data, offset, mask) == masked(data.subrange(0, at), offset, mask) + masked(
            data.subrange(at, data.len() as int),
            offset + at,
            mask,
        ),
{
    assert(masked(data, offset, mask) =~= masked(data.subrange(0, at), offset, mask) + masked(
        data.subrange(at, data.len() as int),
        offset + at,
        mask,
    ));
}

/// A stream may be decoded in pieces: masking two pieces one after the other, each at
/// its own position, gives what masking them together gives.
pub proof fn law_cipher_in_pieces(
    cipher: &QmcCipher,
    first: Seq<u8>,
    second: Seq<u8>,
    offset: int,
)
    ensures
        cipher.applied(first + second, offset) == cipher.applied(first, offset) + cipher.applied(
            second,
            offset + first.len(),
        ),
{
    let both = first + second;
    let at = first.len() as int;
    assert(both.subrange(0, at) =~= first);
    assert(both.subrange(at, both.len() as int) =~= second);
    law_mask_in_pieces(both, at, offset, |p: int| cipher.mask_at(p));
}

/// A cipher combines data with a stream that its position alone fixes: what it changes in
/// two pieces of data of one length, at one position, is the same.
pub proof fn law_cipher_is_keystream(
    cipher: &QmcCipher,
    first: Seq<u8>,
    second: Seq<u8>,
    offset: int,
)
    requires
        first.len() == second.len(),
    ensures
        cipher.applied(first, offset).len() == first.len(),
        cipher.applied(second, offset).len() == second.len(),
        forall|i: int|
            0 <= i < first.len() ==> #[trigger] cipher.applied(first, offset)[i] ^ first[i]
                == cipher.applied(second, offset)[i] ^ second[i],
        forall|i: int|
            0 <= i < first.len() ==> #[trigger] cipher.applied(first, offset)[i] ^ first[i]
                == cipher.mask_at(offset + i),
{
    assert forall|i: int| 0 <= i < first.len() implies {
        &&& #[trigger] cipher.applied(first, offset)[i] ^ first[i] == cipher.mask_at(offset + i)
        &&& cipher.applied(second, offset)[i] ^ second[i] == cipher.mask_at(offset + i)
    } by {
        let a = first[i];
        let b = second[i];
        let m = cipher.mask_at(offset + i);
        assert((a ^ m) ^ a == m && (b ^ m) ^ b == m) by (bit_vector);
    }
}

/// Two ciphers made from one key mask alike at every position, so that a key and a
/// position fix the stream.
pub proof fn law_key_fixes_keystream(
    key: Seq<u8>,
    first: &QmcCipher,
    second: &QmcCipher,
    data: Seq<u8>,
    offset: int,
)
    requires
        forall|p: int| #[trigger] first.mask_at(p) == key_mask(key, p),
        forall|p: int| #[trigger] second.mask_at(p) == key_mask(key, p),
    ensures
        first.applied(data, offset) == second.applied(data, offset),
{
    assert(first.applied(data, offset) =~= second.applied(data, offset));
}

/// Decoding changes bytes where they stand: it neither adds nor removes any.
pub proof fn law_cipher_keeps_length(cipher: &QmcCipher, data: Seq<u8>, offset: int)
    ensures
        cipher.applied(data, offset).len() == data.len(),
{
}

/// The mask of a short key: the square of the position and 71214, divided by the length of
/// the key, leave the index of a key byte; its bits are shifted both ways by 4, 5, 6, 7, 0,
/// 1, 2 and 3 places as the index runs through 0 to 7 modulo 8. Past 0x7fff the positions
/// start over.
pub proof fn law_short_key_mask(key: Seq<u8>, p: int)
    requires
        key.len() > 0,
        p >= 0,
    ensures
        ({
            let o = if p > 0x7fff {
                p % 0x7fff
            } else {
                p
            };
            let i = (o * o + 71214) % (key.len() as int);
            let byte = key[i];
            &&& 0 <= i < key.len()
            &&& i % 8 == 0 ==> map_mask(key, p) == (byte << 4u8) | (byte >> 4u8)
            &&& i % 8 == 1 ==> map_mask(key, p) == (byte << 5u8) | (byte >> 5u8)
            &&& i % 8 == 2 ==> map_mask(key, p) == (byte << 6u8) | (byte >> 6u8)
            &&& i % 8 == 3 ==> map_mask(key, p) == (byte << 7u8) | (byte >> 7u8)
            &&& i % 8 == 4 ==> map_mask(key, p) == byte
            &&& i % 8 == 5 ==> map_mask(key, p) == (byte << 1u8) | (byte >> 1u8)
            &&& i % 8 == 6 ==> map_mask(key, p) == (byte << 2u8) | (byte >> 2u8)
            &&& i % 8 == 7 ==> map_mask(key, p) == (byte << 3u8) | (byte >> 3u8)
        }),
        key.len() <= 300 ==> key_mask(key, p) == map_mask(key, p),
        key.len() > 300 ==> key_mask(key, p) == rc4_mask(key, key_hash(key), p),
{
    let o = if p > 0x7fff {
        p % 0x7fff
    } else {
        p
    };
    let i = (o * o + 71214) % (key.len() as int);
    assert(o * o >= 0) by (nonlinear_arith);
    let byte = key[i];
    assert((byte << 0u8) | (byte >> 0u8) == byte) by (bit_vector);
}

/// The mask of a short key starts over past 0x7fff, and the first 0x7fff positions are all
/// that it goes through again.
pub proof fn law_short_key_mask_repeats(key: Seq<u8>, p: int, rounds: int)
    requires
        key.len() > 0,
        0 < p < 0x7fff,
        rounds >= 1,
    ensures
        map_mask(key, p + 0x7fff * rounds) == map_mask(key, p),
        static_mask(p + 0x7fff * rounds) == static_mask(p),
{
    vstd::arithmetic::div_mod::lemma_mod_multiples_vanish(rounds, p, 0x7fff);
    vstd::arithmetic::div_mod::lemma_small_mod(p as nat, 0x7fff);
}

proof fn lemma_square_residues(o: u32)
    by (bit_vector)
    requires
        o <= 0x7fff,
    ensures
        ({
            let r = (o * o) % 256;
            r == 0 || r == 1 || r == 4 || r == 9 || r == 16 || r == 17 || r == 25 || r == 33
                || r == 36 || r == 41 || r == 49 || r == 57 || r == 64 || r == 65 || r == 68
                || r == 73 || r == 81 || r == 89 || r == 97 || r == 100 || r == 105 || r == 113
                || r == 121 || r == 129 || r == 132 || r == 137 || r == 144 || r == 145
                || r == 153 || r == 161 || r == 164 || r == 169 || r == 177 || r == 185
                || r == 193 || r == 196 || r == 201 || r == 209 || r == 217 || r == 225
                || r == 228 || r == 233 || r == 241 || r == 249
        }),
{
}

/// What the cipher without a key masks with: the square of the position modulo 256, which
/// takes these values only, decides.
pub proof fn law_static_mask(p: int)
    requires
        p >= 0,
    ensures
        ({
            let o = if p > 0x7fff {
                p % 0x7fff
            } else {
                p
            };
            let r = (o * o) % 256;
            let key = static_mask(p);
            &&& r == 0 ==> key == 0xc3
            &&& r == 1 ==> key == 0x4a
            &&& r == 4 ==> key == 0xd6
            &&& r == 9 ==> key == 0xca
            &&& r == 16 ==> key == 0x90
            &&& r == 17 ==> key == 0x7e
            &&& r == 25 ==> key == 0x67
            &&& r == 33 ==> key == 0x5e
            &&& r == 36 ==> key == 0xf7
            &&& r == 41 ==> key == 0xd5
            &&& r == 49 ==> key == 0x52
            &&& r == 57 ==> key == 0x84
            &&& r == 64 ==> key == 0xd8
            &&& r == 65 ==> key == 0x47
            &&& r == 68 ==> key == 0x95
            &&& r == 73 ==> key == 0xbb
            &&& r == 81 ==> key == 0xa1
            &&& r == 89 ==> key == 0xaa
            &&& r == 97 ==> key == 0xc6
            &&& r == 100 ==> key == 0x66
            &&& r == 105 ==> key == 0x23
            &&& r == 113 ==> key == 0x92
            &&& r == 121 ==> key == 0x62
            &&& r == 129 ==> key == 0xf3
            &&& r == 132 ==> key == 0x74
            &&& r == 137 ==> key == 0xa1
            &&& r == 144 ==> key == 0x9f
            &&& r == 145 ==> key == 0xf4
            &&& r == 153 ==> key == 0xa0
            &&& r == 161 ==> key == 0x1d
            &&& r == 164 ==> key == 0x3f
            &&& r == 169 ==> key == 0x5b
            &&& r == 177 ==> key == 0xf0
            &&& r == 185 ==> key == 0x13
            &&& r == 193 ==> key == 0x0e
            &&& r == 196 ==> key == 0x09
            &&& r == 201 ==> key == 0x3d
            &&& r == 209 ==> key == 0xf9
            &&& r == 217 ==> key == 0xbc
            &&& r == 225 ==> key == 0x00
            &&& r == 228 ==> key == 0x11
            &&& r == 233 ==> key == 0xde
            &&& r == 241 ==> key == 0x51
            &&& r == 249 ==> key == 0xfa
            &&& r == 0 || r == 1 || r == 4 || r == 9 || r == 16 || r == 17 || r == 25
                || r == 33 || r == 36 || r == 41 || r == 49 || r == 57 || r == 64 || r == 65
                || r == 68 || r == 73 || r == 81 || r == 89 || r == 97 || r == 100 || r == 105
                || r == 113 || r == 121 || r == 129 || r == 132 || r == 137 || r == 144
                || r == 145 || r == 153 || r == 161 || r == 164 || r == 169 || r == 177
                || r == 185 || r == 193 || r == 196 || r == 201 || r == 209 || r == 217
                || r == 225 || r == 228 || r == 233 || r == 241 || r == 249
        }),
{
    let o = if p > 0x7fff {
        p % 0x7fff
    } else {
        p
    };
    let r = (o * o) % 256;
    let small = o as u32;
    assert(small == o);
    assert((small * small) % 256 == r);
    lemma_square_residues(small);
    let at = (r + 27) % 256;
    assert((o * o + 27) % 256 == (r + 27) % 256) by {
        vstd::arithmetic::div_mod::lemma_add_mod_noop(o * o, 27, 256);
    }
    assert(static_mask(p) == STATIC_BOX@[at]);
    lemma_static_entries(r);
}

proof fn lemma_static_entries(r: int)
    requires
        0 <= r < 256,
    ensures
        ({
            let entry = STATIC_BOX@[(r + 27) % 256];
            &&& r == 0 ==> entry == 0xc3
            &&& r == 1 ==> entry == 0x4a
            &&& r == 4 ==> entry == 0xd6
            &&& r == 9 ==> entry == 0xca
            &&& r == 16 ==> entry == 0x90
            &&& r == 17 ==> entry == 0x7e
            &&& r == 25 ==> entry == 0x67
            &&& r == 33 ==> entry == 0x5e
            &&& r == 36 ==> entry == 0xf7
            &&& r == 41 ==> entry == 0xd5
            &&& r == 49 ==> entry == 0x52
            &&& r == 57 ==> entry == 0x84
            &&& r == 64 ==> entry == 0xd8
            &&& r == 65 ==> entry == 0x47
            &&& r == 68 ==> entry == 0x95
            &&& r == 73 ==> entry == 0xbb
            &&& r == 81 ==> entry == 0xa1
            &&& r == 89 ==> entry == 0xaa
            &&& r == 97 ==> entry == 0xc6
            &&& r == 100 ==> entry == 0x66
            &&& r == 105 ==> entry == 0x23
            &&& r == 113 ==> entry == 0x92
            &&& r == 121 ==> entry == 0x62
            &&& r == 129 ==> entry == 0xf3
            &&& r == 132 ==> entry == 0x74
            &&& r == 137 ==> entry == 0xa1
            &&& r == 144 ==> entry == 0x9f
            &&& r == 145 ==> entry == 0xf4
            &&& r == 153 ==> entry == 0xa0
            &&& r == 161 ==> entry == 0x1d
            &&& r == 164 ==> entry == 0x3f
            &&& r == 169 ==> entry == 0x5b
            &&& r == 177 ==> entry == 0xf0
            &&& r == 185 ==> entry == 0x13
            &&& r == 193 ==> entry == 0x0e
            &&& r == 196 ==> entry == 0x09
            &&& r == 201 ==> entry == 0x3d
            &&& r == 209 ==> entry == 0xf9
            &&& r == 217 ==> entry == 0xbc
            &&& r == 225 ==> entry == 0x00
            &&& r == 228 ==> entry == 0x11
            &&& r == 233 ==> entry == 0xde
            &&& r == 241 ==> entry == 0x51
            &&& r == 249 ==> entry == 0xfa
        }),
{
}

/// The mask of a long key in the first 128 bytes is a key byte.
pub proof fn law_long_key_first(key: Seq<u8>, p: int)
    requires
        key.len() > 300,
        0 <= p < 128,
    ensures
        key_mask(key, p) == key[segment_skip(key, key_hash(key), p)],
{
}

/// Past the first 128 bytes a long key masks in segments of 5120 bytes: byte `i` of segment
/// `id` is masked with what the generator gives after `i` steps and those that the segment
/// runs ahead, whatever the number of the segment.
pub proof fn law_long_key_segments(key: Seq<u8>, id: int, i: int)
    requires
        key.len() > 300,
        0 <= id,
        0 <= i < 5120,
        5120 * id + i >= 128,
    ensures
        key_mask(key, 5120 * id + i) == generated(
            key_table(key),
            (i + segment_skip(key, key_hash(key), id)) as nat,
        ),
{
    let p = 5120 * id + i;
    assert(p / 5120 == id && p % 5120 == i);
}

/// Two segments that run ahead equally far are masked alike; one that runs further ahead
/// goes through the same stream, shifted.
pub proof fn law_segments_share_stream(key: Seq<u8>, first: int, second: int, i: int, j: int)
    requires
        key.len() > 300,
        1 <= first,
        1 <= second,
        0 <= i < 5120,
        0 <= j < 5120,
        i + segment_skip(key, key_hash(key), first) == j + segment_skip(
            key,
            key_hash(key),
            second,
        ),
    ensures
        key_mask(key, 5120 * first + i) == key_mask(key, 5120 * second + j),
{
    law_long_key_segments(key, first, i);
    law_long_key_segments(key, second, j);
}

/// How far segment `id` runs ahead: nowhere if the key byte at `id`, the key repeated, is
/// zero; otherwise the ratio of the hash to that byte times one more than `id`, a
/// hundredfold, less a multiple of the length of the key.
pub proof fn law_segment_skip(key: Seq<u8>, hash: u32, id: int)
    requires
        key.len() > 0,
        hash > 0,
        id >= 0,
    ensures
        0 <= segment_skip(key, hash, id) < key.len(),
        key[id % (key.len() as int)] == 0 ==> segment_skip(key, hash, id) == 0,
        key[id % (key.len() as int)] != 0 ==> {
            let ratio = hundredfold_ratio(
                hash as nat,
                ((id + 1) * key[id % (key.len() as int)]) as nat,
            );
            ratio <= usize::MAX ==> (ratio - segment_skip(key, hash, id)) % (key.len() as int) == 0
        },
{
    let n = key.len() as int;
    let seed = key[id % n];
    if seed != 0 {
        let ratio = hundredfold_ratio(hash as nat, ((id + 1) * seed) as nat) as int;
        let limited = if ratio > usize::MAX {
            usize::MAX as int
        } else {
            ratio
        };
        vstd::arithmetic::div_mod::lemma_fundamental_div_mod(limited, n);
        vstd::arithmetic::div_mod::lemma_mod_multiples_basic(limited / n, n);
        vstd::arithmetic::mul::lemma_mul_is_commutative(n, limited / n);
    }
}

/// One step of the key schedule: the index moves on by the table entry and the key byte of
/// the step, round the table, and those two entries change places; all others stay.
pub proof fn law_schedule_step(key: Seq<u8>, step: nat, at: int)
    requires
        step < key.len(),
        0 <= at < key.len(),
    ensures
        ({
            let n = key.len() as int;
            let (table, last) = schedule(key, step);
            let (after, j) = schedule(key, step + 1);
            &&& table.len() == n && after.len() == n
            &&& 0 <= j < n
            &&& (last + table[step as int] + key[step as int] - j) % n == 0
            &&& after[j] == table[step as int]
            &&& after[step as int] == table[j]
            &&& at != j && at != step ==> after[at] == table[at]
        }),
        schedule(key, 0).1 == 0,
        schedule(key, 0).0[at] as int == at % 256,
        key_table(key) == schedule(key, key.len()).0,
{
    lemma_schedule_shape(key, step);
    lemma_schedule_shape(key, step + 1);
    let n = key.len() as int;
    let (table, last) = schedule(key, step);
    let sum = last + table[step as int] + key[step as int];
    vstd::arithmetic::div_mod::lemma_fundamental_div_mod(sum, n);
    vstd::arithmetic::div_mod::lemma_mod_multiples_basic(sum / n, n);
    vstd::arithmetic::mul::lemma_mul_is_commutative(n, sum / n);
}

/// One step of a segment's generator: the first index moves on by one and the second by the
/// entry found there, both round the table; the two entries change places; and the entry at
/// their sum, round the table, is what the step gives.
pub proof fn law_generator_step(table: Seq<u8>, steps: nat, at: int)
    requires
        table.len() > 0,
        0 <= at < table.len(),
    ensures
        ({
            let n = table.len() as int;
            let (before, j0, k0) = generator(table, steps);
            let (after, j, k) = generator(table, steps + 1);
            &&& before.len() == n && after.len() == n
            &&& 0 <= j < n && 0 <= k < n
            &&& j == (if j0 + 1 == n {
                0
            } else {
                j0 + 1
            })
            &&& (k0 + before[j] - k) % n == 0
            &&& after[j] == before[k]
            &&& after[k] == before[j]
            &&& at != j && at != k ==> after[at] == before[at]
            &&& 0 <= at < n && (after[j] + after[k] - at) % n == 0 ==> generated(table, steps)
                == after[at]
        }),
        generator(table, 0) == (table, 0int, 0int),
{
    lemma_generator_shape(table, steps);
    lemma_generator_shape(table, steps + 1);
    let n = table.len() as int;
    let (before, j0, k0) = generator(table, steps);
    let (after, j, k) = generator(table, steps + 1);
    if j0 + 1 == n {
        vstd::arithmetic::div_mod::lemma_mod_self_0(n);
    } else {
        vstd::arithmetic::div_mod::lemma_small_mod((j0 + 1) as nat, n as nat);
    }
    let sum = before[j] + k0;
    vstd::arithmetic::div_mod::lemma_fundamental_div_mod(sum, n);
    vstd::arithmetic::div_mod::lemma_mod_multiples_basic(sum / n, n);
    vstd::arithmetic::mul::lemma_mul_is_commutative(n, sum / n);
    let total = after[j] + after[k];
    if (total - at) % n == 0 {
        vstd::arithmetic::div_mod::lemma_fundamental_div_mod(total - at, n);
        vstd::arithmetic::mul::lemma_mul_is_commutative(n, (total - at) / n);
        vstd::arithmetic::div_mod::lemma_fundamental_div_mod_converse(
            total,
            n,
            (total - at) / n,
            at,
        );
    }
}

/// The product of the key bytes in front of `end` that are not zero.
pub open spec fn product_before(key: Seq<u8>, end: int) -> int
    decreases end,
{
    if end <= 0 {
        1
    } else {
        product_before(key, end - 1) * (if key[end - 1] == 0 {
            1
        } else {
            key[end - 1] as int
        })
    }
}

/// Whether the key byte at `at` makes the product grow, in 32 bits, or is zero.
pub open spec fn grows_at(key: Seq<u8>, at: int) -> bool {
    key[at] == 0 || product_before(key, at + 1) % 0x1_0000_0000 > product_before(key, at)
        % 0x1_0000_0000
}

/// Whether the hash takes in the key bytes in front of `end` and no others.
pub open spec fn hash_ends_at(key: Seq<u8>, end: int) -> bool {
    &&& 0 <= end <= key.len()
    &&& forall|i: int| 0 <= i < end ==> #[trigger] grows_at(key, i)
    &&& end < key.len() ==> !grows_at(key, end)
}

proof fn lemma_hash_from(key: Seq<u8>, at: int, hash: u32) -> (end: int)
    requires
        0 <= at <= key.len(),
        hash == product_before(key, at) % 0x1_0000_0000,
        forall|i: int| 0 <= i < at ==> #[trigger] grows_at(key, i),
    ensures
        hash_ends_at(key, end),
        hash_from(key, at, hash) == product_before(key, end) % 0x1_0000_0000,
    decreases key.len() - at,
{
    let modulus = 0x1_0000_0000int;
    if at == key.len() {
        at
    } else if key[at] == 0 {
        let product = product_before(key, at);
        assert(product * 1 == product);
        assert(grows_at(key, at));
        lemma_hash_from(key, at + 1, hash)
    } else {
        let product = product_before(key, at);
        vstd::arithmetic::div_mod::lemma_mul_mod_noop_left(product, key[at] as int, modulus);
        let next = ((hash * key[at]) % 0x1_0000_0000) as u32;
        assert(next == product_before(key, at + 1) % modulus);
        if next <= hash {
            assert(!grows_at(key, at));
            at
        } else {
            assert(grows_at(key, at));
            lemma_hash_from(key, at + 1, next)
        }
    }
}

/// The hash of a key is the product, in 32 bits, of its bytes that are not zero, up to the
/// first one that does not make it grow.
pub proof fn law_key_hash(key: Seq<u8>, end: int)
    requires
        hash_ends_at(key, end),
    ensures
        key_hash(key) == product_before(key, end) % 0x1_0000_0000,
{
    assert(product_before(key, 0) == 1);
    let found = lemma_hash_from(key, 0, 1);
    if found < end {
        assert(grows_at(key, found));
    } else if end < found {
        assert(grows_at(key, end));
    }
}

} // verus!
