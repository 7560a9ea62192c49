//! Pack files and their version-2 index files: an in-memory positioned
//! byte reader, 20-byte object hashes with their sort order, the two-level
//! fan-out/sorted-hash lookup protocol of `.idx` files, and the
//! variable-length object headers of `.pack` files.

use vstd::prelude::*;

use crate::errors::GitError;
use crate::text::{hex_of, to_hex_string};
use std::io::Read;

verus! {

/// Number of bytes in an object hash.
pub const HASH_SIZE: usize = 20;

/// The value of the big-endian 32-bit integer at position `p` of `d`.
pub open spec fn be32_at(d: Seq<u8>, p: int) -> int
    recommends
        0 <= p,
        p + 4 <= d.len(),
{
    d[p] * 0x1000000 + d[p + 1] * 0x10000 + d[p + 2] * 0x100 + d[p + 3]
}

/// The value of the big-endian 64-bit integer at position `p` of `d`.
pub open spec fn be64_at(d: Seq<u8>, p: int) -> int
    recommends
        0 <= p,
        p + 8 <= d.len(),
{
    be32_at(d, p) * 0x100000000 + be32_at(d, p + 4)
}

/// A positioned reader over a fully loaded file.
pub struct BytesFile {
    /// The whole file.
    pub data: Vec<u8>,
    /// The read position, counted in bytes from the start.
    pub pos: usize,
}

impl BytesFile {
    /// Wraps loaded file contents in a reader positioned at the start.
    pub fn from_data(data: Vec<u8>) -> (r: Self)
        ensures
            r.data == data,
            r.pos == 0,
    {
        BytesFile { data, pos: 0 }
    }

    /// Moves the read position to `pos` (which may lie past the end;
    /// reads from there fail).
    pub fn seek(&mut self, pos: usize)
        ensures
            final(self).data == old(self).data,
            final(self).pos == pos,
    {
        self.pos = pos;
    }

    /// Reads the next `n` bytes and advances; fails without moving
    /// when fewer than `n` bytes remain.
    pub fn read_bytes(&mut self, n: usize) -> (r: Result<Vec<u8>, GitError>)
        ensures
            final(self).data == old(self).data,
            match r {
                Ok(v) => {
                    &&& old(self).pos + n <= old(self).data@.len()
                    &&& v@ == old(self).data@.subrange(
                        old(self).pos as int,
                        old(self).pos + n,
                    )
                    &&& final(self).pos == old(self).pos + n
                },
                Err(e) => {
                    &&& old(self).pos + n > old(self).data@.len()
                    &&& e == GitError::IoError
                    &&& final(self).pos == old(self).pos
                },
            },
    {
        if n > self.data.len() || self.pos > self.data.len() - n {
            return Err(GitError::IoError);
        }
        let mut v: Vec<u8> = Vec::new();
        let mut i: usize = 0;
        assert(self.data@.len() == self.data.len());
        while i < n
            invariant
                self.pos + n <= self.data@.len(),
                self.data@.len() <= usize::MAX,
                i <= n,
                v@ == self.data@.subrange(self.pos as int, self.pos + i),
            decreases n - i,
        {
            assert(self.pos + i < self.data@.len());
            v.push(self.data[self.pos + i]);
            proof {
                assert(v@ =~= self.data@.subrange(self.pos as int, self.pos + i + 1));
            }
            i = i + 1;
        }
        self.pos = self.pos + n;
        Ok(v)
    }

    /// Reads a big-endian 32-bit integer.
    pub fn read_u32(&mut self) -> (r: Result<u32, GitError>)
        ensures
            final(self).data == old(self).data,
            match r {
                Ok(v) => {
                    &&& old(self).pos + 4 <= old(self).data@.len()
                    &&& v == be32_at(old(self).data@, old(self).pos as int)
                    &&& final(self).pos == old(self).pos + 4
                },
                Err(e) => {
                    &&& old(self).pos + 4 > old(self).data@.len()
                    &&& e == GitError::IoError
                    &&& final(self).pos == old(self).pos
                },
            },
    {
        let bytes = match self.read_bytes(4) {
            Ok(v) => v,
            Err(e) => { return Err(e) },
        };
        let v: u32 = (bytes[0] as u32) * 0x1000000 + (bytes[1] as u32) * 0x10000 + (
        bytes[2] as u32) * 0x100 + (bytes[3] as u32);
        Ok(v)
    }

    /// Reads a big-endian 64-bit integer.
    pub fn read_u64(&mut self) -> (r: Result<u64, GitError>)
        ensures
            final(self).data == old(self).data,
            match r {
                Ok(v) => {
                    &&& old(self).pos + 8 <= old(self).data@.len()
                    &&& v == be64_at(old(self).data@, old(self).pos as int)
                    &&& final(self).pos == old(self).pos + 8
                },
                Err(e) => {
                    &&& old(self).pos + 8 > old(self).data@.len()
                    &&& e == GitError::IoError
                    &&& final(self).pos == old(self).pos
                },
            },
    {
        let hi = match self.read_u32() {
            Ok(v) => v,
            Err(e) => { return Err(e) },
        };
        let lo = match self.read_u32() {
            Ok(v) => v,
            Err(e) => {
                // The first half was consumed; restore the position.
                let p = self.pos;
                self.seek(p - 4);
                return Err(e)
            },
        };
        Ok((hi as u64) * 0x100000000 + (lo as u64))
    }

    /// Reads a 20-byte object hash.
    pub fn read_hash(&mut self) -> (r: Result<Hash, GitError>)
        ensures
            final(self).data == old(self).data,
            match r {
                Ok(h) => {
                    &&& old(self).pos + 20 <= old(self).data@.len()
                    &&& h@ == old(self).data@.subrange(
                        old(self).pos as int,
                        old(self).pos + 20,
                    )
                    &&& final(self).pos == old(self).pos + 20
                },
                Err(e) => {
                    &&& old(self).pos + 20 > old(self).data@.len()
                    &&& e == GitError::IoError
                    &&& final(self).pos == old(self).pos
                },
            },
    {
        let bytes = match self.read_bytes(HASH_SIZE) {
            Ok(v) => v,
            Err(e) => { return Err(e) },
        };
        let mut a: [u8; 20] = [0u8; 20];
        let mut i: usize = 0;
        while i < 20
            invariant
                bytes@.len() == 20,
                i <= 20,
                forall|j: int| 0 <= j < i ==> a@[j] == bytes@[j],
        decreases 20 - i,
        {
            a[i] = bytes[i];
            i = i + 1;
        }
        let h = Hash(a);
        proof {
            assert(h@ =~= bytes@);
        }
        Ok(h)
    }
}

/// A 20-byte object hash.
#[derive(Debug, Clone, Copy)]
pub struct Hash(pub [u8; 20]);

impl View for Hash {
    type V = Seq<u8>;

    open spec fn view(&self) -> Seq<u8> {
        self.0@
    }
}

/// Strict lexicographic order on byte sequences; on the equal-length
/// hash table of an index file it is the ascending sort order.
pub open spec fn hash_lt(a: Seq<u8>, b: Seq<u8>) -> bool
    decreases a.len(),
{
    if a.len() == 0 || b.len() == 0 {
        false
    } else if a[0] < b[0] {
        true
    } else if a[0] > b[0] {
        false
    } else {
        hash_lt(a.drop_first(), b.drop_first())
    }
}

/// Nothing is lexicographically below itself.
pub proof fn lemma_hash_lt_irrefl(a: Seq<u8>)
    ensures
        !hash_lt(a, a),
    decreases a.len(),
{
    if a.len() > 0 {
        lemma_hash_lt_irrefl(a.drop_first());
    }
}

/// The lexicographic order is transitive.
pub proof fn lemma_hash_lt_trans(a: Seq<u8>, b: Seq<u8>, c: Seq<u8>)
    requires
        hash_lt(a, b),
        hash_lt(b, c),
    ensures
        hash_lt(a, c),
    decreases a.len(),
{
    if a[0] == b[0] && b[0] == c[0] {
        lemma_hash_lt_trans(a.drop_first(), b.drop_first(), c.drop_first());
    }
}

/// Two equal-length sequences that neither precede nor follow each
/// other are equal.
pub proof fn lemma_hash_lt_connected(a: Seq<u8>, b: Seq<u8>)
    requires
        a.len() == b.len(),
        !hash_lt(a, b),
        !hash_lt(b, a),
    ensures
        a =~= b,
    decreases a.len(),
{
    if a.len() > 0 {
        lemma_hash_lt_connected(a.drop_first(), b.drop_first());
        assert(a =~= seq![a[0]] + a.drop_first());
        assert(b =~= seq![b[0]] + b.drop_first());
    }
}

impl Hash {
    /// The 40-character lower-case hexadecimal form of the hash.
    pub fn to_string(&self) -> (r: String)
        ensures
            r@ == hex_of(self@),
    {
        to_hex_string(self.0.as_slice())
    }

    /// Three-way lexicographic comparison: negative when `self` sorts
    /// before `other`, zero when equal, positive otherwise.
    pub fn compare(&self, other: &Hash) -> (r: i32)
        ensures
            r < 0 <==> hash_lt(self@, other@),
            r > 0 <==> hash_lt(other@, self@),
            r == 0 <==> self@ == other@,
    {
        let mut i: usize = 0;
        proof {
            assert(self@.skip(0) == self@);
            assert(other@.skip(0) == other@);
        }
        while i < 20
            invariant
                i <= 20,
                forall|j: int| 0 <= j < i ==> self@[j] == other@[j],
                hash_lt(self@, other@) <==> hash_lt(self@.skip(i as int), other@.skip(i as int)),
                hash_lt(other@, self@) <==> hash_lt(other@.skip(i as int), self@.skip(i as int)),
            decreases 20 - i,
        {
            let x = self.0[i];
            let y = other.0[i];
            proof {
                assert(self@.skip(i as int)[0] == self@[i as int]);
                assert(other@.skip(i as int)[0] == other@[i as int]);
                assert(self@.skip(i as int).drop_first() =~= self@.skip(i + 1));
                assert(other@.skip(i as int).drop_first() =~= other@.skip(i + 1));
            }
            if x < y {
                return -1;
            }
            if x > y {
                return 1;
            }
            i = i + 1;
        }
        proof {
            assert(self@.skip(20) =~= Seq::<u8>::empty());
            assert(other@.skip(20) =~= Seq::<u8>::empty());
            assert(self@ =~= other@);
        }
        0
    }
}

/// Whether `d` starts with the index-file magic `0xff 't' 'O' 'c'`.
pub open spec fn idx_magic_ok(d: Seq<u8>) -> bool {
    d.len() >= 4 && d[0] == 0xff && d[1] == 0x74 && d[2] == 0x4f && d[3] == 0x63
}

/// Fan-out entry `b`: the number of objects whose hash starts with a
/// byte less than or equal to `b`.
pub open spec fn idx_fanout(d: Seq<u8>, b: int) -> int {
    be32_at(d, 8 + 4 * b)
}

/// The total object count of the index: the last fan-out entry.
pub open spec fn idx_total(d: Seq<u8>) -> int {
    idx_fanout(d, 255)
}

/// The `i`-th entry of the ascending hash table.
pub open spec fn idx_hash_at(d: Seq<u8>, i: int) -> Seq<u8> {
    d.subrange(1032 + 20 * i, 1032 + 20 * i + 20)
}

/// Where the 32-bit offset table starts: after the header, the
/// fan-out table, the hash table and the CRC table, all sized by the
/// object count.
pub open spec fn idx_offsets_base(d: Seq<u8>) -> int {
    1032 + 24 * idx_total(d)
}

/// The raw 32-bit offset-table entry for object `i`.
pub open spec fn idx_offset_entry(d: Seq<u8>, i: int) -> int {
    be32_at(d, idx_offsets_base(d) + 4 * i)
}

/// Entry `j` of the 64-bit overflow table that follows the offset table.
pub open spec fn idx_long_offset(d: Seq<u8>, j: int) -> int {
    be64_at(d, idx_offsets_base(d) + 4 * idx_total(d) + 8 * j)
}

/// The pack-file byte offset of object `i`: the 32-bit entry itself,
/// or, when its top bit is set, the overflow entry the other 31 bits
/// point at.
pub open spec fn idx_pack_offset(d: Seq<u8>, i: int) -> int {
    if idx_offset_entry(d, i) < 0x80000000 {
        idx_offset_entry(d, i)
    } else {
        idx_long_offset(d, idx_offset_entry(d, i) - 0x80000000)
    }
}

/// A well-formed version-2 index file body: large enough for all its
/// tables, fan-out monotone and consistent with the first hash bytes,
/// hash table strictly ascending, and every overflow reference in
/// bounds.
pub open spec fn idx_wf(d: Seq<u8>) -> bool {
    &&& d.len() >= 1032
    &&& d.len() >= idx_offsets_base(d) + 4 * idx_total(d)
    &&& forall|b1: int, b2: int|
        0 <= b1 <= b2 < 256 ==> #[trigger] idx_fanout(d, b1) <= #[trigger] idx_fanout(d, b2)
    &&& forall|b: int, j: int|
        0 <= b < 256 && 0 <= j < idx_total(d) ==> (j < #[trigger] idx_fanout(d, b) <==> #[trigger] idx_hash_at(d, j)[0] <= b)
    &&& forall|i: int, j: int|
        0 <= i < j < idx_total(d) ==> hash_lt(
            #[trigger] idx_hash_at(d, i),
            #[trigger] idx_hash_at(d, j),
        )
    &&& forall|i: int|
        0 <= i < idx_total(d) && #[trigger] idx_offset_entry(d, i) >= 0x80000000 ==> d.len()
            >= idx_offsets_base(d) + 4 * idx_total(d) + 8 * (idx_offset_entry(d, i)
            - 0x80000000) + 8
}

/// Reads the big-endian 32-bit integer at byte `p` of a slice.
fn be32_read(d: &[u8], p: usize) -> (r: u32)
    requires
        p + 4 <= d@.len(),
    ensures
        r == be32_at(d@, p as int),
{
    (d[p] as u32) * 0x1000000 + (d[p + 1] as u32) * 0x10000 + (d[p + 2] as u32) * 0x100 + (
    d[p + 3] as u32)
}

/// Compares the twenty-byte ranges at `p1` and `p2` of a slice in
/// the hash order.
fn range_lt(d: &[u8], p1: usize, p2: usize) -> (r: bool)
    requires
        p1 + 20 <= d@.len(),
        p2 + 20 <= d@.len(),
    ensures
        r == hash_lt(d@.subrange(p1 as int, p1 + 20), d@.subrange(p2 as int, p2 + 20)),
{
    let ghost a = d@.subrange(p1 as int, p1 + 20);
    let ghost b = d@.subrange(p2 as int, p2 + 20);
    let mut k: usize = 0;
    proof {
        assert(a.skip(0) == a);
        assert(b.skip(0) == b);
        assert(d@.len() == d.len());
    }
    while k < 20
        invariant
            a == d@.subrange(p1 as int, p1 + 20),
            b == d@.subrange(p2 as int, p2 + 20),
            p1 + 20 <= d@.len(),
            p2 + 20 <= d@.len(),
            d@.len() <= usize::MAX,
            k <= 20,
            hash_lt(a, b) <==> hash_lt(a.skip(k as int), b.skip(k as int)),
        decreases 20 - k,
    {
        let x = d[p1 + k];
        let y = d[p2 + k];
        proof {
            assert(a.skip(k as int)[0] == a[k as int]);
            assert(b.skip(k as int)[0] == b[k as int]);
            assert(a[k as int] == d@[p1 + k]);
            assert(b[k as int] == d@[p2 + k]);
            assert(a.skip(k as int).drop_first() =~= a.skip(k + 1));
            assert(b.skip(k as int).drop_first() =~= b.skip(k + 1));
        }
        if x < y {
            return true;
        }
        if x > y {
            return false;
        }
        k = k + 1;
    }
    proof {
        assert(a.skip(20) =~= Seq::<u8>::empty());
    }
    false
}

/// With every fan-out entry at least its predecessor, the whole
/// table is monotone.
proof fn lemma_fanout_chain(d: Seq<u8>, b1: int, b2: int)
    requires
        forall|b: int| 1 <= b < 256 ==> #[trigger] idx_fanout(d, b) >= idx_fanout(d, b - 1),
        0 <= b1 <= b2 < 256,
    ensures
        idx_fanout(d, b1) <= idx_fanout(d, b2),
    decreases b2 - b1,
{
    if b1 < b2 {
        lemma_fanout_chain(d, b1, b2 - 1);
    }
}

/// With every hash above its predecessor, the whole table is
/// strictly ascending.
proof fn lemma_hash_chain(d: Seq<u8>, i: int, j: int)
    requires
        forall|m: int|
            1 <= m < idx_total(d) ==> hash_lt(idx_hash_at(d, m - 1), #[trigger] idx_hash_at(d, m)),
        0 <= i < j < idx_total(d),
    ensures
        hash_lt(idx_hash_at(d, i), idx_hash_at(d, j)),
    decreases j - i,
{
    if j > i + 1 {
        lemma_hash_chain(d, i, j - 1);
        lemma_hash_lt_trans(idx_hash_at(d, i), idx_hash_at(d, j - 1), idx_hash_at(d, j));
    }
}

/// Checks a loaded index file body against [`idx_wf`]: the table
/// sizes, the fan-out's monotonicity and its agreement with the first
/// hash bytes, the strict hash order, and the overflow references.
pub fn idx_validate(data: &Vec<u8>) -> (r: bool)
    ensures
        r == idx_wf(data@),
{
    let ghost d = data@;
    let n = data.len();
    if n < 1032 {
        return false;
    }
    let total32 = be32_read(data.as_slice(), 8 + 255 * 4);
    proof {
        assert(total32 == idx_total(d));
    }
    if (n as u64) < 1032u64 + 28u64 * (total32 as u64) {
        proof {
            assert(d.len() < idx_offsets_base(d) + 4 * idx_total(d));
        }
        return false;
    }
    let total = total32 as usize;
    proof {
        assert(1032 + 28 * (total as int) <= n);
    }
    // The fan-out table never decreases.
    let mut b: usize = 1;
    while b < 256
        invariant
            d == data@,
            n == d.len(),
            1032 <= n,
            1 <= b <= 256,
            forall|b2: int| 1 <= b2 < b ==> #[trigger] idx_fanout(d, b2) >= idx_fanout(d, b2 - 1),
        decreases 256 - b,
    {
        let prev = be32_read(data.as_slice(), 8 + 4 * (b - 1));
        let here = be32_read(data.as_slice(), 8 + 4 * b);
        if prev > here {
            proof {
                assert(idx_fanout(d, b - 1) > idx_fanout(d, b as int));
                assert(!idx_wf(d));
            }
            return false;
        }
        b = b + 1;
    }
    // Each hash sits inside the bucket its first byte selects.
    let mut j: usize = 0;
    while j < total
        invariant
            d == data@,
            n == d.len(),
            total == idx_total(d),
            1032 + 28 * (total as int) <= n,
            j <= total,
            forall|b2: int| 1 <= b2 < 256 ==> #[trigger] idx_fanout(d, b2) >= idx_fanout(d, b2 - 1),
            forall|jj: int|
                0 <= jj < j ==> (jj < idx_fanout(d, #[trigger] idx_hash_at(d, jj)[0] as int) && (
                idx_hash_at(d, jj)[0] == 0 || jj >= idx_fanout(d, idx_hash_at(d, jj)[0] - 1))),
        decreases total - j,
    {
        let b0 = data[1032 + 20 * j];
        proof {
            assert(idx_hash_at(d, j as int)[0] == d[1032 + 20 * j]);
        }
        let fan_here = be32_read(data.as_slice(), 8 + 4 * (b0 as usize));
        if !((j as u64) < fan_here as u64) {
            proof {
                assert(!(j < idx_fanout(d, idx_hash_at(d, j as int)[0] as int)));
                assert(idx_hash_at(d, j as int)[0] as int <= idx_hash_at(d, j as int)[0] as int);
                assert(!idx_wf(d));
            }
            return false;
        }
        if b0 > 0 {
            let fan_prev = be32_read(data.as_slice(), 8 + 4 * ((b0 - 1) as usize));
            if (j as u64) < fan_prev as u64 {
                proof {
                    assert(j < idx_fanout(d, idx_hash_at(d, j as int)[0] - 1));
                    assert(!(idx_hash_at(d, j as int)[0] <= idx_hash_at(d, j as int)[0] - 1));
                    assert(!idx_wf(d));
                }
                return false;
            }
        }
        j = j + 1;
    }
    // The hash table ascends strictly.
    let mut m: usize = 1;
    while m < total
        invariant
            d == data@,
            n == d.len(),
            total == idx_total(d),
            1032 + 28 * (total as int) <= n,
            1 <= m <= total || total == 0,
            forall|m2: int|
                1 <= m2 < m ==> hash_lt(idx_hash_at(d, m2 - 1), #[trigger] idx_hash_at(d, m2)),
        decreases total - m,
    {
        if !range_lt(data.as_slice(), 1032 + 20 * (m - 1), 1032 + 20 * m) {
            proof {
                assert(!hash_lt(idx_hash_at(d, m - 1), idx_hash_at(d, m as int)));
                assert(!idx_wf(d));
            }
            return false;
        }
        m = m + 1;
    }
    // Every overflow reference stays inside the file.
    let mut i: usize = 0;
    while i < total
        invariant
            d == data@,
            n == d.len(),
            total == idx_total(d),
            total == total32 as usize,
            1032 + 28 * (total as int) <= n,
            i <= total,
            forall|i2: int|
                0 <= i2 < i && #[trigger] idx_offset_entry(d, i2) >= 0x80000000 ==> d.len()
                    >= idx_offsets_base(d) + 4 * idx_total(d) + 8 * (idx_offset_entry(d, i2)
                    - 0x80000000) + 8,
        decreases total - i,
    {
        let entry = be32_read(data.as_slice(), 1032 + 24 * total + 4 * i);
        proof {
            assert(entry == idx_offset_entry(d, i as int));
        }
        if entry >= 0x80000000 {
            let need: u64 = 1032u64 + 28u64 * (total32 as u64) + 8u64 * ((entry
                - 0x80000000) as u64) + 8u64;
            proof {
                assert(need == 1032 + 28 * (total as int) + 8 * (idx_offset_entry(d, i as int)
                    - 0x80000000) + 8);
                assert(idx_offsets_base(d) + 4 * idx_total(d) + 8 * (idx_offset_entry(d, i as int)
                    - 0x80000000) + 8 == need);
            }
            if (n as u64) < need {
                proof {
                    assert(idx_offset_entry(d, i as int) >= 0x80000000);
                    assert(d.len() < idx_offsets_base(d) + 4 * idx_total(d) + 8 * (
                    idx_offset_entry(d, i as int) - 0x80000000) + 8);
                    assert(!idx_wf(d));
                }
                return false;
            }
            proof {
                assert(d.len() >= idx_offsets_base(d) + 4 * idx_total(d) + 8 * (idx_offset_entry(
                    d,
                    i as int,
                ) - 0x80000000) + 8);
            }
        }
        i = i + 1;
    }
    proof {
        assert forall|b1: int, b2: int| 0 <= b1 <= b2 < 256 implies #[trigger] idx_fanout(d, b1)
            <= #[trigger] idx_fanout(d, b2) by {
            lemma_fanout_chain(d, b1, b2);
        }
        assert forall|bb: int, jj: int|
            0 <= bb < 256 && 0 <= jj < idx_total(d) implies (jj < #[trigger] idx_fanout(d, bb)
            <==> #[trigger] idx_hash_at(d, jj)[0] <= bb) by {
            let b0 = idx_hash_at(d, jj)[0] as int;
            if b0 <= bb {
                lemma_fanout_chain(d, b0, bb);
            } else {
                lemma_fanout_chain(d, bb, b0 - 1);
            }
        }
        assert forall|i1: int, j1: int| 0 <= i1 < j1 < idx_total(d) implies hash_lt(
            #[trigger] idx_hash_at(d, i1),
            #[trigger] idx_hash_at(d, j1),
        ) by {
            lemma_hash_chain(d, i1, j1);
        }
        assert(idx_wf(d));
    }
    true
}

/// A version-2 pack index file, loaded whole.
pub struct Idx {
    /// The version field of the header; always 2 once constructed.
    pub version: u32,
    /// The index file bytes with the read position.
    pub file: BytesFile,
}

impl Idx {
    /// Checks the magic and the version of a loaded index file and
    /// wraps it for lookups.  A version other than 2 is refused:
    /// nothing past the header is interpreted in that case.
    pub fn from_bytes(data: Vec<u8>) -> (r: Result<Idx, GitError>)
        ensures
            match r {
                Ok(idx) => {
                    &&& data@.len() >= 8
                    &&& idx_magic_ok(data@)
                    &&& be32_at(data@, 4) == 2
                    &&& idx.version == 2
                    &&& idx.file.data == data
                    &&& idx.file.pos == 8
                },
                Err(e) => {
                    &&& (data@.len() < 8 || !idx_magic_ok(data@) || be32_at(data@, 4) != 2)
                    &&& (e == GitError::IoError <==> data@.len() < 8)
                    &&& (e == GitError::CorruptObject <==> data@.len() >= 8 && !idx_magic_ok(
                        data@,
                    ))
                    &&& (e == GitError::UnsupportedIndexVersion <==> data@.len() >= 8
                        && idx_magic_ok(data@) && be32_at(data@, 4) != 2)
                },
            },
    {
        let mut file = BytesFile::from_data(data);
        let header = match file.read_bytes(4) {
            Ok(v) => v,
            Err(_) => { return Err(GitError::IoError) },
        };
        let version = match file.read_u32() {
            Ok(v) => v,
            Err(_) => { return Err(GitError::IoError) },
        };
        if !(header[0] == 0xff && header[1] == 0x74 && header[2] == 0x4f && header[3] == 0x63) {
            return Err(GitError::CorruptObject);
        }
        if version != 2 {
            return Err(GitError::UnsupportedIndexVersion);
        }
        proof {
            assert(be32_at(file.data@, 4) == version);
        }
        Ok(Idx { version, file })
    }

    /// Seeks `offset` bytes past the 8-byte magic-and-version header.
    fn seek_without_headers(&mut self, offset: usize) -> (r: Result<(), GitError>)
        requires
            offset + 8 <= usize::MAX,
        ensures
            r is Ok,
            final(self).file.data == old(self).file.data,
            final(self).version == old(self).version,
            final(self).file.pos == 8 + offset,
    {
        self.file.seek(8 + offset);
        Ok(())
    }

    /// Seeks to hash-table entry `index`: past the header, the fan-out
    /// table and the preceding 20-byte entries.
    fn seek_without_index(&mut self, index: usize) -> (r: Result<(), GitError>)
        requires
            20 * index + 1032 <= usize::MAX,
        ensures
            r is Ok,
            final(self).file.data == old(self).file.data,
            final(self).version == old(self).version,
            final(self).file.pos == 1032 + 20 * index,
    {
        self.seek_without_headers(index * 20 + 255 * 4 + 4)
    }

    /// Reads the fan-out bounds of the bucket the hash's first byte
    /// selects: all table indices that can hold the hash lie in
    /// `[lower, upper)`.
    pub fn get_object_bounds(&mut self, hash: &Hash) -> (r: Result<(u32, u32), GitError>)
        requires
            idx_wf(old(self).file.data@),
        ensures
            final(self).file.data == old(self).file.data,
            final(self).version == old(self).version,
            match r {
                Ok((lower, upper)) => {
                    let d = old(self).file.data@;
                    let b = hash@[0] as int;
                    &&& lower == if b == 0 { 0int } else { idx_fanout(d, b - 1) }
                    &&& upper == idx_fanout(d, b)
                },
                Err(_) => false,
            },
    {
        let first_hash_byte = hash.0[0];
        let index_lower_bound: u32;
        if first_hash_byte == 0 {
            match self.seek_without_headers(0) {
                Ok(()) => {},
                Err(e) => { return Err(e) },
            }
            index_lower_bound = 0;
        } else {
            match self.seek_without_headers((first_hash_byte as usize) * 4 - 4) {
                Ok(()) => {},
                Err(e) => { return Err(e) },
            }
            index_lower_bound = match self.file.read_u32() {
                Ok(v) => v,
                Err(e) => { return Err(e) },
            };
        }
        let index_upper_bound = match self.file.read_u32() {
            Ok(v) => v,
            Err(e) => { return Err(e) },
        };
        Ok((index_lower_bound, index_upper_bound))
    }

    /// Binary search for a hash inside its fan-out bucket.  Returns
    /// the table index holding the hash, or `None` when the hash is
    /// not in the index — a normal negative lookup, not a fault.
    pub fn get_object_index(&mut self, hash: Hash) -> (r: Result<Option<u32>, GitError>)
        requires
            idx_wf(old(self).file.data@),
        ensures
            final(self).file.data == old(self).file.data,
            final(self).version == old(self).version,
            match r {
                Ok(Some(i)) => {
                    &&& 0 <= i < idx_total(old(self).file.data@)
                    &&& idx_hash_at(old(self).file.data@, i as int) == hash@
                },
                Ok(None) => forall|j: int|
                    0 <= j < idx_total(old(self).file.data@) ==> idx_hash_at(
                        old(self).file.data@,
                        j,
                    ) != hash@,
                Err(_) => false,
            },
    {
        let ghost d = self.file.data@;
        let len = self.file.data.len();
        let (bounds_lower, bounds_upper) = match self.get_object_bounds(&hash) {
            Ok(v) => v,
            Err(e) => { return Err(e) },
        };
        let mut left = bounds_lower;
        let mut right = bounds_upper;
        let ghost h0 = hash@[0] as int;
        let ghost total = idx_total(d);
        proof {
            assert(idx_fanout(d, h0) <= idx_fanout(d, 255));
            if h0 > 0 {
                assert(idx_fanout(d, h0 - 1) <= idx_fanout(d, h0));
            }
            assert forall|j: int| 0 <= j < total && !(left <= j < right) implies idx_hash_at(
                d,
                j,
            ) != hash@ by {
                if j < left {
                    assert(idx_hash_at(d, j)[0] <= h0 - 1);
                    assert(idx_hash_at(d, j)[0] != hash@[0]);
                } else {
                    assert(!(idx_hash_at(d, j)[0] <= h0));
                    assert(idx_hash_at(d, j)[0] != hash@[0]);
                }
            }
        }
        while left < right
            invariant
                idx_wf(d),
                self.file.data == old(self).file.data,
                d == old(self).file.data@,
                self.version == old(self).version,
                len == d.len(),
                total == idx_total(d),
                left <= right <= total,
                forall|j: int|
                    0 <= j < total && !(left <= j < right) ==> #[trigger] idx_hash_at(d, j)
                        != hash@,
            decreases right - left,
        {
            let middle = left + (right - left) / 2;
            match self.seek_without_index(middle as usize) {
                Ok(()) => {},
                Err(e) => { return Err(e) },
            }
            let mid_hash = match self.file.read_hash() {
                Ok(v) => v,
                Err(e) => { return Err(e) },
            };
            proof {
                assert(mid_hash@ =~= idx_hash_at(d, middle as int));
            }
            let c = hash.compare(&mid_hash);
            if c == 0 {
                return Ok(Some(middle));
            } else if c < 0 {
                proof {
                    assert forall|j: int| middle <= j < right implies idx_hash_at(d, j) != hash@
                    by {
                        if j > middle {
                            lemma_hash_lt_trans(hash@, idx_hash_at(d, middle as int),
                                idx_hash_at(d, j));
                        }
                        lemma_hash_lt_irrefl(hash@);
                    }
                }
                right = middle;
            } else {
                proof {
                    assert forall|j: int| left <= j <= middle implies idx_hash_at(d, j) != hash@
                    by {
                        if j < middle {
                            lemma_hash_lt_trans(idx_hash_at(d, j), idx_hash_at(d, middle as int),
                                hash@);
                        }
                        lemma_hash_lt_irrefl(hash@);
                    }
                }
                left = middle + 1;
            }
        }
        Ok(None)
    }

    /// Resolves hash-table index `index` to a pack-file byte offset,
    /// following the 64-bit overflow table when the top bit of the
    /// 32-bit entry is set.
    pub fn get_pack_offset_at_index(&mut self, index: u32) -> (r: Result<u64, GitError>)
        requires
            idx_wf(old(self).file.data@),
            index < idx_total(old(self).file.data@),
        ensures
            final(self).file.data == old(self).file.data,
            final(self).version == old(self).version,
            match r {
                Ok(v) => v == idx_pack_offset(old(self).file.data@, index as int),
                Err(_) => false,
            },
    {
        let ghost d = self.file.data@;
        let len = self.file.data.len();
        match self.seek_without_headers(255 * 4) {
            Ok(()) => {},
            Err(e) => { return Err(e) },
        }
        let total_object_count = match self.file.read_u32() {
            Ok(v) => v,
            Err(e) => { return Err(e) },
        };
        proof {
            assert(total_object_count == idx_total(d));
        }
        let t = total_object_count as usize;
        proof {
            assert(d.len() == len);
            assert(t == idx_total(d));
            assert(1032 + 24 * idx_total(d) + 4 * idx_total(d) <= d.len());
            assert(24 * t <= d.len());
        }
        proof {
            assert(t * ((HASH_SIZE + 4) as int) == 24 * t);
        }
        let crc_32_bytes = t * (HASH_SIZE + 4);
        proof {
            assert(1024 + 24 * t + (index as int) * 4 + 8 <= d.len());
        }
        match self.seek_without_headers(1024 + crc_32_bytes + (index as usize) * 4) {
            Ok(()) => {},
            Err(e) => { return Err(e) },
        }
        let pack_offset = match self.file.read_u32() {
            Ok(v) => v,
            Err(e) => { return Err(e) },
        };
        proof {
            assert(pack_offset == idx_offset_entry(d, index as int));
        }
        if pack_offset < 0x80000000 {
            Ok(pack_offset as u64)
        } else {
            let offset_index = pack_offset - 0x80000000;
            proof {
                assert(idx_offset_entry(d, index as int) >= 0x80000000);
                assert(d.len() >= idx_offsets_base(d) + 4 * idx_total(d) + 8 * (idx_offset_entry(
                    d,
                    index as int,
                ) - 0x80000000) + 8);
                assert(offset_index == idx_offset_entry(d, index as int) - 0x80000000);
                assert(1024 + 24 * t + 4 * t + 8 * (offset_index as int) + 8 <= d.len());
            }
            match self.seek_without_headers(
                1024 + crc_32_bytes + t * 4 + (offset_index as usize) * 8,
            ) {
                Ok(()) => {},
                Err(e) => { return Err(e) },
            }
            let v = match self.file.read_u64() {
                Ok(v) => v,
                Err(e) => { return Err(e) },
            };
            Ok(v)
        }
    }
}

/// The variable-length integer starting at position `p` of `d`:
/// each byte contributes its low seven bits, least significant group
/// first, and its high bit says whether more bytes follow.  Yields
/// the value and the number of bytes consumed, or nothing when the
/// data ends before a terminating byte.
pub open spec fn varint_at(d: Seq<u8>, p: int) -> Option<(int, int)>
    decreases d.len() - p,
{
    if p < 0 || p >= d.len() {
        None
    } else if d[p] < 128 {
        Some((d[p] as int, 1))
    } else {
        match varint_at(d, p + 1) {
            Some(t) => Some(((d[p] - 128) + t.0 * 128, t.1 + 1)),
            None => None,
        }
    }
}

/// The three-bit type tag carried in bits 4 to 6 of a decoded object
/// header value.
pub open spec fn pack_header_type(v: int) -> int {
    (v / 16) % 8
}

/// The declared size carried by a decoded object header value: the
/// low four bits, then everything above the seven-bit boundary
/// shifted down next to them.
pub open spec fn pack_header_size(v: int) -> int {
    v % 16 + (v / 128) * 16
}

/// What flate2's `ZlibDecoder` decompresses from a byte sequence that
/// starts with a zlib stream (bytes after the stream are ignored), or
/// nothing when no whole valid stream is there.
pub uninterp spec fn inflate_zlib_prefix_of(s: Seq<u8>) -> Option<Seq<u8>>;

/// A pack file, loaded whole, with the name shared by its `.pack`
/// and `.idx` siblings.
pub struct Pack {
    /// The `pack-<40 hex digits>` stem of the file name.
    pub object_name: String,
    /// The pack file bytes with the read position.
    pub file: BytesFile,
}

impl Pack {
    /// Wraps loaded pack-file contents under the given name.
    pub fn from_parts(object_name: String, file: BytesFile) -> (r: Self)
        ensures
            r.object_name == object_name,
            r.file == file,
    {
        Pack { object_name, file }
    }

    /// The number of payload bits each encoding byte carries.
    pub fn get_encoding_bits() -> (r: u8)
        ensures
            r == 7,
    {
        7
    }

    /// Resolves a hash to its pack-file byte offset through the given
    /// index: binary search, then offset-table lookup.
    pub fn get_pack_offset(&mut self, index: &mut Idx, hash: Hash) -> (r: Result<
        Option<u64>,
        GitError,
    >)
        requires
            idx_wf(old(index).file.data@),
        ensures
            *final(self) == *old(self),
            final(index).file.data == old(index).file.data,
            final(index).version == old(index).version,
            match r {
                Ok(Some(v)) => exists|i: int|
                    0 <= i < idx_total(old(index).file.data@) && #[trigger] idx_hash_at(
                        old(index).file.data@,
                        i,
                    ) == hash@ && v == idx_pack_offset(old(index).file.data@, i),
                Ok(None) => forall|j: int|
                    0 <= j < idx_total(old(index).file.data@) ==> idx_hash_at(
                        old(index).file.data@,
                        j,
                    ) != hash@,
                Err(_) => false,
            },
    {
        let object_index = match index.get_object_index(hash) {
            Ok(Some(v)) => v,
            Ok(None) => { return Ok(None) },
            Err(e) => { return Err(e) },
        };
        let pack_offset = match index.get_pack_offset_at_index(object_index) {
            Ok(v) => v,
            Err(e) => { return Err(e) },
        };
        Ok(Some(pack_offset))
    }

    /// Reads one encoding byte: its seven payload bits and the flag
    /// that says more bytes follow.
    pub fn read_variant_byte(&mut self) -> (r: Result<(u8, bool), GitError>)
        ensures
            final(self).file.data == old(self).file.data,
            final(self).object_name == old(self).object_name,
            match r {
                Ok((value, more_bytes)) => {
                    &&& old(self).file.pos < old(self).file.data@.len()
                    &&& value == old(self).file.data@[old(self).file.pos as int] % 128
                    &&& more_bytes == (old(self).file.data@[old(self).file.pos as int] >= 128)
                    &&& final(self).file.pos == old(self).file.pos + 1
                },
                Err(e) => {
                    &&& old(self).file.pos >= old(self).file.data@.len()
                    &&& e == GitError::IoError
                    &&& final(self).file.pos == old(self).file.pos
                },
            },
    {
        let bits = Pack::get_encoding_bits();
        let continue_flag: u8 = 1u8 << bits;
        let bytes = match self.file.read_bytes(1) {
            Ok(v) => v,
            Err(e) => { return Err(e) },
        };
        let byte = bytes[0];
        let value = byte & !continue_flag;
        let more_bytes = byte & continue_flag != 0;
        proof {
            assert(value == byte % 128 && more_bytes == (byte >= 128)) by (bit_vector)
                requires
                    value == byte & !(1u8 << 7),
                    more_bytes == (byte & (1u8 << 7) != 0),
            ;
        }
        Ok((value, more_bytes))
    }

    /// Decodes the variable-length integer at the current position.
    /// Succeeds exactly when a terminated encoding is there and its
    /// value fits the platform's word.
    pub fn read_size_encoding(&mut self) -> (r: Result<usize, GitError>)
        ensures
            final(self).file.data == old(self).file.data,
            final(self).object_name == old(self).object_name,
            match r {
                Ok(v) => match varint_at(old(self).file.data@, old(self).file.pos as int) {
                    Some(t) => {
                        &&& v == t.0
                        &&& t.0 <= usize::MAX
                        &&& final(self).file.pos == old(self).file.pos + t.1
                        &&& final(self).file.pos <= final(self).file.data@.len()
                    },
                    None => false,
                },
                Err(e) => {
                    &&& (e == GitError::IoError || e == GitError::CorruptObject)
                    &&& (e == GitError::IoError <==> varint_at(
                        old(self).file.data@,
                        old(self).file.pos as int,
                    ) is None)
                    &&& (e == GitError::CorruptObject <==> match varint_at(
                        old(self).file.data@,
                        old(self).file.pos as int,
                    ) {
                        Some(t) => t.0 > usize::MAX,
                        None => false,
                    })
                },
            },
    {
        broadcast use vstd::arithmetic::power2::lemma_pow2_adds;
        broadcast use vstd::arithmetic::power2::lemma_pow2_pos;

        let ghost d = old(self).file.data@;
        let ghost p0 = old(self).file.pos as int;
        let mut value: u64 = 0;
        let mut length: u32 = 0;
        let mut lost_bits = false;
        proof {
            vstd::arithmetic::power2::lemma2_to64();
        }
        loop
            invariant
                self.file.data == old(self).file.data,
                self.object_name == old(self).object_name,
                d == old(self).file.data@,
                p0 == old(self).file.pos,
                p0 <= self.file.pos,
                self.file.pos == p0 || self.file.pos <= d.len(),
                length == if 7 * (self.file.pos - p0) < 64 {
                    7 * (self.file.pos - p0)
                } else {
                    64int
                },
                (varint_at(d, p0) is Some <==> varint_at(d, self.file.pos as int) is Some),
                !lost_bits ==> value < vstd::arithmetic::power2::pow2(
                    (7 * (self.file.pos - p0)) as nat,
                ),
                match varint_at(d, p0) {
                    Some(t) => {
                        let rest = varint_at(d, self.file.pos as int)->Some_0;
                        &&& t.1 == (self.file.pos - p0) + rest.1
                        &&& (!lost_bits ==> t.0 == value + rest.0
                            * vstd::arithmetic::power2::pow2((7 * (self.file.pos - p0)) as nat))
                        &&& (lost_bits ==> t.0 > u64::MAX)
                    },
                    None => true,
                },
            decreases d.len() - self.file.pos,
        {
            let ghost k = self.file.pos - p0;
            let ghost shift_weight = vstd::arithmetic::power2::pow2((7 * k) as nat);
            let ghost pre_value = value;
            let ghost pre_lost = lost_bits;
            let (bytes_value, more_bytes) = match self.read_variant_byte() {
                Ok(v) => v,
                Err(_) => { return Err(GitError::IoError) },
            };
            let ghost b = d[p0 + k];
            proof {
                vstd::arithmetic::power2::lemma2_to64();
                vstd::arithmetic::power2::lemma_pow2_adds(7, (7 * k) as nat);
                assert(128 * shift_weight == vstd::arithmetic::power2::pow2((7 * k + 7) as nat));
                if 7 * k >= 64 {
                    if 7 * k > 64 {
                        vstd::arithmetic::power2::lemma_pow2_strictly_increases(64, (7 * k) as nat);
                    }
                    assert(shift_weight > u64::MAX);
                }
            }
            if !lost_bits && bytes_value != 0 {
                let mut contribution_lost = false;
                if length >= 64 {
                    proof {
                        // The whole seven-bit group sits past bit 63.
                        assert((bytes_value as int) * shift_weight >= 1 * shift_weight) by (
                        nonlinear_arith)
                            requires
                                bytes_value >= 1,
                                shift_weight > 0,
                        ;
                    }
                    contribution_lost = true;
                } else {
                    let limit = u64::MAX >> (length as u64);
                    proof {
                        vstd::bits::lemma_u64_mul_pow2_le_max_iff_max_shr(
                            bytes_value as u64,
                            length as u64,
                            u64::MAX,
                        );
                    }
                    if (bytes_value as u64) > limit {
                        contribution_lost = true;
                    } else {
                        proof {
                            vstd::bits::lemma_u64_pow2_no_overflow(length as nat);
                            vstd::bits::lemma_u64_shl_is_mul(bytes_value as u64, length as u64);
                            vstd::bits::lemma_u64_shl_is_mul(1u64, length as u64);
                            assert(value | ((bytes_value as u64) << (length as u64)) == value + (
                            (bytes_value as u64) << (length as u64))) by (bit_vector)
                                requires
                                    value < (1u64 << (length as u64)),
                                    length < 64,
                            ;
                            assert(value + (bytes_value as int) * shift_weight < 128 * shift_weight)
                                by (nonlinear_arith)
                                requires
                                    bytes_value < 128,
                                    shift_weight > 0,
                                    value < shift_weight,
                            ;
                            assert(128 * shift_weight == vstd::arithmetic::power2::pow2(
                                (7 * k + 7) as nat,
                            ));
                        }
                        value = value | ((bytes_value as u64) << (length as u64));
                    }
                }
                if contribution_lost {
                    proof {
                        // The dropped group alone pushes the total past u64.
                        assert((bytes_value as int) * shift_weight > u64::MAX);
                    }
                    lost_bits = true;
                }
            } else {
                proof {
                    vstd::arithmetic::power2::lemma_pow2_strictly_increases(
                        (7 * k) as nat,
                        (7 * k + 7) as nat,
                    );
                }
            }
            proof {
                if !lost_bits {
                    if bytes_value == 0 {
                        assert((bytes_value as int) * shift_weight == 0) by (nonlinear_arith)
                            requires
                                bytes_value == 0,
                        ;
                    }
                    assert(value == pre_value + (bytes_value as int) * shift_weight);
                }
                lemma_varint_props(d, p0 + k);
                let rest = varint_at(d, p0 + k)->Some_0;
                if b >= 128 {
                    lemma_varint_props(d, p0 + k + 1);
                    match varint_at(d, p0 + k + 1) {
                        Some(t2) => {
                            assert(rest.0 == (b - 128) + t2.0 * 128);
                            assert(rest.1 == t2.1 + 1);
                            if varint_at(d, p0) is Some {
                                assert(rest.0 * shift_weight == (b - 128) * shift_weight + t2.0
                                    * (128 * shift_weight)) by (nonlinear_arith)
                                    requires
                                        rest.0 == (b - 128) + t2.0 * 128,
                                ;
                                assert(128 * shift_weight == vstd::arithmetic::power2::pow2(
                                    (7 * k + 7) as nat,
                                ));
                                assert(rest.0 * shift_weight >= (b - 128) * shift_weight) by (
                                nonlinear_arith)
                                    requires
                                        t2.0 >= 0,
                                        shift_weight > 0,
                                        rest.0 * shift_weight == (b - 128) * shift_weight + t2.0
                                            * (128 * shift_weight),
                                ;
                            }
                        },
                        None => {},
                    }
                } else {
                    assert(rest == (b as int, 1int));
                }
            }
            proof {
                if varint_at(d, p0) is Some {
                    let t = varint_at(d, p0)->Some_0;
                    let rest = varint_at(d, p0 + k)->Some_0;
                    assert(!pre_lost ==> t.0 == pre_value + rest.0 * shift_weight);
                    if !lost_bits && bytes_value != 0 {
                        assert(value == pre_value + (bytes_value as int) * shift_weight);
                    }
                    if !lost_bits && bytes_value == 0 {
                        assert(value == pre_value);
                    }
                    if b >= 128 {
                        let t2 = varint_at(d, p0 + k + 1)->Some_0;
                        assert(rest.0 == (bytes_value as int) + t2.0 * 128);
                        if !lost_bits {
                            assert(rest.0 * shift_weight == (bytes_value as int) * shift_weight
                                + t2.0 * (128 * shift_weight)) by (nonlinear_arith)
                                requires
                                    rest.0 == (bytes_value as int) + t2.0 * 128,
                            ;
                            assert(128 * shift_weight == vstd::arithmetic::power2::pow2(
                                (7 * k + 7) as nat,
                            ));
                            assert(t2.0 * (128 * shift_weight) == t2.0
                                * vstd::arithmetic::power2::pow2((7 * k + 7) as nat));
                            assert(value == pre_value + (bytes_value as int) * shift_weight);
                            assert(t.0 == value + t2.0 * vstd::arithmetic::power2::pow2(
                                (7 * k + 7) as nat,
                            )) by (nonlinear_arith)
                                requires
                                    t.0 == pre_value + rest.0 * shift_weight,
                                    rest.0 == (bytes_value as int) + t2.0 * 128,
                                    value == pre_value + (bytes_value as int) * shift_weight,
                                    128 * shift_weight == vstd::arithmetic::power2::pow2(
                                        (7 * k + 7) as nat,
                                    ),
                            ;
                        }
                        assert(lost_bits ==> t.0 > u64::MAX);
                    } else {
                        assert(rest.0 == bytes_value as int);
                        if !lost_bits {
                            assert(t.0 == value);
                        }
                    }
                }
            }
            if !more_bytes {
                if lost_bits {
                    return Err(GitError::CorruptObject);
                }
                if value > usize_max_as_u64() {
                    return Err(GitError::CorruptObject);
                }
                return Ok(value as usize);
            }
            if length < 64 {
                length = if length + 7 >= 64 {
                    64
                } else {
                    length + 7
                };
            }
        }
    }
}

/// A decoded variable-length integer has a non-negative value, takes
/// at least one byte, and ends within the data.
pub proof fn lemma_varint_props(d: Seq<u8>, p: int)
    ensures
        match varint_at(d, p) {
            Some(t) => t.0 >= 0 && t.1 >= 1 && p >= 0 && p + t.1 <= d.len(),
            None => true,
        },
    decreases d.len() - p,
{
    if p < 0 || p >= d.len() {
    } else if d[p] < 128 {
    } else {
        lemma_varint_props(d, p + 1);
        match varint_at(d, p + 1) {
            Some(t2) => {
                assert((d[p] - 128) + t2.0 * 128 >= 0) by (nonlinear_arith)
                    requires
                        d[p] >= 128,
                        t2.0 >= 0,
                ;
            },
            None => {},
        }
    }
}

impl Pack {
    /// Decodes the object header at byte `offset`: the type tag in
    /// bits 4 to 6 of the first byte, and the declared size from the
    /// low four bits plus the continuation groups above them.
    pub fn read_type_and_size(&mut self, offset: u64) -> (r: Result<(u8, usize), GitError>)
        ensures
            final(self).file.data == old(self).file.data,
            final(self).object_name == old(self).object_name,
            match r {
                Ok((object_type, object_size)) => {
                    &&& offset <= usize::MAX
                    &&& match varint_at(old(self).file.data@, offset as int) {
                        Some(t) => {
                            &&& t.0 <= usize::MAX
                            &&& object_type == pack_header_type(t.0)
                            &&& object_size == pack_header_size(t.0)
                            &&& final(self).file.pos == offset + t.1
                            &&& final(self).file.pos <= final(self).file.data@.len()
                        },
                        None => false,
                    }
                },
                Err(e) => {
                    &&& (e == GitError::IoError || e == GitError::CorruptObject)
                    &&& (e == GitError::IoError <==> (offset > usize::MAX || varint_at(
                        old(self).file.data@,
                        offset as int,
                    ) is None))
                    &&& (e == GitError::CorruptObject <==> (offset <= usize::MAX && match
                        varint_at(old(self).file.data@, offset as int) {
                        Some(t) => t.0 > usize::MAX,
                        None => false,
                    }))
                },
            },
    {
        if offset > usize_max_as_u64() {
            return Err(GitError::IoError);
        }
        self.file.seek(offset as usize);
        let v = match self.read_size_encoding() {
            Ok(v) => v,
            Err(e) => { return Err(e) },
        };
        let object_type_word = (v / 16) % 8;
        let object_size = v % 16 + (v / 128) * 16;
        proof {
            assert(v % 16 + (v / 128) * 16 <= usize::MAX) by (nonlinear_arith)
                requires
                    0 <= v <= usize::MAX,
            ;
        }
        Ok((object_type_word as u8, object_size))
    }

    /// Reads and inflates the object whose header starts at byte
    /// `offset`.  Delta-encoded entries (type tags 6 and 7) are
    /// recognized but not resolved.
    pub fn read_pack_object(&mut self, offset: u64) -> (r: Result<Vec<u8>, GitError>)
        ensures
            final(self).file.data == old(self).file.data,
            final(self).object_name == old(self).object_name,
            match r {
                Ok(v) => {
                    &&& offset <= usize::MAX
                    &&& match varint_at(old(self).file.data@, offset as int) {
                        Some(t) => {
                            &&& t.0 <= usize::MAX
                            &&& 1 <= pack_header_type(t.0) <= 4
                            &&& inflate_zlib_prefix_of(
                                old(self).file.data@.skip(offset + t.1),
                            ) == Some(v@)
                        },
                        None => false,
                    }
                },
                Err(e) => {
                    &&& (e == GitError::IoError <==> (offset > usize::MAX || varint_at(
                        old(self).file.data@,
                        offset as int,
                    ) is None))
                    &&& (e == GitError::UnresolvedDelta <==> (offset <= usize::MAX && match
                        varint_at(old(self).file.data@, offset as int) {
                        Some(t) => t.0 <= usize::MAX && (pack_header_type(t.0) == 6
                            || pack_header_type(t.0) == 7),
                        None => false,
                    }))
                    &&& (e == GitError::CorruptObject <==> (offset <= usize::MAX && match
                        varint_at(old(self).file.data@, offset as int) {
                        Some(t) => t.0 > usize::MAX || (pack_header_type(t.0) != 6
                            && pack_header_type(t.0) != 7 && !(1 <= pack_header_type(t.0) <= 4))
                            || (1 <= pack_header_type(t.0) <= 4 && inflate_zlib_prefix_of(
                            old(self).file.data@.skip(offset + t.1),
                        ) is None),
                        None => false,
                    }))
                    &&& (e == GitError::IoError || e == GitError::UnresolvedDelta || e
                        == GitError::CorruptObject)
                },
            },
    {
        let (object_type, _object_size) = match self.read_type_and_size(offset) {
            Ok(v) => v,
            Err(e) => { return Err(e) },
        };
        if 1 <= object_type && object_type <= 4 {
            let start = self.file.pos;
            let contents = match inflate_stream(&self.file.data, start) {
                Ok(v) => v,
                Err(e) => { return Err(e) },
            };
            // A decompressed length that disagrees with the declared
            // size is a diagnostic, not an error.
            Ok(contents)
        } else if object_type == 6 || object_type == 7 {
            Err(GitError::UnresolvedDelta)
        } else {
            Err(GitError::CorruptObject)
        }
    }
}

/// Relies on flate2's `ZlibDecoder`: decompresses the single zlib
/// stream at the start of the slice, ignoring any bytes after it,
/// and fails when no whole valid stream is there.
#[verifier::external_body]
fn inflate_stream(data: &Vec<u8>, start: usize) -> (r: Result<Vec<u8>, GitError>)
    requires
        start <= data@.len(),
    ensures
        match r {
            Ok(v) => inflate_zlib_prefix_of(data@.skip(start as int)) == Some(v@),
            Err(e) => {
                &&& inflate_zlib_prefix_of(data@.skip(start as int)) is None
                &&& e == GitError::CorruptObject
            },
        },
{
    let mut contents: Vec<u8> = Vec::new();
    match flate2::read::ZlibDecoder::new(&data[start..]).read_to_end(&mut contents) {
        Ok(_) => Ok(contents),
        Err(_) => Err(GitError::CorruptObject),
    }
}

/// Whether `c` is a lower-case hexadecimal digit.
pub open spec fn is_hex_digit_char(c: char) -> bool {
    (48 <= (c as u32) <= 57) || (97 <= (c as u32) <= 102)
}

/// The characters of `"pack-"`.
pub open spec fn pack_stem_prefix() -> Seq<char> {
    seq!['p', 'a', 'c', 'k', '-']
}

/// Whether a pack-file name stem starts at `i`: `pack-`, forty hex
/// digits, one separator character, and one of the extensions `idx`,
/// `pack` or `rev`.
pub open spec fn pack_name_at(s: Seq<char>, i: int) -> bool {
    &&& 0 <= i
    &&& i + 49 <= s.len()
    &&& s.subrange(i, i + 5) == pack_stem_prefix()
    &&& (forall|j: int| i + 5 <= j < i + 45 ==> is_hex_digit_char(#[trigger] s[j]))
    &&& (s.subrange(i + 46, i + 49) == seq!['i', 'd', 'x'] || s.subrange(i + 46, i + 49)
        == seq!['r', 'e', 'v'] || (i + 50 <= s.len() && s.subrange(i + 46, i + 50) == seq![
        'p',
        'a',
        'c',
        'k',
    ]))
}

/// Checks that every character of `s[from..to]` is a lower-case
/// hexadecimal digit.
fn all_hex_in_range(s: &[char], from: usize, to: usize) -> (r: bool)
    requires
        from <= to <= s@.len(),
    ensures
        r == (forall|j: int| from <= j < to ==> is_hex_digit_char(#[trigger] s@[j])),
{
    let mut i: usize = from;
    while i < to
        invariant
            from <= i <= to <= s@.len(),
            forall|j: int| from <= j < i ==> is_hex_digit_char(#[trigger] s@[j]),
        decreases to - i,
    {
        let cv = s[i] as u32;
        if !((48 <= cv && cv <= 57) || (97 <= cv && cv <= 102)) {
            return false;
        }
        i = i + 1;
    }
    true
}

impl Pack {
    /// Extracts the `pack-<40 hex digits>` stem from the first place
    /// in a path where one stands followed by a pack-related
    /// extension; the stem names the `.pack` and `.idx` siblings.
    pub fn parse_pack_filename(path: &str) -> (r: Option<String>)
        ensures
            match r {
                Some(stem) => exists|i: int|
                    {
                        &&& #[trigger] pack_name_at(path@, i)
                        &&& stem@ == path@.subrange(i, i + 45)
                        &&& forall|i2: int| 0 <= i2 < i ==> !pack_name_at(path@, i2)
                    },
                None => forall|i: int| !pack_name_at(path@, i),
            },
    {
        let ghost s = path@;
        let chars = crate::text::str_to_chars(path);
        let n = chars.len();
        let prefix_word: [char; 5] = ['p', 'a', 'c', 'k', '-'];
        let idx_word: [char; 3] = ['i', 'd', 'x'];
        let rev_word: [char; 3] = ['r', 'e', 'v'];
        let pack_word: [char; 4] = ['p', 'a', 'c', 'k'];
        proof {
            assert(prefix_word@ =~= pack_stem_prefix());
        }
        if n < 49 {
            proof {
                assert forall|i: int| !pack_name_at(s, i) by {}
            }
            return None;
        }
        let mut i: usize = 0;
        while i <= n - 49
            invariant
                s == path@,
                n == s.len(),
                chars@ == s,
                49 <= n,
                i <= n - 49 + 1,
                prefix_word@ == pack_stem_prefix(),
                idx_word@ == seq!['i', 'd', 'x'],
                rev_word@ == seq!['r', 'e', 'v'],
                pack_word@ == seq!['p', 'a', 'c', 'k'],
                forall|i2: int| 0 <= i2 < i ==> !pack_name_at(s, i2),
            decreases n - i,
        {
            let here = crate::objects::commit::starts_with_chars(
                chars.as_slice(),
                prefix_word.as_slice(),
                i,
            ) && all_hex_in_range(chars.as_slice(), i + 5, i + 45) && (
            crate::objects::commit::starts_with_chars(chars.as_slice(), idx_word.as_slice(), i + 46)
                || crate::objects::commit::starts_with_chars(
                chars.as_slice(),
                rev_word.as_slice(),
                i + 46,
            ) || crate::objects::commit::starts_with_chars(
                chars.as_slice(),
                pack_word.as_slice(),
                i + 46,
            ));
            if here {
                let stem = crate::text::chars_to_string(chars.as_slice(), i, i + 45);
                proof {
                    assert(pack_name_at(path@, i as int));
                    assert(stem@ == path@.subrange(i as int, i + 45));
                    assert(forall|i2: int| 0 <= i2 < i ==> !pack_name_at(path@, i2));
                }
                return Some(stem);
            }
            proof {
                assert(!pack_name_at(s, i as int));
            }
            i = i + 1;
        }
        proof {
            assert forall|i2: int| !pack_name_at(s, i2) by {
                if 0 <= i2 <= n - 49 {
                    assert(!pack_name_at(s, i2));
                }
            }
        }
        None
    }
}

/// The largest `usize`, as a `u64`; the platform word is at most 64
/// bits wide.
fn usize_max_as_u64() -> (r: u64)
    ensures
        r == usize::MAX as u64,
        usize::MAX <= u64::MAX,
{
    usize::MAX as u64
}

} // verus!
