//! Directory records: fixed-width codec over 13 bytes.

use vstd::bytes::lemma_auto_spec_u32_to_from_le_bytes;
use vstd::bytes::spec_u32_from_le_bytes;
use vstd::bytes::spec_u32_to_le_bytes;
use vstd::bytes::u32_from_le_bytes;
use vstd::bytes::u32_to_le_bytes;
use vstd::prelude::*;

use crate::store::write_bytes;
use crate::store::Database;
use crate::store::StoreError;

verus! {

/// Serialized size of one directory record: three little-endian `u32` fields
/// followed by the free flag byte.
pub const RECORD_BYTES: usize = 13;

/// One directory record: a dense slot id, the byte range of its content
/// inside the content store, and the free flag (0 = live, 1 = reclaimable).
#[derive(Clone, Copy, PartialEq, Eq, Structural, Debug)]
pub struct Index {
    pub id: u32,
    pub offset: u32,
    pub length: u32,
    pub is_free: u8,
}

/// The 13-byte serialized form of a record: `id`, `offset`, `length` as
/// little-endian `u32`s, then the free flag byte.
pub open spec fn spec_encode(r: Index) -> Seq<u8> {
    spec_u32_to_le_bytes(r.id) + spec_u32_to_le_bytes(r.offset) + spec_u32_to_le_bytes(r.length)
        + seq![r.is_free]
}

/// The record stored in the first 13 bytes of `b`.
pub open spec fn spec_decode(b: Seq<u8>) -> Index
    recommends
        b.len() >= RECORD_BYTES,
{
    Index {
        id: spec_u32_from_le_bytes(b.subrange(0, 4)),
        offset: spec_u32_from_le_bytes(b.subrange(4, 8)),
        length: spec_u32_from_le_bytes(b.subrange(8, 12)),
        is_free: b[12],
    }
}

/// Encoding a record and decoding the result gives the record back, and the
/// encoding is exactly one record wide.
pub proof fn lemma_codec_round_trip(r: Index)
    ensures
        spec_encode(r).len() == RECORD_BYTES,
        spec_decode(spec_encode(r)) == r,
{
    lemma_auto_spec_u32_to_from_le_bytes();
    let e = spec_encode(r);
    assert(e.subrange(0, 4) =~= spec_u32_to_le_bytes(r.id));
    assert(e.subrange(4, 8) =~= spec_u32_to_le_bytes(r.offset));
    assert(e.subrange(8, 12) =~= spec_u32_to_le_bytes(r.length));
}

/// The sequence of records a directory store holds, decoded 13 bytes at a
/// time from the front; a trailing fragment shorter than one record is not a
/// record.
pub open spec fn records_of(b: Seq<u8>) -> Seq<Index>
    decreases b.len(),
{
    if b.len() < RECORD_BYTES {
        Seq::empty()
    } else {
        seq![spec_decode(b)] + records_of(b.skip(RECORD_BYTES as int))
    }
}

/// The directory store's byte length is a whole number of records.
pub open spec fn dir_wf(b: Seq<u8>) -> bool {
    b.len() % (RECORD_BYTES as nat) == 0
}

/// Slot ids are dense: the record at position `i` carries id `i`.
pub open spec fn dense(recs: Seq<Index>) -> bool {
    forall|i: int| 0 <= i < recs.len() ==> (#[trigger] recs[i]).id == i
}

/// A well-formed directory store: a whole number of records, ids dense.
pub open spec fn dir_inv(b: Seq<u8>) -> bool {
    dir_wf(b) && dense(records_of(b))
}

/// A well-formed directory holds one record per 13 bytes.
pub proof fn lemma_records_of_len(b: Seq<u8>)
    requires
        dir_wf(b),
    ensures
        records_of(b).len() * RECORD_BYTES == b.len(),
    decreases b.len(),
{
    if b.len() >= RECORD_BYTES {
        lemma_records_of_len(b.skip(RECORD_BYTES as int));
    }
}

/// Decoding reads only the first 13 bytes.
pub proof fn lemma_decode_depends_on_prefix(b1: Seq<u8>, b2: Seq<u8>)
    requires
        b1.len() >= RECORD_BYTES,
        b2.len() >= RECORD_BYTES,
        b1.subrange(0, RECORD_BYTES as int) == b2.subrange(0, RECORD_BYTES as int),
    ensures
        spec_decode(b1) == spec_decode(b2),
{
    let p1 = b1.subrange(0, RECORD_BYTES as int);
    let p2 = b2.subrange(0, RECORD_BYTES as int);
    assert(b1.subrange(0, 4) =~= p1.subrange(0, 4));
    assert(b2.subrange(0, 4) =~= p2.subrange(0, 4));
    assert(b1.subrange(4, 8) =~= p1.subrange(4, 8));
    assert(b2.subrange(4, 8) =~= p2.subrange(4, 8));
    assert(b1.subrange(8, 12) =~= p1.subrange(8, 12));
    assert(b2.subrange(8, 12) =~= p2.subrange(8, 12));
    assert(b1[12] == p1[12] && b2[12] == p2[12]);
}

/// The record at position `i` is decoded from bytes `[13*i, 13*i + 13)`.
pub proof fn lemma_records_of_index(b: Seq<u8>, i: int)
    requires
        0 <= i,
        RECORD_BYTES * i + RECORD_BYTES <= b.len(),
        records_of(b).len() > i,
    ensures
        records_of(b)[i] == spec_decode(
            b.subrange(RECORD_BYTES * i, RECORD_BYTES * i + RECORD_BYTES),
        ),
    decreases b.len(),
{
    if i == 0 {
        let p = b.subrange(0, RECORD_BYTES as int);
        assert(p.subrange(0, RECORD_BYTES as int) =~= b.subrange(0, RECORD_BYTES as int));
        lemma_decode_depends_on_prefix(b, p);
    } else {
        let rest = b.skip(RECORD_BYTES as int);
        lemma_records_of_index(rest, i - 1);
        assert(rest.subrange(RECORD_BYTES * (i - 1), RECORD_BYTES * (i - 1) + RECORD_BYTES)
            =~= b.subrange(RECORD_BYTES * i, RECORD_BYTES * i + RECORD_BYTES));
    }
}

/// Overwriting the 13 bytes of slot `i` of a well-formed directory replaces
/// record `i` and nothing else.
pub proof fn lemma_write_record_update(b: Seq<u8>, i: int, d: Seq<u8>)
    requires
        dir_wf(b),
        d.len() == RECORD_BYTES,
        0 <= i < records_of(b).len(),
    ensures
        write_bytes(b, RECORD_BYTES * i, d).len() == b.len(),
        dir_wf(write_bytes(b, RECORD_BYTES * i, d)),
        records_of(write_bytes(b, RECORD_BYTES * i, d)) == records_of(b).update(
            i,
            spec_decode(d),
        ),
{
    let b2 = write_bytes(b, RECORD_BYTES * i, d);
    lemma_records_of_len(b);
    assert(b2.len() == b.len());
    lemma_records_of_len(b2);
    let r1 = records_of(b);
    let r2 = records_of(b2);
    assert(r2.len() == r1.len()) by (nonlinear_arith)
        requires
            r1.len() * RECORD_BYTES == b.len(),
            r2.len() * RECORD_BYTES == b2.len(),
            b.len() == b2.len(),
    ;
    assert forall|j: int| 0 <= j < r2.len() implies r2[j] == r1.update(i, spec_decode(d))[j] by {
        lemma_records_of_index(b, j);
        lemma_records_of_index(b2, j);
        if j == i {
            assert(b2.subrange(RECORD_BYTES * j, RECORD_BYTES * j + RECORD_BYTES) =~= d);
        } else {
            assert(b2.subrange(RECORD_BYTES * j, RECORD_BYTES * j + RECORD_BYTES) =~= b.subrange(
                RECORD_BYTES * j,
                RECORD_BYTES * j + RECORD_BYTES,
            ));
        }
    }
    assert(r2 =~= r1.update(i, spec_decode(d)));
}

/// Writing 13 bytes exactly at the end of a well-formed directory appends
/// one record and leaves the existing ones unchanged.
pub proof fn lemma_write_record_append(b: Seq<u8>, d: Seq<u8>)
    requires
        dir_wf(b),
        d.len() == RECORD_BYTES,
    ensures
        write_bytes(b, b.len() as int, d).len() == b.len() + RECORD_BYTES,
        dir_wf(write_bytes(b, b.len() as int, d)),
        records_of(write_bytes(b, b.len() as int, d)) == records_of(b).push(spec_decode(d)),
{
    let b2 = write_bytes(b, b.len() as int, d);
    lemma_records_of_len(b);
    lemma_records_of_len(b2);
    let r1 = records_of(b);
    let r2 = records_of(b2);
    assert(r2.len() == r1.len() + 1) by (nonlinear_arith)
        requires
            r1.len() * RECORD_BYTES == b.len(),
            r2.len() * RECORD_BYTES == b2.len(),
            b2.len() == b.len() + RECORD_BYTES,
    ;
    assert forall|j: int| 0 <= j < r2.len() implies r2[j] == r1.push(spec_decode(d))[j] by {
        lemma_records_of_index(b2, j);
        if j < r1.len() {
            lemma_records_of_index(b, j);
            assert(RECORD_BYTES * j + RECORD_BYTES <= b.len()) by (nonlinear_arith)
                requires
                    j < r1.len(),
                    0 <= j,
                    r1.len() * RECORD_BYTES == b.len(),
            ;
            assert(b2.subrange(RECORD_BYTES * j, RECORD_BYTES * j + RECORD_BYTES) =~= b.subrange(
                RECORD_BYTES * j,
                RECORD_BYTES * j + RECORD_BYTES,
            ));
        } else {
            assert(RECORD_BYTES * j == b.len()) by (nonlinear_arith)
                requires
                    j == r1.len(),
                    r1.len() * RECORD_BYTES == b.len(),
            ;
            assert(b2.subrange(RECORD_BYTES * j, RECORD_BYTES * j + RECORD_BYTES) =~= d);
        }
    }
    assert(r2 =~= r1.push(spec_decode(d)));
}

/// A freed record can hold `len` bytes: it is reclaimable and its original
/// capacity is large enough.
pub open spec fn fits(r: Index, len: u32) -> bool {
    r.is_free == 1 && r.length >= len
}

/// The position of the first record that can be reused for `len` bytes, in
/// scan order; `None` when no record qualifies.
pub open spec fn first_fit(recs: Seq<Index>, len: u32) -> Option<int>
    decreases recs.len(),
{
    if recs.len() == 0 {
        None
    } else if fits(recs[0], len) {
        Some(0int)
    } else {
        match first_fit(recs.skip(1), len) {
            None => None,
            Some(i) => Some(i + 1),
        }
    }
}

/// The largest slot id among the records, zero when there are none.
pub open spec fn max_id(recs: Seq<Index>) -> u32
    decreases recs.len(),
{
    if recs.len() == 0 {
        0u32
    } else {
        let m = max_id(recs.skip(1));
        if recs[0].id > m {
            recs[0].id
        } else {
            m
        }
    }
}

/// `first_fit` returns the position of the first qualifying record, and
/// `None` exactly when no record qualifies.
pub proof fn lemma_first_fit_characterization(recs: Seq<Index>, len: u32)
    ensures
        first_fit(recs, len) matches Some(i) ==> 0 <= i < recs.len() && fits(recs[i], len)
            && (forall|j: int| 0 <= j < i ==> !fits(#[trigger] recs[j], len)),
        first_fit(recs, len) is None ==> forall|j: int|
            0 <= j < recs.len() ==> !fits(#[trigger] recs[j], len),
    decreases recs.len(),
{
    if recs.len() > 0 && !fits(recs[0], len) {
        let rest = recs.skip(1);
        lemma_first_fit_characterization(rest, len);
        assert(forall|j: int| 0 <= j < rest.len() ==> #[trigger] rest[j] == recs[j + 1]);
        match first_fit(rest, len) {
            None => {
                assert(first_fit(recs, len) is None);
                assert forall|j: int| 0 <= j < recs.len() implies !fits(
                    #[trigger] recs[j],
                    len,
                ) by {
                    if j > 0 {
                        assert(recs[j] == rest[j - 1]);
                        assert(!fits(rest[j - 1], len));
                    }
                }
            },
            Some(i) => {
                assert(first_fit(recs, len) == Some(i + 1));
                assert(recs[i + 1] == rest[i]);
                assert forall|j: int| 0 <= j < i + 1 implies !fits(#[trigger] recs[j], len) by {
                    if j > 0 {
                        assert(recs[j] == rest[j - 1]);
                        assert(!fits(rest[j - 1], len));
                    }
                }
            },
        }
    }
}

/// The first qualifying position determines `first_fit`.
pub proof fn lemma_first_fit_at(recs: Seq<Index>, len: u32, i: int)
    requires
        0 <= i < recs.len(),
        fits(recs[i], len),
        forall|j: int| 0 <= j < i ==> !fits(#[trigger] recs[j], len),
    ensures
        first_fit(recs, len) == Some(i),
    decreases recs.len(),
{
    if i > 0 {
        lemma_first_fit_at(recs.skip(1), len, i - 1);
    }
}

/// Every id is bounded by `max_id`, and some record carries it.
pub proof fn lemma_max_id_characterization(recs: Seq<Index>)
    ensures
        forall|j: int| 0 <= j < recs.len() ==> (#[trigger] recs[j]).id <= max_id(recs),
        recs.len() > 0 ==> exists|j: int| 0 <= j < recs.len() && (#[trigger] recs[j]).id
            == max_id(recs),
    decreases recs.len(),
{
    if recs.len() > 0 {
        let rest = recs.skip(1);
        lemma_max_id_characterization(rest);
        assert(forall|j: int| 0 <= j < rest.len() ==> #[trigger] rest[j] == recs[j + 1]);
        let m = max_id(rest);
        assert(max_id(recs) == if recs[0].id > m {
            recs[0].id
        } else {
            m
        });
        assert forall|j: int| 0 <= j < recs.len() implies (#[trigger] recs[j]).id <= max_id(
            recs,
        ) by {
            if j > 0 {
                assert(recs[j] == rest[j - 1]);
                assert(rest[j - 1].id <= m);
            }
        }
        if recs[0].id > m {
            assert(recs[0].id == max_id(recs));
        } else if recs.len() > 1 {
            let w = choose|j: int| 0 <= j < rest.len() && (#[trigger] rest[j]).id == m;
            assert(recs[w + 1].id == max_id(recs));
        } else {
            assert(m == 0);
            assert(recs[0].id == max_id(recs));
        }
    }
}

/// Extending a scan by one record takes the maximum with that record's id.
pub proof fn lemma_max_id_push(recs: Seq<Index>, r: Index)
    ensures
        max_id(recs.push(r)) == if r.id > max_id(recs) {
            r.id
        } else {
            max_id(recs)
        },
    decreases recs.len(),
{
    if recs.len() == 0 {
        assert(recs.push(r).skip(1) =~= Seq::<Index>::empty());
        assert(recs.push(r)[0] == r);
        assert(max_id(recs.push(r).skip(1)) == 0);
        assert(max_id(recs) == 0);
    } else {
        let m0 = max_id(recs.skip(1));
        lemma_max_id_push(recs.skip(1), r);
        assert(recs.push(r).skip(1) =~= recs.skip(1).push(r));
        assert(max_id(recs.push(r).skip(1)) == if r.id > m0 {
            r.id
        } else {
            m0
        });
        assert(recs.push(r)[0] == recs[0]);
        assert(max_id(recs.push(r)) == if recs[0].id > max_id(recs.push(r).skip(1)) {
            recs[0].id
        } else {
            max_id(recs.push(r).skip(1))
        });
        assert(max_id(recs) == if recs[0].id > m0 {
            recs[0].id
        } else {
            m0
        });
    }
}

/// In a dense directory the largest id is the last position.
pub proof fn lemma_dense_max_id(recs: Seq<Index>)
    requires
        dense(recs),
        recs.len() > 0,
    ensures
        max_id(recs) == recs.len() - 1,
{
    lemma_max_id_characterization(recs);
    assert(recs[recs.len() - 1].id <= max_id(recs));
    let w = choose|j: int| 0 <= j < recs.len() && (#[trigger] recs[j]).id == max_id(recs);
    assert(max_id(recs) == w);
}

/// The slot id the allocator assigns for `len` new bytes: the first
/// qualifying free slot's id, else one past the largest id seen, else zero
/// on an empty directory.
pub open spec fn spec_target_id(recs: Seq<Index>, len: u32) -> int {
    if recs.len() == 0 {
        0int
    } else {
        match first_fit(recs, len) {
            Some(i) => recs[i].id as int,
            None => max_id(recs) as int + 1,
        }
    }
}

/// The content-store offset the allocator assigns for `len` new bytes: the
/// reused slot's offset, else the current end of the content store.
pub open spec fn spec_target_offset(recs: Seq<Index>, coll_len: int, len: u32) -> int {
    if recs.len() == 0 {
        coll_len
    } else {
        match first_fit(recs, len) {
            Some(i) => recs[i].offset as int,
            None => coll_len,
        }
    }
}

/// The records after persisting a fresh record `idx`: the reused slot is
/// overwritten, or the record is appended past the end.
pub open spec fn spec_recs_after_create(recs: Seq<Index>, len: u32, idx: Index) -> Seq<Index> {
    match first_fit(recs, len) {
        Some(i) => recs.update(i, idx),
        None => recs.push(idx),
    }
}

/// A create fails when the content length or the chosen target region's
/// start plus that length does not fit the record layout's 32-bit fields.
pub open spec fn create_would_overflow(recs: Seq<Index>, coll_len: int, clen: int) -> bool {
    clen > u32::MAX || spec_target_offset(recs, coll_len, clen as u32) + clen > u32::MAX
}

/// A slot inside a directory that can still grow by one record starts at a
/// byte offset whose record fits 32 bits.
proof fn lemma_slot_offset_bound(id: int, n: int, dirlen: int)
    requires
        0 <= id < n || id == n,
        n * RECORD_BYTES == dirlen,
        dirlen + RECORD_BYTES <= u32::MAX,
        0 <= n,
    ensures
        id * RECORD_BYTES + RECORD_BYTES <= u32::MAX,
{
    assert(id * RECORD_BYTES + RECORD_BYTES <= n * RECORD_BYTES + RECORD_BYTES)
        by (nonlinear_arith)
        requires
            id <= n,
    ;
}

/// A directory that can still grow by one record has fewer slots than any
/// 32-bit id can name.
proof fn lemma_record_count_small(n: int, dirlen: int)
    requires
        0 <= n,
        n * RECORD_BYTES == dirlen,
        dirlen + RECORD_BYTES <= u32::MAX,
    ensures
        n < u32::MAX,
{
    assert(n <= n * RECORD_BYTES) by (nonlinear_arith)
        requires
            0 <= n,
    ;
}

/// Dense ids under creates alone: while every record of a dense directory is
/// live — as after any run of creates with no frees — the allocator finds no
/// slot to reuse and assigns the next dense id, the record count itself. So
/// after N creates into an initially empty pair of stores the directory
/// enumerates to N records whose ids are 0 to N - 1 in order.
pub proof fn lemma_all_live_creates_stay_dense(recs: Seq<Index>, len: u32)
    requires
        dense(recs),
        forall|i: int| 0 <= i < recs.len() ==> (#[trigger] recs[i]).is_free == 0,
    ensures
        first_fit(recs, len) is None,
        spec_target_id(recs, len) == recs.len(),
{
    lemma_first_fit_characterization(recs, len);
    if first_fit(recs, len) is Some {
        let k = first_fit(recs, len)->Some_0;
        assert(fits(recs[k], len));
        assert(false);
    }
    if recs.len() > 0 {
        lemma_dense_max_id(recs);
    }
}

/// First-fit reuse with a single freed slot of capacity `recs[c].length`:
/// content that fits that capacity is placed at exactly that record's id and
/// offset, while longer content ignores the slot and appends at the content
/// store's end with the next fresh id.
pub proof fn lemma_single_free_slot_reuse(recs: Seq<Index>, c: int, coll_len: int, len: u32)
    requires
        0 <= c < recs.len(),
        recs[c].is_free == 1,
        forall|j: int| 0 <= j < recs.len() && j != c ==> (#[trigger] recs[j]).is_free == 0,
    ensures
        len <= recs[c].length ==> first_fit(recs, len) == Some(c) && spec_target_id(recs, len)
            == recs[c].id as int && spec_target_offset(recs, coll_len, len) == recs[
            c
        ].offset as int,
        len > recs[c].length ==> first_fit(recs, len) is None && spec_target_id(recs, len)
            == max_id(recs) as int + 1 && spec_target_offset(recs, coll_len, len) == coll_len,
{
    lemma_first_fit_characterization(recs, len);
    if len <= recs[c].length {
        assert(fits(recs[c], len));
        assert forall|j: int| 0 <= j < c implies !fits(#[trigger] recs[j], len) by {
            assert(recs[j].is_free == 0);
        }
        lemma_first_fit_at(recs, len, c);
    } else {
        if first_fit(recs, len) is Some {
            let k = first_fit(recs, len)->Some_0;
            assert(fits(recs[k], len));
            assert(false);
        }
    }
}

/// The same record with the free flag set: the reclaimable form of `r`.
pub open spec fn freed_of(r: Index) -> Index {
    Index { id: r.id, offset: r.offset, length: r.length, is_free: 1u8 }
}

impl Index {
    /// Serializes the record to its fixed 13-byte form.
    pub fn to_bytes(self) -> (r: Vec<u8>)
        ensures
            r@ == spec_encode(self),
            r@.len() == RECORD_BYTES,
    {
        let mut bytes = u32_to_le_bytes(self.id);
        let mut off_bytes = u32_to_le_bytes(self.offset);
        bytes.append(&mut off_bytes);
        let mut len_bytes = u32_to_le_bytes(self.length);
        bytes.append(&mut len_bytes);
        bytes.push(self.is_free);
        proof {
            lemma_auto_spec_u32_to_from_le_bytes();
            assert(bytes@ =~= spec_encode(self));
        }
        bytes
    }

    /// Removes and returns the leading little-endian `u32` of `bytes`.
    pub fn extract_u32(bytes: &mut Vec<u8>) -> (r: u32)
        requires
            old(bytes)@.len() >= 4,
        ensures
            r == spec_u32_from_le_bytes(old(bytes)@.subrange(0, 4)),
            final(bytes)@ == old(bytes)@.skip(4),
    {
        let mut head: Vec<u8> = Vec::new();
        head.push(bytes[0]);
        head.push(bytes[1]);
        head.push(bytes[2]);
        head.push(bytes[3]);
        proof {
            assert(head@ =~= old(bytes)@.subrange(0, 4));
        }
        let r = u32_from_le_bytes(head.as_slice());
        bytes.remove(0);
        bytes.remove(0);
        bytes.remove(0);
        bytes.remove(0);
        proof {
            assert(bytes@ =~= old(bytes)@.skip(4));
        }
        r
    }

    /// Consumes the first 13 bytes of `bytes` and returns the record they
    /// hold.
    pub fn take_first_from_bytes(bytes: &mut Vec<u8>) -> (r: Index)
        requires
            old(bytes)@.len() >= RECORD_BYTES,
        ensures
            r == spec_decode(old(bytes)@),
            final(bytes)@ == old(bytes)@.skip(RECORD_BYTES as int),
    {
        let id = Self::extract_u32(bytes);
        let offset = Self::extract_u32(bytes);
        let length = Self::extract_u32(bytes);
        let is_free = bytes.remove(0);
        proof {
            assert(old(bytes)@.skip(4).subrange(0, 4) =~= old(bytes)@.subrange(4, 8));
            assert(old(bytes)@.skip(4).skip(4).subrange(0, 4) =~= old(bytes)@.subrange(8, 12));
            assert(bytes@ =~= old(bytes)@.skip(RECORD_BYTES as int));
        }
        Index { id, offset, length, is_free }
    }

    /// Persists the record at byte offset `id * 13` of the directory store,
    /// overwriting whatever record sat in that slot; at the end of a
    /// well-formed directory it appends a new slot instead.
    pub fn save(&self, db: &mut Database)
        requires
            self.id as int * RECORD_BYTES + RECORD_BYTES <= u32::MAX,
        ensures
            final(db)@ == write_bytes(
                old(db)@,
                self.id as int * RECORD_BYTES,
                spec_encode(*self),
            ),
            dir_wf(old(db)@) && (self.id as int) < records_of(old(db)@).len() ==> dir_wf(
                final(db)@,
            ) && final(db)@.len() == old(db)@.len() && records_of(final(db)@) == records_of(
                old(db)@,
            ).update(self.id as int, *self),
            dir_wf(old(db)@) && (self.id as int) == records_of(old(db)@).len() ==> dir_wf(
                final(db)@,
            ) && final(db)@.len() == old(db)@.len() + RECORD_BYTES && records_of(final(db)@)
                == records_of(old(db)@).push(*self),
    {
        let bytes = self.clone().to_bytes();
        let stride = bytes.len() as u32;
        proof {
            assert(stride == RECORD_BYTES);
            assert(stride as int * self.id as int == self.id as int * RECORD_BYTES)
                by (nonlinear_arith)
                requires
                    stride == RECORD_BYTES,
            ;
        }
        let offset = stride * self.id;
        db.write_at(offset, bytes);
        proof {
            lemma_codec_round_trip(*self);
            if dir_wf(old(db)@) {
                lemma_records_of_len(old(db)@);
                if (self.id as int) < records_of(old(db)@).len() {
                    lemma_write_record_update(old(db)@, self.id as int, spec_encode(*self));
                } else if (self.id as int) == records_of(old(db)@).len() {
                    assert(self.id as int * RECORD_BYTES == old(db)@.len());
                    lemma_write_record_append(old(db)@, spec_encode(*self));
                }
            }
        }
    }

    /// Re-persists the record with the free flag forced on, leaving id,
    /// offset and length unchanged: the slot becomes a reuse candidate.
    pub fn delete_at(&self, indexing_db: &mut Database)
        requires
            self.id as int * RECORD_BYTES + RECORD_BYTES <= u32::MAX,
        ensures
            final(indexing_db)@ == write_bytes(
                old(indexing_db)@,
                self.id as int * RECORD_BYTES,
                spec_encode(freed_of(*self)),
            ),
            dir_wf(old(indexing_db)@) && (self.id as int) < records_of(old(indexing_db)@).len()
                ==> dir_wf(final(indexing_db)@) && final(indexing_db)@.len() == old(
                indexing_db,
            )@.len() && records_of(final(indexing_db)@) == records_of(old(indexing_db)@).update(
                self.id as int,
                freed_of(*self),
            ),
    {
        let freed = Index { id: self.id, offset: self.offset, length: self.length, is_free: 1 };
        freed.save(indexing_db);
    }

    /// Decodes the directory store into its record sequence, in slot order;
    /// fails when the store's length is not a whole number of records.
    pub fn get_all_indexing(db: &Database) -> (r: Result<Vec<Index>, StoreError>)
        ensures
            dir_wf(db@) ==> (r matches Ok(v) && v@ == records_of(db@)),
            !dir_wf(db@) ==> r == Err::<Vec<Index>, StoreError>(StoreError::CorruptDirectory),
    {
        let mut bytes = db.get_all_bytes();
        if bytes.len() % RECORD_BYTES != 0 {
            return Err(StoreError::CorruptDirectory);
        }
        let mut indexes: Vec<Index> = Vec::new();
        while bytes.len() > 0
            invariant
                bytes@.len() % (RECORD_BYTES as nat) == 0,
                indexes@ + records_of(bytes@) == records_of(db@),
            decreases bytes@.len(),
        {
            let ghost prev = bytes@;
            let idx = Self::take_first_from_bytes(&mut bytes);
            indexes.push(idx);
            proof {
                assert(records_of(prev) == seq![idx] + records_of(bytes@));
                assert(indexes@ + records_of(bytes@) =~= records_of(db@));
            }
        }
        proof {
            assert(indexes@ =~= records_of(db@));
        }
        Ok(indexes)
    }

    /// Truncates both stores to zero length: a full destructive reset. The
    /// directory afterwards enumerates to the empty record sequence.
    pub fn clear(collection_db: &mut Database, indexing_db: &mut Database)
        ensures
            final(collection_db)@.len() == 0,
            final(indexing_db)@.len() == 0,
            records_of(final(indexing_db)@) == Seq::<Index>::empty(),
            dir_inv(final(indexing_db)@),
    {
        collection_db.clear_database();
        indexing_db.clear_database();
    }

    /// Scans the directory for a placement for `length` new bytes: the first
    /// free record whose original capacity suffices is reused (its id and
    /// offset are returned), otherwise the id one past the largest id seen is
    /// assigned with no reused offset, and an empty directory assigns id 0.
    ///
    /// One full linear pass per allocation, with no persisted free-list:
    /// intended for small record counts, not a design that scales.
    pub fn find_free_space_for(length: u32, indexing_db: &Database) -> (r: (u32, Option<u32>))
        requires
            dir_wf(indexing_db@),
            max_id(records_of(indexing_db@)) < u32::MAX,
        ensures
            ({
                let recs = records_of(indexing_db@);
                &&& (recs.len() == 0 ==> r == (0u32, None::<u32>))
                &&& (first_fit(recs, length) matches Some(i) ==> r.0 == recs[i].id && r.1
                    == Some(recs[i].offset))
                &&& (recs.len() > 0 && first_fit(recs, length) is None ==> r.0 == max_id(recs)
                    + 1 && r.1 is None)
            }),
    {
        let indexes = Self::get_all_indexing(indexing_db).unwrap();
        let ghost recs = records_of(indexing_db@);
        if indexes.len() == 0 {
            return (0, None);
        }
        proof {
            lemma_max_id_characterization(recs);
        }
        let mut largest_id: u32 = 0;
        let mut i: usize = 0;
        while i < indexes.len()
            invariant
                recs == records_of(indexing_db@),
                indexes@ == recs,
                0 <= i <= recs.len(),
                largest_id == max_id(recs.take(i as int)),
                largest_id <= max_id(recs),
                max_id(recs) < u32::MAX,
                forall|j: int| 0 <= j < recs.len() ==> (#[trigger] recs[j]).id <= max_id(recs),
                forall|j: int| 0 <= j < i ==> !fits(#[trigger] recs[j], length),
            decreases recs.len() - i,
        {
            if indexes[i].id > largest_id {
                largest_id = indexes[i].id;
            }
            if indexes[i].is_free == 1 && indexes[i].length >= length {
                proof {
                    lemma_first_fit_at(recs, length, i as int);
                }
                return (indexes[i].id, Some(indexes[i].offset));
            }
            proof {
                assert(recs.take(i + 1 as int) =~= recs.take(i as int).push(recs[i as int]));
                lemma_max_id_push(recs.take(i as int), recs[i as int]);
            }
            i = i + 1;
        }
        proof {
            assert(recs.take(recs.len() as int) =~= recs);
            lemma_first_fit_characterization(recs, length);
            if first_fit(recs, length) is Some {
                let k = first_fit(recs, length)->Some_0;
                assert(fits(recs[k], length));
                assert(false);
            }
        }
        (largest_id + 1, None)
    }

    /// Creates a record for `content`: asks the allocator for a placement,
    /// writes the content bytes at the chosen offset of the content store
    /// (the reused region's start, or the store's end), and persists the new
    /// live record in its directory slot. Fails, writing nothing, when the
    /// content length or the end of the target region does not fit the
    /// record layout's 32-bit fields.
    pub fn new(content: Vec<u8>, collection_db: &mut Database, indexing_db: &mut Database) -> (r:
        Result<Index, StoreError>)
        requires
            dir_inv(old(indexing_db)@),
            old(indexing_db)@.len() + RECORD_BYTES <= u32::MAX,
        ensures
            ({
                let recs = records_of(old(indexing_db)@);
                let coll_len = old(collection_db)@.len() as int;
                let clen = content@.len() as int;
                let len32 = clen as u32;
                &&& ((r is Err) <==> create_would_overflow(recs, coll_len, clen))
                &&& (r matches Err(e) ==> e == StoreError::ContentTooLarge && final(collection_db)@ == old(collection_db)@ && final(indexing_db)@ == old(indexing_db)@)
                &&& (r matches Ok(idx) ==> {
                    &&& idx.id as int == spec_target_id(recs, len32)
                    &&& idx.offset as int == spec_target_offset(recs, coll_len, len32)
                    &&& idx.length as int == clen
                    &&& idx.is_free == 0
                    &&& final(collection_db)@ == write_bytes(
                        old(collection_db)@,
                        idx.offset as int,
                        content@,
                    )
                    &&& records_of(final(indexing_db)@) == spec_recs_after_create(
                        recs,
                        len32,
                        idx,
                    )
                    &&& dir_inv(final(indexing_db)@)
                    &&& (first_fit(recs, len32) is Some ==> final(indexing_db)@.len() == old(
                        indexing_db,
                    )@.len())
                    &&& (first_fit(recs, len32) is None ==> final(indexing_db)@.len() == old(
                        indexing_db,
                    )@.len() + RECORD_BYTES && idx.offset as int == coll_len && final(collection_db)@.len() == coll_len + clen)
                })
            }),
    {
        let ghost recs = records_of(indexing_db@);
        proof {
            lemma_records_of_len(indexing_db@);
            if recs.len() > 0 {
                lemma_dense_max_id(recs);
                lemma_record_count_small(recs.len() as int, indexing_db@.len() as int);
            }
        }
        if content.len() > u32::MAX as usize {
            return Err(StoreError::ContentTooLarge);
        }
        let length_u32 = content.len() as u32;
        let (id, t_offset) = Self::find_free_space_for(length_u32, indexing_db);
        proof {
            lemma_first_fit_characterization(recs, length_u32);
        }
        let offset: u32 = match t_offset {
            None => {
                let l = collection_db.len();
                if l > u32::MAX as u64 || (content.len() as u64) > u32::MAX as u64 - l {
                    return Err(StoreError::ContentTooLarge);
                }
                l as u32
            },
            Some(v) => {
                if (content.len() as u64) > u32::MAX as u64 - (v as u64) {
                    return Err(StoreError::ContentTooLarge);
                }
                v
            },
        };
        collection_db.write_at(offset, content);
        let index = Index { id, offset, length: length_u32, is_free: 0 };
        proof {
            let n = recs.len() as int;
            if first_fit(recs, length_u32) is Some {
                let k = first_fit(recs, length_u32)->Some_0;
                assert(index.id as int == k);
                lemma_slot_offset_bound(k, n, indexing_db@.len() as int);
            } else {
                assert(index.id as int == n);
                lemma_slot_offset_bound(n, n, indexing_db@.len() as int);
            }
        }
        index.save(indexing_db);
        proof {
            let n = recs.len() as int;
            if first_fit(recs, length_u32) is Some {
                let k = first_fit(recs, length_u32)->Some_0;
                assert(records_of(indexing_db@) == recs.update(k, index));
                assert(dense(records_of(indexing_db@)));
            } else {
                assert(records_of(indexing_db@) == recs.push(index));
                assert forall|j: int|
                    0 <= j < records_of(indexing_db@).len() implies (#[trigger] records_of(
                    indexing_db@,
                )[j]).id == j by {
                    if j < n {
                        assert(records_of(indexing_db@)[j] == recs[j]);
                    }
                }
            }
        }
        Ok(index)
    }

    /// Replaces this record's content. New content no longer than the
    /// record's current length is written in place: same id, same offset,
    /// the length updated and the record forced live. Longer content frees
    /// this record's slot first (its capacity stays reusable) and then goes
    /// through the normal create path, which may reuse some other free slot
    /// or append. Fails with nothing but the free persisted when the new
    /// placement does not fit the layout's 32-bit fields.
    pub fn update_with(
        self,
        collection_db: &mut Database,
        index_db: &mut Database,
        content: Vec<u8>,
    ) -> (r: Result<Index, StoreError>)
        requires
            dir_inv(old(index_db)@),
            old(index_db)@.len() + RECORD_BYTES <= u32::MAX,
            (self.id as int) < records_of(old(index_db)@).len(),
        ensures
            ({
                let recs = records_of(old(index_db)@);
                let coll_len = old(collection_db)@.len() as int;
                let clen = content@.len() as int;
                let len32 = clen as u32;
                &&& (clen <= self.length ==> {
                    &&& ((r is Err) <==> self.offset + clen > u32::MAX)
                    &&& (r matches Err(e) ==> e == StoreError::ContentTooLarge && final(collection_db)@ == old(collection_db)@ && final(index_db)@ == old(index_db)@)
                    &&& (r matches Ok(idx) ==> {
                        &&& idx.id == self.id
                        &&& idx.offset == self.offset
                        &&& idx.length as int == clen
                        &&& idx.is_free == 0
                        &&& final(collection_db)@ == write_bytes(
                            old(collection_db)@,
                            self.offset as int,
                            content@,
                        )
                        &&& records_of(final(index_db)@) == recs.update(self.id as int, idx)
                        &&& final(index_db)@.len() == old(index_db)@.len()
                        &&& dir_inv(final(index_db)@)
                    })
                })
                &&& (clen > self.length ==> {
                    let recs1 = recs.update(self.id as int, freed_of(self));
                    &&& ((r is Err) <==> create_would_overflow(recs1, coll_len, clen))
                    &&& (r matches Err(e) ==> e == StoreError::ContentTooLarge && final(collection_db)@ == old(collection_db)@ && records_of(final(index_db)@) == recs1
                        && dir_inv(final(index_db)@))
                    &&& (r matches Ok(idx) ==> {
                        &&& idx.id as int == spec_target_id(recs1, len32)
                        &&& idx.offset as int == spec_target_offset(recs1, coll_len, len32)
                        &&& idx.length as int == clen
                        &&& idx.is_free == 0
                        &&& idx.id != self.id
                        &&& final(collection_db)@ == write_bytes(
                            old(collection_db)@,
                            idx.offset as int,
                            content@,
                        )
                        &&& records_of(final(index_db)@) == spec_recs_after_create(
                            recs1,
                            len32,
                            idx,
                        )
                        &&& records_of(final(index_db)@)[self.id as int] == freed_of(self)
                        &&& dir_inv(final(index_db)@)
                    })
                })
            }),
    {
        let ghost recs = records_of(index_db@);
        proof {
            lemma_records_of_len(index_db@);
            lemma_slot_offset_bound(
                self.id as int,
                recs.len() as int,
                index_db@.len() as int,
            );
        }
        if content.len() > self.length as usize {
            self.delete_at(index_db);
            let ghost recs1 = records_of(index_db@);
            proof {
                assert(recs1 == recs.update(self.id as int, freed_of(self)));
                assert forall|j: int| 0 <= j < recs1.len() implies (#[trigger] recs1[j]).id
                    == j by {
                    if j != self.id as int {
                        assert(recs1[j] == recs[j]);
                    }
                }
            }
            let res = Self::new(content, collection_db, index_db);
            proof {
                let clen = content@.len() as int;
                if clen <= u32::MAX {
                    let len32 = clen as u32;
                    lemma_first_fit_characterization(recs1, len32);
                    if res is Ok {
                        assert(!fits(recs1[self.id as int], len32));
                        if first_fit(recs1, len32) is Some {
                            let k = first_fit(recs1, len32)->Some_0;
                            assert(k != self.id as int);
                            assert(recs1[k].id == k);
                        } else {
                            lemma_dense_max_id(recs1);
                        }
                    }
                }
            }
            return res;
        }
        if (content.len() as u64) > (u32::MAX as u64) - (self.offset as u64) {
            return Err(StoreError::ContentTooLarge);
        }
        let updated = Index {
            id: self.id,
            offset: self.offset,
            length: content.len() as u32,
            is_free: 0,
        };
        collection_db.write_at(self.offset, content);
        updated.save(index_db);
        proof {
            let recs2 = records_of(index_db@);
            assert forall|j: int| 0 <= j < recs2.len() implies (#[trigger] recs2[j]).id == j by {
                if j != self.id as int {
                    assert(recs2[j] == recs[j]);
                }
            }
        }
        Ok(updated)
    }

    /// Reads this record's content bytes, exactly `length` bytes starting at
    /// `offset`; fails when the content store is shorter than the record's
    /// region claims.
    pub fn get_content(&self, collection_db: &Database) -> (r: Result<Vec<u8>, StoreError>)
        ensures
            self.offset + self.length <= collection_db@.len() ==> (r matches Ok(v) && v@
                == collection_db@.subrange(
                self.offset as int,
                self.offset as int + self.length as int,
            )),
            self.offset + self.length > collection_db@.len() ==> r == Err::<Vec<u8>, StoreError>(
                StoreError::OutOfBounds,
            ),
    {
        collection_db.read_at(self.offset, self.length)
    }
}

} // verus!
