//! Byte store: a flat arena of bytes addressed by absolute offset.
//!
//! `Database` models one persistent byte store. A write at an offset beyond
//! the current end zero-extends the store first, the way a sparse file write
//! does; reads are bounded and never see past the current length.

use vstd::prelude::*;

verus! {

/// The failures the store layer and the directory layer surface to callers.
#[derive(Clone, Copy, PartialEq, Eq, Structural, Debug)]
pub enum StoreError {
    /// The directory store's byte length is not a whole number of records.
    CorruptDirectory,
    /// A content length or a target offset does not fit the 32-bit fields
    /// of the record layout.
    ContentTooLarge,
    /// A read asked for bytes past the end of the content store.
    OutOfBounds,
}

/// The bytes of a store after writing `data` at offset `off`: bytes of the
/// gap between the old end and `off`, if any, read as zero, and the store
/// grows exactly as far as the write reaches.
pub open spec fn write_bytes(s: Seq<u8>, off: int, data: Seq<u8>) -> Seq<u8>
    recommends
        0 <= off,
{
    let end = off + data.len();
    let new_len = if s.len() >= end {
        s.len() as int
    } else {
        end
    };
    Seq::new(new_len as nat, |i: int| if off <= i < end {
        data[i - off]
    } else if i < s.len() {
        s[i]
    } else {
        0u8
    })
}

/// An in-memory byte store with the operations of a read+write file:
/// read everything, read a range, write at an absolute offset, truncate.
pub struct Database {
    bytes: Vec<u8>,
}

impl View for Database {
    type V = Seq<u8>;

    closed spec fn view(&self) -> Seq<u8> {
        self.bytes@
    }
}

impl Database {
    /// A fresh, empty store.
    pub fn new() -> (db: Database)
        ensures
            db@ == Seq::<u8>::empty(),
    {
        Database { bytes: Vec::new() }
    }

    /// Truncates the store to zero length, discarding all content.
    pub fn clear_database(&mut self)
        ensures
            final(self)@ == Seq::<u8>::empty(),
    {
        self.bytes.clear();
    }

    /// The store's current length in bytes.
    pub fn len(&self) -> (n: u64)
        ensures
            n == self@.len(),
    {
        self.bytes.len() as u64
    }

    /// The store's entire contents from offset zero.
    pub fn get_all_bytes(&self) -> (r: Vec<u8>)
        ensures
            r@ == self@,
    {
        self.bytes.clone()
    }

    /// Reads exactly `length` bytes starting at `offset`; fails when the
    /// requested range reaches past the end of the store.
    pub fn read_at(&self, offset: u32, length: u32) -> (r: Result<Vec<u8>, StoreError>)
        ensures
            offset + length <= self@.len() ==> (r matches Ok(v) && v@ == self@.subrange(
                offset as int,
                offset as int + length as int,
            )),
            offset + length > self@.len() ==> r == Err::<Vec<u8>, StoreError>(
                StoreError::OutOfBounds,
            ),
    {
        if (offset as u64) + (length as u64) > self.bytes.len() as u64 {
            return Err(StoreError::OutOfBounds);
        }
        let off = offset as usize;
        let n = length as usize;
        let total = self.bytes.len();
        let mut out: Vec<u8> = Vec::new();
        let mut i: usize = 0;
        while i < n
            invariant
                0 <= i <= n,
                off + n <= total,
                total == self.bytes@.len(),
                out@ == self@.subrange(off as int, off as int + i as int),
            decreases n - i,
        {
            out.push(self.bytes[off + i]);
            proof {
                assert(out@ =~= self@.subrange(off as int, off as int + (i + 1) as int));
            }
            i = i + 1;
        }
        Ok(out)
    }

    /// Writes `bytes` at `offset`, zero-extending the store when the offset
    /// lies beyond the current end, and growing it exactly as far as the
    /// write reaches.
    pub fn write_at(&mut self, offset: u32, bytes: Vec<u8>)
        requires
            offset + bytes@.len() <= u32::MAX,
        ensures
            final(self)@ == write_bytes(old(self)@, offset as int, bytes@),
    {
        let ghost target = write_bytes(old(self)@, offset as int, bytes@);
        let off = offset as usize;
        let end = off + bytes.len();
        let n = if self.bytes.len() >= end {
            self.bytes.len()
        } else {
            end
        };
        let mut out: Vec<u8> = Vec::new();
        let mut i: usize = 0;
        while i < n
            invariant
                0 <= i <= n,
                end == off + bytes@.len(),
                n == if old(self)@.len() >= end {
                    old(self)@.len() as int
                } else {
                    end as int
                },
                self@ == old(self)@,
                target == write_bytes(old(self)@, off as int, bytes@),
                out@ == target.subrange(0, i as int),
            decreases n - i,
        {
            let b: u8 = if off <= i && i < end {
                bytes[i - off]
            } else if i < self.bytes.len() {
                self.bytes[i]
            } else {
                0u8
            };
            out.push(b);
            proof {
                assert(out@ =~= target.subrange(0, (i + 1) as int));
            }
            i = i + 1;
        }
        proof {
            assert(out@ =~= target);
        }
        self.bytes = out;
    }
}

} // verus!
