//! Fixed-size pages of bytes.

use vstd::prelude::*;

verus! {

/// Size of a page in bytes.
pub const PAGE_SIZE: usize = 4096;

/// A page: its number, its bytes, and whether it was written since it was made.
pub struct Page {
    pub id: u32,
    pub data: Vec<u8>,
    pub is_dirty: bool,
}

/// `old` with the bytes from `offset` on replaced by `bytes`.
pub open spec fn overwritten(old: Seq<u8>, offset: int, bytes: Seq<u8>) -> Seq<u8> {
    old.subrange(0, offset) + bytes + old.subrange(offset + bytes.len(), old.len() as int)
}

impl Page {
    /// A clean page of `PAGE_SIZE` zero bytes.
    pub fn new(id: u32) -> (p: Self)
        ensures
            p.id == id,
            p.data@ == Seq::new(PAGE_SIZE as nat, |i: int| 0u8),
            !p.is_dirty,
    {
        let mut data: Vec<u8> = Vec::new();
        let mut i: usize = 0;
        while i < PAGE_SIZE
            invariant
                i <= PAGE_SIZE,
                data@ == Seq::new(i as nat, |j: int| 0u8),
            decreases PAGE_SIZE - i,
        {
            data.push(0u8);
            i = i + 1;
        }
        Page { id, data, is_dirty: false }
    }

    /// Copies `bytes` into the page from `offset` on and marks the page dirty.
    pub fn write(&mut self, offset: usize, bytes: &[u8])
        requires
            offset + bytes@.len() <= old(self).data.len(),
        ensures
            final(self).id == old(self).id,
            final(self).data@ == overwritten(old(self).data@, offset as int, bytes@),
            final(self).is_dirty,
    {
        let n = bytes.len();
        let mut i: usize = 0;
        while i < n
            invariant
                n == bytes@.len(),
                i <= n,
                offset + n <= old(self).data.len(),
                self.data.len() == old(self).data.len(),
                self.id == old(self).id,
                self.data@.len() == old(self).data@.len(),
                forall|j: int| 0 <= j < offset ==> #[trigger] self.data@[j] == old(self).data@[j],
                forall|j: int|
                    offset + n <= j < self.data@.len() ==> #[trigger] self.data@[j] == old(
                        self,
                    ).data@[j],
                forall|j: int| 0 <= j < i ==> #[trigger] self.data@[offset + j] == bytes@[j],
            decreases n - i,
        {
            self.data.set(offset + i, bytes[i]);
            i = i + 1;
        }
        self.is_dirty = true;
        proof {
            let o = offset as int;
            let want = overwritten(old(self).data@, o, bytes@);
            assert forall|j: int| 0 <= j < want.len() implies #[trigger] want[j] == self.data@[j] by {
                if j >= o && j < o + n {
                    assert(self.data@[o + (j - o)] == bytes@[j - o]);
                }
            }
            assert(self.data@ =~= want);
        }
    }

    /// The `len` bytes from `offset` on.
    pub fn read(&self, offset: usize, len: usize) -> (r: &[u8])
        requires
            offset + len <= self.data.len(),
        ensures
            r@ == self.data@.subrange(offset as int, offset + len),
    {
        vstd::slice::slice_subrange(self.data.as_slice(), offset, offset + len)
    }
}

/// Read after write: reading back the bytes just written gives them, and the bytes outside
/// the written range are what they were.
pub proof fn law_read_after_write(old: Seq<u8>, offset: int, bytes: Seq<u8>)
    requires
        0 <= offset,
        offset + bytes.len() <= old.len(),
    ensures
        overwritten(old, offset, bytes).len() == old.len(),
        overwritten(old, offset, bytes).subrange(offset, offset + bytes.len()) == bytes,
        forall|j: int|
            0 <= j < old.len() && !(offset <= j < offset + bytes.len()) ==> #[trigger] overwritten(
                old,
                offset,
                bytes,
            )[j] == old[j],
{
    let w = overwritten(old, offset, bytes);
    assert(w.subrange(offset, offset + bytes.len()) =~= bytes);
}

} // verus!
