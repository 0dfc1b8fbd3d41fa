use vstd::prelude::*;

use crate::fragment::{Extent, SeekError, SeekPos, offset_by, min_nat};

verus! {

/// A window `[offset, offset + length)` of a backing medium, seen as a
/// stream of its own with positions `[0, length)`.
pub struct SectionFile {
    offset: u64,
    length: u64,
    pos: u64,
}

/// Bytes left in a window of `length` bytes at position `pos`.
pub open spec fn left_in(length: nat, pos: nat) -> nat {
    if pos >= length {
        0
    } else {
        (length - pos) as nat
    }
}

/// Bytes that a backing of `blen` bytes holds from `at` on.
pub open spec fn in_backing(blen: nat, at: nat) -> nat {
    if at >= blen {
        0
    } else {
        (blen - at) as nat
    }
}

/// Result of a seek inside a window of `length` bytes at `offset`, from
/// position `cur`. The target is not held to the window.
pub open spec fn section_seek_result(offset: int, length: int, cur: int, to: SeekPos) -> Result<
    u64,
    SeekError,
> {
    let target: int = match to {
        SeekPos::Start(p) => p as int,
        SeekPos::Current(d) => cur + d,
        SeekPos::End(d) => length + d,
    };
    if target < 0 || offset + target > u64::MAX {
        Err(SeekError::Invalid)
    } else {
        Ok(target as u64)
    }
}

impl SectionFile {
    pub closed spec fn offset_view(&self) -> nat {
        self.offset as nat
    }

    pub closed spec fn length_view(&self) -> nat {
        self.length as nat
    }

    pub closed spec fn pos_view(&self) -> nat {
        self.pos as nat
    }

    pub closed spec fn wf(&self) -> bool {
        &&& self.offset + self.length <= u64::MAX
        &&& self.offset + self.pos <= u64::MAX
    }

    /// The window of `length` bytes at `offset`; none where its end does not
    /// fit in 64 bits.
    pub fn new(offset: u64, length: u64) -> (r: Option<SectionFile>)
        ensures
            r is Some <==> offset + length <= u64::MAX,
            r matches Some(s) ==> s.wf() && s.offset_view() == offset && s.length_view() == length
                && s.pos_view() == 0,
    {
        if offset > u64::MAX - length {
            None
        } else {
            Some(SectionFile { offset, length, pos: 0 })
        }
    }

    /// The window that `extent` covers for blocks of `block_size` bytes.
    pub fn new_from_extent(extent: &Extent, block_size: u64) -> (r: Option<SectionFile>)
        ensures
            r is Some <==> (extent.start_block * block_size + extent.num_blocks * block_size
                <= u64::MAX),
            r matches Some(s) ==> s.wf() && s.offset_view() == extent.start_block * block_size
                && s.length_view() == extent.num_blocks * block_size && s.pos_view() == 0,
    {
        proof {
            if extent.start_block * block_size + extent.num_blocks * block_size <= u64::MAX {
                assert(extent.start_block * block_size <= u64::MAX) by (nonlinear_arith)
                    requires
                        extent.start_block * block_size + extent.num_blocks * block_size
                            <= u64::MAX,
                        extent.num_blocks * block_size >= 0,
                ;
            }
        }
        let offset = match extent.start_block.checked_mul(block_size) {
            Some(o) => o,
            None => return None,
        };
        let length = match extent.num_blocks.checked_mul(block_size) {
            Some(l) => l,
            None => return None,
        };
        SectionFile::new(offset, length)
    }

    /// Position inside the window.
    pub fn pos(&self) -> (r: u64)
        ensures
            r == self.pos_view(),
    {
        self.pos
    }

    /// Length of the window.
    pub fn len(&self) -> (r: u64)
        ensures
            r == self.length_view(),
    {
        self.length
    }

    /// Physical offset under the cursor.
    pub fn inner_pos(&self) -> (r: u64)
        requires
            self.wf(),
        ensures
            r == self.offset_view() + self.pos_view(),
    {
        self.offset + self.pos
    }

    /// Moves to a position given from the start, the current position or the
    /// end of the window.
    pub fn seek(&mut self, to: SeekPos) -> (r: Result<u64, SeekError>)
        requires
            old(self).wf(),
        ensures
            final(self).wf(),
            final(self).offset_view() == old(self).offset_view(),
            final(self).length_view() == old(self).length_view(),
            r == section_seek_result(
                old(self).offset_view() as int,
                old(self).length_view() as int,
                old(self).pos_view() as int,
                to,
            ),
            r matches Ok(p) ==> final(self).pos_view() == p,
            r is Err ==> final(self).pos_view() == old(self).pos_view(),
    {
        let target: u64 = match to {
            SeekPos::Start(p) => p,
            SeekPos::Current(d) => match offset_by(self.pos, d) {
                Some(p) => p,
                None => return Err(SeekError::Invalid),
            },
            SeekPos::End(d) => match offset_by(self.length, d) {
                Some(p) => p,
                None => return Err(SeekError::Invalid),
            },
        };
        if target > u64::MAX - self.offset {
            return Err(SeekError::Invalid);
        }
        self.pos = target;
        Ok(target)
    }

    /// The physical run that the next transfer of at most `max` bytes uses.
    pub fn span(&self, max: usize) -> (r: (u64, usize))
        requires
            self.wf(),
        ensures
            r.0 == self.offset_view() + self.pos_view(),
            r.1 == min_nat(max as nat, left_in(self.length_view(), self.pos_view())),
    {
        let left: u64 = if self.pos >= self.length {
            0
        } else {
            self.length - self.pos
        };
        let len: usize = if (max as u64) < left {
            max
        } else {
            left as usize
        };
        (self.offset + self.pos, len)
    }

    /// Moves the cursor `n` bytes on inside the window.
    pub fn advance(&mut self, n: usize)
        requires
            old(self).wf(),
            n <= left_in(old(self).length_view(), old(self).pos_view()),
        ensures
            final(self).wf(),
            final(self).offset_view() == old(self).offset_view(),
            final(self).length_view() == old(self).length_view(),
            final(self).pos_view() == old(self).pos_view() + n,
    {
        self.pos = self.pos + n as u64;
    }

    /// Reads from `backing` into `buf`, never past the window nor past the
    /// end of the backing; returns the count read, 0 at the end of the window.
    pub fn read(&mut self, backing: &Vec<u8>, buf: &mut Vec<u8>) -> (n: usize)
        requires
            old(self).wf(),
        ensures
            final(self).wf(),
            final(self).offset_view() == old(self).offset_view(),
            final(self).length_view() == old(self).length_view(),
            n == min_nat(
                min_nat(old(buf)@.len(), left_in(old(self).length_view(), old(self).pos_view())),
                in_backing(backing@.len(), old(self).offset_view() + old(self).pos_view()),
            ),
            final(self).pos_view() == old(self).pos_view() + n,
            final(buf)@.len() == old(buf)@.len(),
            forall|k: int|
                0 <= k < n ==> #[trigger] final(buf)@[k] == backing@[old(self).offset_view()
                    + old(self).pos_view() + k],
            forall|k: int| n <= k < old(buf)@.len() ==> #[trigger] final(buf)@[k] == old(buf)@[k],
    {
        let (phys, want) = self.span(buf.len());
        let limit = buf.len();
        let blen = backing.len();
        let avail: u64 = if phys >= blen as u64 {
            0
        } else {
            blen as u64 - phys
        };
        let len: usize = if (want as u64) <= avail {
            want
        } else {
            avail as usize
        };
        let mut j: usize = 0;
        while j < len
            invariant
                j <= len <= limit,
                limit == buf@.len(),
                buf@.len() == old(buf)@.len(),
                blen == backing@.len(),
                len == 0 || phys + len <= blen,
                phys == self.offset + self.pos,
                forall|k: int| 0 <= k < j ==> #[trigger] buf@[k] == backing@[phys + k],
                forall|k: int| j <= k < buf@.len() ==> #[trigger] buf@[k] == old(buf)@[k],
            decreases len - j,
        {
            buf.set(j, backing[(phys + j as u64) as usize]);
            j = j + 1;
        }
        self.advance(len);
        len
    }

    /// Writes `data` into `backing`, cut at the end of the window and at the
    /// end of the backing; returns the count written. Nothing outside the
    /// window changes.
    pub fn write(&mut self, backing: &mut Vec<u8>, data: &[u8]) -> (n: usize)
        requires
            old(self).wf(),
        ensures
            final(self).wf(),
            final(self).offset_view() == old(self).offset_view(),
            final(self).length_view() == old(self).length_view(),
            n == min_nat(
                min_nat(data@.len(), left_in(old(self).length_view(), old(self).pos_view())),
                in_backing(old(backing)@.len(), old(self).offset_view() + old(self).pos_view()),
            ),
            final(self).pos_view() == old(self).pos_view() + n,
            final(backing)@.len() == old(backing)@.len(),
            forall|i: int|
                0 <= i < old(backing)@.len() ==> #[trigger] final(backing)@[i] == if old(
                    self,
                ).offset_view() + old(self).pos_view() <= i < old(self).offset_view() + old(
                    self,
                ).pos_view() + n {
                    data@[i - old(self).offset_view() - old(self).pos_view()]
                } else {
                    old(backing)@[i]
                },
    {
        let (phys, want) = self.span(data.len());
        let limit = data.len();
        let blen = backing.len();
        let avail: u64 = if phys >= blen as u64 {
            0
        } else {
            blen as u64 - phys
        };
        let len: usize = if (want as u64) <= avail {
            want
        } else {
            avail as usize
        };
        let mut j: usize = 0;
        while j < len
            invariant
                j <= len <= limit,
                limit == data@.len(),
                backing@.len() == old(backing)@.len(),
                blen == backing@.len(),
                len == 0 || phys + len <= blen,
                phys == self.offset + self.pos,
                forall|i: int|
                    0 <= i < backing@.len() ==> #[trigger] backing@[i] == if phys <= i < phys + j {
                        data@[i - phys]
                    } else {
                        old(backing)@[i]
                    },
            decreases len - j,
        {
            backing.set((phys + j as u64) as usize, data[j]);
            j = j + 1;
        }
        self.advance(len);
        len
    }
}

} // verus!
