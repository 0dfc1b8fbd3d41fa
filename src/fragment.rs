use vstd::prelude::*;

verus! {

/// A manifest extent: a run of `num_blocks` blocks starting at `start_block`.
#[derive(Debug, Clone, Copy, PartialEq, Eq)]
pub struct Extent {
    pub start_block: u64,
    pub num_blocks: u64,
}

/// One physical byte range of the backing medium.
#[derive(Debug, Clone, Copy, PartialEq, Eq)]
pub struct Fragment {
    pub offset: u64,
    pub size: u64,
}

/// Why a fragment list cannot be mapped.
#[derive(Debug, Clone, Copy, PartialEq, Eq)]
pub enum FragmentError {
    /// The list holds no fragment.
    Empty,
    /// A physical end or the total logical size does not fit in 64 bits.
    Overflow,
}

/// Why a seek was refused; the position is left where it was.
#[derive(Debug, Clone, Copy, PartialEq, Eq)]
pub enum SeekError {
    /// The target is negative or does not fit in 64 bits.
    Invalid,
    /// The target lies past the end of the logical space.
    OutOfRange,
}

/// A seek request, relative to the start, the current position or the end.
#[derive(Debug, Clone, Copy, PartialEq, Eq)]
pub enum SeekPos {
    Start(u64),
    Current(i64),
    End(i64),
}

/// Logical size of a fragment list: the sum of the sizes.
pub open spec fn total(frags: Seq<Fragment>) -> nat
    decreases frags.len(),
{
    if frags.len() == 0 {
        0
    } else {
        (total(frags.drop_last()) + frags.last().size) as nat
    }
}

/// Logical start of fragment `i`: the sizes of those before it.
pub open spec fn start_of(frags: Seq<Fragment>, i: int) -> nat {
    total(frags.take(i))
}

/// Physical offset that logical position `p` maps to: the last fragment whose
/// logical start is at most `p`, at the matching distance from its offset.
pub open spec fn phys_of(frags: Seq<Fragment>, p: int) -> int
    decreases frags.len(),
{
    if frags.len() == 0 {
        0
    } else if p >= total(frags.drop_last()) {
        frags.last().offset + (p - total(frags.drop_last()))
    } else {
        phys_of(frags.drop_last(), p)
    }
}

/// The backing medium after `data` is stored, byte after byte, from logical
/// position `pos` on.
pub open spec fn written(b: Seq<u8>, frags: Seq<Fragment>, pos: int, data: Seq<u8>) -> Seq<u8>
    decreases data.len(),
{
    if data.len() == 0 {
        b
    } else {
        written(b, frags, pos, data.drop_last()).update(
            phys_of(frags, pos + data.len() - 1),
            data.last(),
        )
    }
}

/// The end of the furthest fragment.
pub open spec fn max_end(frags: Seq<Fragment>) -> nat
    decreases frags.len(),
{
    if frags.len() == 0 {
        0
    } else {
        let m = max_end(frags.drop_last());
        let e = frags.last().offset + frags.last().size;
        if e > m {
            e as nat
        } else {
            m
        }
    }
}

/// Every fragment lies inside a medium of `len` bytes.
pub open spec fn fits_in(frags: Seq<Fragment>, len: nat) -> bool {
    forall|i: int| 0 <= i < frags.len() ==> frags[i].offset + frags[i].size <= len
}

/// Sum of a sequence of byte counts.
pub open spec fn sum_of(counts: Seq<nat>) -> nat
    decreases counts.len(),
{
    if counts.len() == 0 {
        0
    } else {
        sum_of(counts.drop_last()) + counts.last()
    }
}

pub open spec fn min_nat(a: nat, b: nat) -> nat {
    if a <= b { a } else { b }
}

pub proof fn lemma_total_take_step(frags: Seq<Fragment>, i: int)
    requires
        0 <= i < frags.len(),
    ensures
        total(frags.take(i + 1)) == total(frags.take(i)) + frags[i].size,
{
    assert(frags.take(i + 1).drop_last() =~= frags.take(i));
}

pub proof fn lemma_total_take_mono(frags: Seq<Fragment>, i: int, j: int)
    requires
        0 <= i <= j <= frags.len(),
    ensures
        total(frags.take(i)) <= total(frags.take(j)),
    decreases j - i,
{
    if i < j {
        lemma_total_take_step(frags, j - 1);
        lemma_total_take_mono(frags, i, j - 1);
    }
}

pub proof fn lemma_total_take_all(frags: Seq<Fragment>)
    ensures
        total(frags.take(frags.len() as int)) == total(frags),
{
    assert(frags.take(frags.len() as int) =~= frags);
}

/// A logical position inside fragment `i` maps into fragment `i`.
pub proof fn lemma_phys_in_fragment(frags: Seq<Fragment>, i: int, p: int)
    requires
        0 <= i < frags.len(),
        start_of(frags, i) <= p < start_of(frags, i) + frags[i].size,
    ensures
        phys_of(frags, p) == frags[i].offset + (p - start_of(frags, i)),
    decreases frags.len(),
{
    let pre = frags.drop_last();
    let n = frags.len() - 1;
    assert(frags.take(n) =~= pre);
    if i < n {
        lemma_total_take_step(frags, i);
        lemma_total_take_mono(frags, i + 1, n);
        assert(pre.take(i) =~= frags.take(i));
        lemma_phys_in_fragment(pre, i, p);
    }
}

/// No two non-empty fragments share a physical byte.
pub open spec fn disjoint(frags: Seq<Fragment>) -> bool {
    forall|i: int, j: int|
        0 <= i < frags.len() && 0 <= j < frags.len() && i != j ==> #[trigger] frags[i].offset
            + frags[i].size <= #[trigger] frags[j].offset || frags[j].offset + frags[j].size
            <= frags[i].offset
}

/// Every logical position below the total lies in some fragment.
pub proof fn lemma_containing(frags: Seq<Fragment>, p: int) -> (i: int)
    requires
        0 <= p < total(frags),
    ensures
        0 <= i < frags.len(),
        start_of(frags, i) <= p < start_of(frags, i) + frags[i].size,
    decreases frags.len(),
{
    let pre = frags.drop_last();
    let n = frags.len() - 1;
    assert(frags.take(n) =~= pre);
    if p >= total(pre) {
        n
    } else {
        let i = lemma_containing(pre, p);
        assert(pre.take(i) =~= frags.take(i));
        i
    }
}

pub proof fn lemma_max_end_bound(frags: Seq<Fragment>, i: int)
    requires
        0 <= i < frags.len(),
    ensures
        frags[i].offset + frags[i].size <= max_end(frags),
    decreases frags.len(),
{
    if i < frags.len() - 1 {
        lemma_max_end_bound(frags.drop_last(), i);
    }
}

/// A logical position below the total maps inside the furthest end.
pub proof fn lemma_phys_below_end(frags: Seq<Fragment>, p: int)
    requires
        0 <= p < total(frags),
    ensures
        0 <= phys_of(frags, p) < max_end(frags),
{
    let i = lemma_containing(frags, p);
    lemma_phys_in_fragment(frags, i, p);
    lemma_max_end_bound(frags, i);
}

/// Over disjoint fragments, distinct logical positions map to distinct
/// physical ones.
pub proof fn lemma_phys_injective(frags: Seq<Fragment>, p: int, q: int)
    requires
        disjoint(frags),
        0 <= p < total(frags),
        0 <= q < total(frags),
        p != q,
    ensures
        phys_of(frags, p) != phys_of(frags, q),
{
    let i = lemma_containing(frags, p);
    let j = lemma_containing(frags, q);
    lemma_phys_in_fragment(frags, i, p);
    lemma_phys_in_fragment(frags, j, q);
}

/// After `data` is written from position 0, the byte that logical position
/// `k` maps to holds `data[k]`, unless a later byte that maps to the same
/// place differs.
pub proof fn lemma_written_at(b: Seq<u8>, frags: Seq<Fragment>, data: Seq<u8>, k: int)
    requires
        0 <= k < data.len(),
        data.len() <= total(frags),
        max_end(frags) <= b.len(),
        forall|j: int|
            k < j < data.len() ==> #[trigger] phys_of(frags, j) != phys_of(frags, k) || data[j]
                == data[k],
    ensures
        written(b, frags, 0, data).len() == b.len(),
        written(b, frags, 0, data)[phys_of(frags, k)] == data[k],
    decreases data.len(),
{
    let n = data.len() - 1;
    let pre = data.drop_last();
    lemma_written_len(b, frags, pre);
    lemma_phys_below_end(frags, n);
    lemma_phys_below_end(frags, k);
    if k < n {
        assert forall|j: int| k < j < pre.len() implies #[trigger] phys_of(frags, j) != phys_of(frags, k) || pre[j] == pre[k] by {
            assert(pre[j] == data[j]);
        }
        lemma_written_at(b, frags, pre, k);
    }
}

pub proof fn lemma_written_len(b: Seq<u8>, frags: Seq<Fragment>, data: Seq<u8>)
    requires
        data.len() <= total(frags),
        max_end(frags) <= b.len(),
    ensures
        written(b, frags, 0, data).len() == b.len(),
    decreases data.len(),
{
    if data.len() > 0 {
        lemma_written_len(b, frags, data.drop_last());
        lemma_phys_below_end(frags, data.len() - 1);
    }
}

struct FragmentNode {
    offset: u64,
    size: u64,
    start_pos: u64,
}

/// One transfer, as `read` and `write` state it: the same fragments, and the
/// position moved on by the count returned.
pub open spec fn transfer_step(before: FragmentFile, after: FragmentFile, n: nat) -> bool {
    &&& after.frags() == before.frags()
    &&& after.pos_view() == before.pos_view() + n
}

proof fn lemma_pos_sums_counts(states: Seq<FragmentFile>, counts: Seq<nat>)
    requires
        states.len() == counts.len() + 1,
        forall|i: int| 0 <= i < counts.len() ==> transfer_step(#[trigger] states[i], states[i + 1], counts[i]),
    ensures
        states.last().pos_view() == states[0].pos_view() + sum_of(counts),
        states.last().frags() == states[0].frags(),
    decreases counts.len(),
{
    if counts.len() > 0 {
        let k = counts.len() - 1;
        lemma_pos_sums_counts(states.drop_last(), counts.drop_last());
        assert(transfer_step(states[k], states[k + 1], counts[k]));
    }
}

/// Over any run of reads and writes on a file opened at position 0, each
/// moving the position on by the count it returned, the counts add up to the
/// total size once the end is reached.
pub proof fn lemma_transfers_reach_size(states: Seq<FragmentFile>, counts: Seq<nat>)
    requires
        states.len() == counts.len() + 1,
        states[0].pos_view() == 0,
        forall|i: int| 0 <= i < counts.len() ==> transfer_step(#[trigger] states[i], states[i + 1], counts[i]),
        states.last().pos_view() == total(states.last().frags()),
    ensures
        sum_of(counts) == total(states[0].frags()),
{
    lemma_pos_sums_counts(states, counts);
}

/// A cursor over an ordered fragment set: one contiguous logical space
/// `[0, size)` laid over physically scattered byte ranges.
pub struct FragmentFile {
    fragments: Vec<FragmentNode>,
    index: usize,
    fragment_pos: u64,
    size: u64,
}

impl FragmentFile {
    /// The fragments, in the order in which they were given.
    pub closed spec fn frags(&self) -> Seq<Fragment> {
        self.fragments@.map_values(|n: FragmentNode| Fragment { offset: n.offset, size: n.size })
    }

    /// Logical position: the end once all fragments are passed.
    pub closed spec fn pos_view(&self) -> nat {
        if self.index >= self.fragments.len() {
            self.size as nat
        } else {
            (self.fragments@[self.index as int].start_pos + self.fragment_pos) as nat
        }
    }

    /// Index of the current fragment (the count of fragments once at the end).
    pub closed spec fn index_view(&self) -> nat {
        self.index as nat
    }

    pub closed spec fn wf(&self) -> bool {
        &&& self.fragments.len() > 0
        &&& forall|i: int|
            0 <= i < self.fragments.len() ==> #[trigger] self.fragments@[i].start_pos
                == start_of(self.frags(), i)
        &&& forall|i: int|
            0 <= i < self.fragments.len() ==> self.fragments@[i].offset
                + #[trigger] self.fragments@[i].size <= u64::MAX
        &&& self.size == total(self.frags())
        &&& self.index <= self.fragments.len()
        &&& self.index < self.fragments.len() ==> self.fragment_pos
            <= self.fragments@[self.index as int].size
    }

    /// Maps `fragments`, in order, onto one logical space.
    pub fn new(fragments: &[Fragment]) -> (r: Result<FragmentFile, FragmentError>)
        ensures
            fragments@.len() == 0 ==> r == Err::<FragmentFile, FragmentError>(FragmentError::Empty),
            fragments@.len() > 0 ==> (r is Ok <==> (total(fragments@) <= u64::MAX && forall|i: int|
                0 <= i < fragments@.len() ==> fragments@[i].offset + fragments@[i].size
                    <= u64::MAX)),
            r is Err && fragments@.len() > 0 ==> r == Err::<FragmentFile, FragmentError>(
                FragmentError::Overflow,
            ),
            r matches Ok(f) ==> f.wf() && f.frags() == fragments@ && f.pos_view() == 0
                && f.index_view() == 0,
    {
        if fragments.len() == 0 {
            return Err(FragmentError::Empty);
        }
        let mut nodes: Vec<FragmentNode> = Vec::new();
        let mut acc: u64 = 0;
        let mut i: usize = 0;
        while i < fragments.len()
            invariant
                i <= fragments@.len(),
                nodes@.len() == i,
                acc == total(fragments@.take(i as int)),
                forall|k: int| 0 <= k < i ==> #[trigger] nodes@[k].offset == fragments@[k].offset,
                forall|k: int| 0 <= k < i ==> #[trigger] nodes@[k].size == fragments@[k].size,
                forall|k: int|
                    0 <= k < i ==> #[trigger] nodes@[k].start_pos == start_of(fragments@, k),
                forall|k: int|
                    0 <= k < i ==> fragments@[k].offset + #[trigger] fragments@[k].size
                        <= u64::MAX,
            decreases fragments@.len() - i,
        {
            let f = fragments[i];
            proof {
                lemma_total_take_step(fragments@, i as int);
            }
            if f.offset > u64::MAX - f.size || acc > u64::MAX - f.size {
                proof {
                    if acc > u64::MAX - f.size {
                        lemma_total_take_mono(fragments@, i + 1, fragments@.len() as int);
                        lemma_total_take_all(fragments@);
                    }
                }
                return Err(FragmentError::Overflow);
            }
            nodes.push(FragmentNode { offset: f.offset, size: f.size, start_pos: acc });
            acc = acc + f.size;
            i = i + 1;
        }
        proof {
            lemma_total_take_all(fragments@);
        }
        let r = FragmentFile { fragments: nodes, index: 0, fragment_pos: 0, size: acc };
        assert(r.frags() =~= fragments@);
        assert(r.fragments@[0].start_pos == 0) by {
            assert(fragments@.take(0) =~= Seq::<Fragment>::empty());
        }
        Ok(r)
    }

    /// Maps the extents, each scaled by `block_size`, onto one logical space.
    pub fn new_from_extents(extents: &[Extent], block_size: u64) -> (r: Result<FragmentFile, FragmentError>)
        ensures
            extents@.len() == 0 ==> r == Err::<FragmentFile, FragmentError>(FragmentError::Empty),
            r matches Ok(f) ==> f.wf() && f.pos_view() == 0 && f.index_view() == 0
                && f.frags().len() == extents@.len() && forall|i: int|
                0 <= i < extents@.len() ==> #[trigger] f.frags()[i] == (Fragment {
                    offset: (extents@[i].start_block * block_size) as u64,
                    size: (extents@[i].num_blocks * block_size) as u64,
                }),
            r is Ok <==> extents_map(extents@, block_size),
    {
        let mut frags: Vec<Fragment> = Vec::new();
        let mut i: usize = 0;
        while i < extents.len()
            invariant
                i <= extents@.len(),
                frags@ =~= extents_to_fragments(extents@, block_size).take(i as int),
                forall|k: int|
                    0 <= k < i ==> extents@[k].start_block * block_size <= u64::MAX
                        && extents@[k].num_blocks * block_size <= u64::MAX,
            decreases extents@.len() - i,
        {
            match Fragment::from_extent(&extents[i], block_size) {
                Some(f) => frags.push(f),
                None => return Err(FragmentError::Overflow),
            }
            i = i + 1;
        }
        assert(frags@ =~= extents_to_fragments(extents@, block_size));
        FragmentFile::new(frags.as_slice())
    }

    /// Logical size: the sum of the fragment sizes.
    pub fn size(&self) -> (r: u64)
        requires
            self.wf(),
        ensures
            r == total(self.frags()),
    {
        self.size
    }

    /// The end of the furthest fragment: the medium size that all of them need.
    pub fn max_end(&self) -> (r: u64)
        requires
            self.wf(),
        ensures
            r == max_end(self.frags()),
            fits_in(self.frags(), r as nat),
    {
        let ghost fs = self.frags();
        let mut acc: u64 = 0;
        let mut i: usize = 0;
        proof {
            assert(fs.take(0) =~= Seq::<Fragment>::empty());
        }
        while i < self.fragments.len()
            invariant
                self.wf(),
                fs == self.frags(),
                i <= fs.len(),
                acc == max_end(fs.take(i as int)),
                fits_in(fs.take(i as int), acc as nat),
            decreases fs.len() - i,
        {
            let e = self.fragments[i].offset + self.fragments[i].size;
            proof {
                assert(fs.take(i + 1).drop_last() =~= fs.take(i as int));
                assert(fs[i as int].size == self.fragments@[i as int].size);
                assert(fs[i as int].offset == self.fragments@[i as int].offset);
            }
            if e > acc {
                acc = e;
            }
            proof {
                assert forall|k: int| 0 <= k < i + 1 implies fs.take(i + 1)[k].offset + #[trigger] fs.take(i + 1)[k].size <= acc by {
                    if k < i {
                        assert(fs.take(i + 1)[k] == fs.take(i as int)[k]);
                    }
                }
            }
            i = i + 1;
        }
        proof {
            assert(fs.take(fs.len() as int) =~= fs);
        }
        acc
    }

    /// The cursor has passed the last fragment.
    pub fn eof(&self) -> (r: bool)
        requires
            self.wf(),
        ensures
            r == (self.index_view() >= self.frags().len()),
            r ==> self.pos_view() == total(self.frags()),
    {
        self.index >= self.fragments.len()
    }

    /// Bytes left in the current fragment; none at the end.
    fn fragment_remaining(&self) -> (r: u64)
        requires
            self.wf(),
        ensures
            self.index < self.fragments.len() ==> r == self.fragments@[self.index as int].size
                - self.fragment_pos,
            self.index >= self.fragments.len() ==> r == 0,
    {
        if self.eof() {
            return 0;
        }
        self.fragments[self.index].size - self.fragment_pos
    }

    /// Logical position of the cursor.
    pub fn pos(&self) -> (r: u64)
        requires
            self.wf(),
        ensures
            r == self.pos_view(),
            r <= total(self.frags()),
    {
        if self.eof() {
            return self.size;
        }
        proof {
            self.lemma_pos_in_range();
        }
        self.fragments[self.index].start_pos + self.fragment_pos
    }

    proof fn lemma_pos_in_range(&self)
        requires
            self.wf(),
            self.index < self.fragments.len(),
        ensures
            self.fragments@[self.index as int].start_pos + self.fragments@[self.index as int].size
                <= total(self.frags()),
    {
        let fs = self.frags();
        let i = self.index as int;
        assert(fs[i].size == self.fragments@[i].size);
        lemma_total_take_step(fs, i);
        lemma_total_take_mono(fs, i + 1, fs.len() as int);
        lemma_total_take_all(fs);
    }

    proof fn lemma_pos_le_total(&self)
        requires
            self.wf(),
        ensures
            self.pos_view() <= total(self.frags()),
    {
        if self.index < self.fragments.len() {
            self.lemma_pos_in_range();
        }
    }

    /// Physical offset under the cursor, where the medium must be positioned.
    pub fn inner_pos(&self) -> (r: u64)
        requires
            self.wf(),
            self.index_view() < self.frags().len(),
        ensures
            r == self.frags()[self.index_view() as int].offset + (self.pos_view() - start_of(
                self.frags(),
                self.index_view() as int,
            )),
    {
        proof {
            let i = self.index as int;
            assert(self.frags()[i].offset == self.fragments@[i].offset);
        }
        self.fragments[self.index].offset + self.fragment_pos
    }

    proof fn lemma_cursor_phys(&self, k: int)
        requires
            self.wf(),
            self.index < self.fragments.len(),
            0 <= k < self.fragments@[self.index as int].size - self.fragment_pos,
        ensures
            phys_of(self.frags(), self.pos_view() + k) == self.fragments@[self.index as int].offset
                + self.fragment_pos + k,
    {
        let i = self.index as int;
        let fs = self.frags();
        assert(fs[i].size == self.fragments@[i].size);
        assert(fs[i].offset == self.fragments@[i].offset);
        lemma_phys_in_fragment(fs, i, self.pos_view() + k);
    }

    /// The physical run that the next transfer of at most `max` bytes uses:
    /// its offset, and its length, cut at the end of the current fragment.
    pub fn span(&self, max: usize) -> (r: (u64, usize))
        requires
            self.wf(),
        ensures
            self.index_view() >= self.frags().len() ==> r.1 == 0,
            self.index_view() < self.frags().len() ==> r.1 == min_nat(
                max as nat,
                (self.frags()[self.index_view() as int].size - (self.pos_view() - start_of(
                    self.frags(),
                    self.index_view() as int,
                ))) as nat,
            ),
            self.index_view() < self.frags().len() ==> r.0 == self.frags()[self.index_view() as int].offset
                + (self.pos_view() - start_of(self.frags(), self.index_view() as int)),
            r.1 <= max,
            r.1 <= total(self.frags()) - self.pos_view(),
            forall|k: int|
                0 <= k < r.1 ==> #[trigger] phys_of(self.frags(), self.pos_view() + k) == r.0 + k,
            r.0 + r.1 <= u64::MAX,
    {
        if self.eof() {
            return (0, 0);
        }
        let rem = self.fragment_remaining();
        let len: usize = if (max as u64) < rem { max } else { rem as usize };
        proof {
            self.lemma_pos_in_range();
            let i = self.index as int;
            assert(self.frags()[i].size == self.fragments@[i].size);
            assert forall|k: int| 0 <= k < len implies #[trigger] phys_of(self.frags(), self.pos_view() + k)
                == self.fragments@[self.index as int].offset + self.fragment_pos + k by {
                self.lemma_cursor_phys(k);
            }
        }
        (self.fragments[self.index].offset + self.fragment_pos, len)
    }

    /// Moves the cursor `n` bytes on inside the current fragment, and past it
    /// once it is used up.
    pub fn advance(&mut self, n: usize)
        requires
            old(self).wf(),
            old(self).index_view() < old(self).frags().len(),
            n <= old(self).frags()[old(self).index_view() as int].size - (old(self).pos_view()
                - start_of(old(self).frags(), old(self).index_view() as int)),
        ensures
            final(self).wf(),
            final(self).frags() == old(self).frags(),
            final(self).pos_view() == old(self).pos_view() + n,
            final(self).index_view() >= old(self).index_view(),
            n == old(self).frags()[old(self).index_view() as int].size - (old(self).pos_view()
                - start_of(old(self).frags(), old(self).index_view() as int))
                ==> final(self).index_view() == old(self).index_view() + 1,
    {
        proof {
            self.lemma_pos_in_range();
            let i = self.index as int;
            assert(self.frags()[i].size == self.fragments@[i].size);
        }
        self.fragment_pos = self.fragment_pos + n as u64;
        if self.fragment_pos == self.fragments[self.index].size {
            proof {
                let i = self.index as int;
                lemma_total_take_step(self.frags(), i);
                if i + 1 == self.fragments.len() {
                    lemma_total_take_all(self.frags());
                } else {
                    assert(self.fragments@[i + 1].start_pos == start_of(self.frags(), i + 1));
                }
            }
            self.index = self.index + 1;
            self.fragment_pos = 0;
        }
    }

    /// Moves the cursor to a logical position. A target past the end is
    /// refused, as is one that is negative or does not fit in 64 bits.
    pub fn seek(&mut self, to: SeekPos) -> (r: Result<u64, SeekError>)
        requires
            old(self).wf(),
        ensures
            final(self).wf(),
            final(self).frags() == old(self).frags(),
            r == seek_result(old(self).pos_view() as int, total(old(self).frags()) as int, to),
            r matches Ok(p) ==> final(self).pos_view() == p,
            r is Err ==> final(self).pos_view() == old(self).pos_view(),
            r matches Ok(p) ==> p < total(old(self).frags()) ==> {
                let i = final(self).index_view() as int;
                &&& i < final(self).frags().len()
                &&& start_of(final(self).frags(), i) <= p < start_of(final(self).frags(), i)
                    + final(self).frags()[i].size
                &&& phys_of(final(self).frags(), p as int) == final(self).frags()[i].offset + (p
                    - start_of(final(self).frags(), i))
            },
    {
        let cur = self.pos();
        let target: u64 = match to {
            SeekPos::Start(p) => p,
            SeekPos::Current(d) => match offset_by(cur, d) {
                Some(p) => p,
                None => return Err(SeekError::Invalid),
            },
            SeekPos::End(d) => match offset_by(self.size, d) {
                Some(p) => p,
                None => return Err(SeekError::Invalid),
            },
        };
        if target > self.size {
            return Err(SeekError::OutOfRange);
        }
        if target == self.size {
            self.index = self.fragments.len();
            self.fragment_pos = 0;
            return Ok(target);
        }
        let mut idx: usize = 0;
        let mut k: usize = 1;
        while k < self.fragments.len() && self.fragments[k].start_pos <= target
            invariant
                self.wf(),
                1 <= k <= self.fragments.len(),
                idx == k - 1,
                self.fragments@[idx as int].start_pos <= target,
                target < self.size,
            decreases self.fragments.len() - k,
        {
            idx = k;
            k = k + 1;
        }
        proof {
            let fs = self.frags();
            let i = idx as int;
            assert(fs[i].size == self.fragments@[i].size);
            assert(fs[i].offset == self.fragments@[i].offset);
            lemma_total_take_step(fs, i);
            if k < self.fragments.len() {
                assert(self.fragments@[k as int].start_pos == start_of(fs, k as int));
            } else {
                lemma_total_take_all(fs);
            }
            assert(self.fragments@[0].start_pos == start_of(fs, 0));
            lemma_phys_in_fragment(fs, i, target as int);
        }
        self.fragment_pos = target - self.fragments[idx].start_pos;
        self.index = idx;
        Ok(target)
    }

    /// Reads from `backing` into `buf`, crossing fragment boundaries, until
    /// `buf` is full or the end is reached; returns the count read.
    pub fn read(&mut self, backing: &Vec<u8>, buf: &mut Vec<u8>) -> (n: usize)
        requires
            old(self).wf(),
            fits_in(old(self).frags(), backing@.len()),
        ensures
            final(self).wf(),
            final(self).frags() == old(self).frags(),
            n == min_nat(old(buf)@.len(), (total(old(self).frags()) - old(self).pos_view()) as nat),
            final(self).pos_view() == old(self).pos_view() + n,
            final(buf)@.len() == old(buf)@.len(),
            forall|k: int|
                0 <= k < n ==> #[trigger] final(buf)@[k] == backing@[phys_of(
                    old(self).frags(),
                    old(self).pos_view() + k,
                )],
            forall|k: int| n <= k < old(buf)@.len() ==> #[trigger] final(buf)@[k] == old(buf)@[k],
    {
        let ghost pos0 = self.pos_view();
        let ghost fs = self.frags();
        let mut done: usize = 0;
        proof {
            self.lemma_pos_le_total();
        }
        while done < buf.len() && !self.eof()
            invariant
                self.wf(),
                self.frags() == fs,
                fits_in(fs, backing@.len()),
                self.pos_view() == pos0 + done,
                done <= buf@.len(),
                buf@.len() == old(buf)@.len(),
                pos0 + done <= total(fs),
                forall|k: int|
                    0 <= k < done ==> #[trigger] buf@[k] == backing@[phys_of(fs, pos0 + k)],
                forall|k: int| done <= k < buf@.len() ==> #[trigger] buf@[k] == old(buf)@[k],
            decreases buf@.len() - done + fs.len() - self.index_view(),
        {
            let (phys, len) = self.span(buf.len() - done);
            proof {
                self.lemma_span_in_medium(phys, len, backing@.len());
            }
            let blen = backing.len();
            let limit = buf.len();
            let mut j: usize = 0;
            while j < len
                invariant
                    j <= len,
                    limit == buf@.len(),
                    blen == backing@.len(),
                    phys + len <= blen,
                    phys + len <= u64::MAX,
                    done + len <= limit,
                    buf@.len() == old(buf)@.len(),
                    phys + len <= backing@.len(),
                    forall|k: int|
                        0 <= k < done + j ==> #[trigger] buf@[k] == backing@[phys_of(fs, pos0 + k)],
                    forall|k: int| done + j <= k < buf@.len() ==> #[trigger] buf@[k] == old(buf)@[k],
                    forall|k: int|
                        0 <= k < len ==> #[trigger] phys_of(fs, pos0 + done + k) == phys + k,
                decreases len - j,
            {
                proof {
                    assert(phys_of(fs, pos0 + done + j) == phys + j);
                }
                buf.set(done + j, backing[(phys + j as u64) as usize]);
                j = j + 1;
            }
            self.advance(len);
            done = done + len;
        }
        done
    }

    proof fn lemma_span_in_medium(&self, phys: u64, len: usize, mlen: nat)
        requires
            self.wf(),
            fits_in(self.frags(), mlen),
            self.index_view() < self.frags().len() ==> phys == self.frags()[self.index_view() as int].offset
                + (self.pos_view() - start_of(self.frags(), self.index_view() as int)) && len <= self.frags()[self.index_view() as int].size
                - (self.pos_view() - start_of(self.frags(), self.index_view() as int)),
            self.index_view() >= self.frags().len() ==> len == 0,
        ensures
            len > 0 ==> phys + len <= mlen,
    {
        if self.index < self.fragments.len() {
            let i = self.index as int;
            assert(self.frags()[i].size == self.fragments@[i].size);
            assert(self.frags()[i].offset == self.fragments@[i].offset);
        }
    }

    /// Writes `data` into `backing`, crossing fragment boundaries, until all
    /// of it is written or the end is reached; returns the count written.
    pub fn write(&mut self, backing: &mut Vec<u8>, data: &[u8]) -> (n: usize)
        requires
            old(self).wf(),
            fits_in(old(self).frags(), old(backing)@.len()),
        ensures
            final(self).wf(),
            final(self).frags() == old(self).frags(),
            n == min_nat(data@.len(), (total(old(self).frags()) - old(self).pos_view()) as nat),
            final(self).pos_view() == old(self).pos_view() + n,
            final(backing)@ == written(
                old(backing)@,
                old(self).frags(),
                old(self).pos_view() as int,
                data@.take(n as int),
            ),
    {
        let ghost pos0 = self.pos_view();
        let ghost fs = self.frags();
        let ghost b0 = backing@;
        let mut done: usize = 0;
        proof {
            assert(data@.take(0).len() == 0);
            self.lemma_pos_le_total();
        }
        while done < data.len() && !self.eof()
            invariant
                self.wf(),
                self.frags() == fs,
                fits_in(fs, backing@.len()),
                backing@.len() == b0.len(),
                self.pos_view() == pos0 + done,
                done <= data@.len(),
                pos0 + done <= total(fs),
                backing@ == written(b0, fs, pos0 as int, data@.take(done as int)),
            decreases data@.len() - done + fs.len() - self.index_view(),
        {
            let (phys, len) = self.span(data.len() - done);
            proof {
                self.lemma_span_in_medium(phys, len, backing@.len());
            }
            let blen = backing.len();
            let limit = data.len();
            let mut j: usize = 0;
            while j < len
                invariant
                    j <= len,
                    limit == data@.len(),
                    blen == backing@.len(),
                    phys + len <= blen,
                    phys + len <= u64::MAX,
                    done + len <= limit,
                    backing@.len() == b0.len(),
                    phys + len <= backing@.len(),
                    backing@ == written(b0, fs, pos0 as int, data@.take(done + j)),
                    forall|k: int|
                        0 <= k < len ==> #[trigger] phys_of(fs, pos0 + done + k) == phys + k,
                decreases len - j,
            {
                proof {
                    let t = data@.take(done + j + 1);
                    assert(t.drop_last() =~= data@.take(done + j));
                    assert(t.last() == data@[done + j]);
                    assert(phys_of(fs, pos0 + done + j) == phys + j);
                }
                backing.set((phys + j as u64) as usize, data[done + j]);
                j = j + 1;
            }
            self.advance(len);
            done = done + len;
        }
        proof {
            if done < data.len() {
                assert(self.pos_view() == total(fs));
            }
        }
        done
    }
}

/// Result of a seek from logical position `cur` in a space of `size` bytes.
pub open spec fn seek_result(cur: int, size: int, to: SeekPos) -> Result<u64, SeekError> {
    let target: int = match to {
        SeekPos::Start(p) => p as int,
        SeekPos::Current(d) => cur + d,
        SeekPos::End(d) => size + d,
    };
    if target < 0 || target > u64::MAX {
        Err(SeekError::Invalid)
    } else if target > size {
        Err(SeekError::OutOfRange)
    } else {
        Ok(target as u64)
    }
}

/// `base + d`, where it is a 64-bit unsigned value.
pub fn offset_by(base: u64, d: i64) -> (r: Option<u64>)
    ensures
        r is Some <==> 0 <= base + d <= u64::MAX,
        r matches Some(p) ==> p == base + d,
{
    if d >= 0 {
        let u = d as u64;
        if base > u64::MAX - u {
            None
        } else {
            Some(base + u)
        }
    } else {
        let u: u64 = if d == i64::MIN {
            (i64::MAX as u64) + 1
        } else {
            (-d) as u64
        };
        if u > base {
            None
        } else {
            Some(base - u)
        }
    }
}

/// The extents, scaled by `block_size`, can be mapped: there is at least
/// one, and every offset, end and the total size fit in 64 bits.
pub open spec fn extents_map(extents: Seq<Extent>, block_size: u64) -> bool {
    &&& extents.len() > 0
    &&& forall|i: int|
        0 <= i < extents.len() ==> extents[i].start_block * block_size <= u64::MAX
            && extents[i].num_blocks * block_size <= u64::MAX
    &&& total(extents_to_fragments(extents, block_size)) <= u64::MAX
    &&& fits_in(extents_to_fragments(extents, block_size), u64::MAX as nat)
}

/// The fragments that the extents stand for, each scaled by `block_size`.
pub open spec fn extents_to_fragments(extents: Seq<Extent>, block_size: u64) -> Seq<Fragment> {
    extents.map_values(
        |e: Extent|
            Fragment {
                offset: (e.start_block * block_size) as u64,
                size: (e.num_blocks * block_size) as u64,
            },
    )
}

impl Fragment {
    /// The byte range of `extent` for blocks of `block_size` bytes; none where
    /// an end does not fit in 64 bits.
    pub fn from_extent(extent: &Extent, block_size: u64) -> (r: Option<Fragment>)
        ensures
            r is Some <==> (extent.start_block * block_size <= u64::MAX && extent.num_blocks
                * block_size <= u64::MAX),
            r matches Some(f) ==> f.offset == extent.start_block * block_size && f.size
                == extent.num_blocks * block_size,
    {
        let offset = extent.start_block.checked_mul(block_size);
        let size = extent.num_blocks.checked_mul(block_size);
        match (offset, size) {
            (Some(o), Some(s)) => Some(Fragment { offset: o, size: s }),
            _ => None,
        }
    }
}

} // verus!
