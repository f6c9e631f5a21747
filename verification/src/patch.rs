//! A patched ROM, represented as a base ROM together with the segments of it that changed.

use vstd::prelude::*;

verus! {

/// A ROM that is a base ROM with some segments of raw data replaced.
///
/// The segments are identified by their starting addresses. They are kept sorted, and there is a
/// gap of at least one byte between adjacent segments.
pub struct Patch<'a> {
    base_rom: &'a [u8],
    changed_segments: Vec<(usize, &'a [u8])>,
}

impl<'a> Patch<'a> {
    /// The bytes of the base ROM.
    pub closed spec fn base(&self) -> Seq<u8> {
        self.base_rom@
    }

    /// The number of changed segments.
    pub closed spec fn num_segments(&self) -> int {
        self.changed_segments@.len() as int
    }

    /// The starting address of segment `i`.
    pub closed spec fn seg_start(&self, i: int) -> int {
        self.changed_segments@[i].0 as int
    }

    /// The replacement bytes of segment `i`.
    pub closed spec fn seg_bytes(&self, i: int) -> Seq<u8> {
        self.changed_segments@[i].1@
    }

    /// The address just past segment `i`.
    pub open spec fn seg_end(&self, i: int) -> int {
        self.seg_start(i) + self.seg_bytes(i).len()
    }

    /// Segments are sorted, separated by gaps, and end at addresses that fit in a `usize`.
    #[verifier::type_invariant]
    pub closed spec fn wf(&self) -> bool {
        &&& forall|i: int, j: int|
            0 <= i < j < self.num_segments() ==> #[trigger] self.seg_end(i) < #[trigger] self.seg_start(j)
        &&& forall|i: int| 0 <= i < self.num_segments() ==> #[trigger] self.seg_end(i) <= usize::MAX
    }

    /// Segment `i` is one that starts at or after `lo` and covers address `a`.
    pub open spec fn covers(&self, i: int, lo: int, a: int) -> bool {
        &&& 0 <= i < self.num_segments()
        &&& lo <= self.seg_start(i) <= a < self.seg_end(i)
    }

    /// Some segment starting at or after `lo` covers address `a`.
    pub open spec fn covered_from(&self, lo: int, a: int) -> bool {
        exists|i: int| self.covers(i, lo, a)
    }

    /// The byte at address `a` when only the segments starting at or after `lo` are applied.
    pub open spec fn byte_from(&self, lo: int, a: int) -> u8 {
        if self.covered_from(lo, a) {
            let i = choose|i: int| self.covers(i, lo, a);
            self.seg_bytes(i)[a - self.seg_start(i)]
        } else {
            self.base()[a]
        }
    }

    /// The byte at address `a` of the patched ROM.
    pub open spec fn byte_at(&self, a: int) -> u8 {
        self.byte_from(0, a)
    }

    /// Address `a` has a byte when only the segments starting at or after `lo` are applied.
    pub open spec fn readable_from(&self, lo: int, a: int) -> bool {
        self.covered_from(lo, a) || 0 <= a < self.base().len()
    }

    /// Indexing the patched ROM at address `a` succeeds: `a` has a byte, and no empty segment
    /// starts at `a`.
    pub open spec fn index_ok(&self, a: int) -> bool {
        &&& self.readable_from(0, a)
        &&& forall|i: int|
            0 <= i < self.num_segments() && #[trigger] self.seg_start(i) == a ==> self.seg_bytes(i).len() > 0
    }

    /// Every address of the base ROM can be indexed in the patched ROM.
    pub open spec fn all_indexable(&self) -> bool {
        forall|a: int| 0 <= a < self.base().len() ==> #[trigger] self.index_ok(a)
    }

    /// The patched ROM, as many bytes long as the base ROM.
    pub open spec fn patched(&self) -> Seq<u8> {
        Seq::new(self.base().len(), |a: int| self.byte_at(a))
    }

    /// The bytes at addresses `lo .. hi`, applying only the segments that start at or after `lo`.
    pub open spec fn slice_view(&self, lo: int, hi: int) -> Seq<u8> {
        Seq::new((hi - lo) as nat, |k: int| self.byte_from(lo, lo + k))
    }

    /// Every address in `lo .. hi` has a byte when only the segments starting at or after `lo`
    /// are applied.
    pub open spec fn slice_ok(&self, lo: int, hi: int) -> bool {
        forall|a: int| lo <= a < hi ==> #[trigger] self.readable_from(lo, a)
    }

    /// At most one segment covers an address.
    pub proof fn lemma_covers_unique(&self, i: int, j: int, lo1: int, lo2: int, a: int)
        requires
            self.wf(),
            self.covers(i, lo1, a),
            self.covers(j, lo2, a),
        ensures
            i == j,
    {
        if i < j {
            assert(self.seg_end(i) < self.seg_start(j));
        } else if j < i {
            assert(self.seg_end(j) < self.seg_start(i));
        }
    }

    /// The byte of segment `i` at `a`, for a segment that covers `a`.
    pub proof fn lemma_byte_from_segment(&self, i: int, lo: int, a: int)
        requires
            self.wf(),
            self.covers(i, lo, a),
        ensures
            self.byte_from(lo, a) == self.seg_bytes(i)[a - self.seg_start(i)],
    {
        let j = choose|j: int| self.covers(j, lo, a);
        self.lemma_covers_unique(i, j, lo, lo, a);
    }

    /// Segment starts increase strictly.
    proof fn lemma_starts_increase(&self, i: int, j: int)
        requires
            self.wf(),
            0 <= i < j < self.num_segments(),
        ensures
            self.seg_start(i) < self.seg_start(j),
    {
        assert(self.seg_end(i) < self.seg_start(j));
    }

    /// Finds the segment starting at `key`: `Ok` with its position, or `Err` with the position
    /// where such a segment would have to be inserted.
    fn search_segment(&self, key: usize) -> (r: Result<usize, usize>)
        requires
            self.wf(),
        ensures
            match r {
                Ok(i) => i < self.num_segments() && self.seg_start(i as int) == key,
                Err(i) => {
                    &&& i <= self.num_segments()
                    &&& forall|j: int| 0 <= j < i ==> #[trigger] self.seg_start(j) < key
                    &&& forall|j: int| i <= j < self.num_segments() ==> #[trigger] self.seg_start(j) > key
                },
            },
    {
        let mut lo: usize = 0;
        let mut hi: usize = self.changed_segments.len();
        while lo < hi
            invariant
                self.wf(),
                0 <= lo <= hi <= self.num_segments(),
                self.num_segments() == self.changed_segments@.len(),
                forall|j: int| 0 <= j < lo ==> #[trigger] self.seg_start(j) < key,
                forall|j: int| hi <= j < self.num_segments() ==> #[trigger] self.seg_start(j) > key,
            decreases hi - lo,
        {
            let mid = lo + (hi - lo) / 2;
            let s = self.changed_segments[mid].0;
            if s == key {
                return Ok(mid);
            } else if s < key {
                proof {
                    assert forall|j: int| 0 <= j < mid + 1 implies #[trigger] self.seg_start(j) < key by {
                        if j < mid {
                            self.lemma_starts_increase(j, mid as int);
                        }
                    }
                }
                lo = mid + 1;
            } else {
                proof {
                    assert forall|j: int| mid <= j < self.num_segments() implies #[trigger] self.seg_start(j) > key by {
                        if j > mid {
                            self.lemma_starts_increase(mid as int, j);
                        }
                    }
                }
                hi = mid;
            }
        }
        Err(lo)
    }

    /// The byte at `address` of the patched ROM.
    pub fn index(&self, address: usize) -> (r: u8)
        requires
            self.index_ok(address as int),
        ensures
            r == self.byte_at(address as int),
    {
        proof {
            use_type_invariant(self);
        }
        match self.search_segment(address) {
            Ok(found_idx) => {
                let segment = self.changed_segments[found_idx].1;
                proof {
                    assert(self.seg_bytes(found_idx as int).len() > 0);
                    assert(self.covers(found_idx as int, 0, address as int));
                    self.lemma_byte_from_segment(found_idx as int, 0, address as int);
                }
                segment[0]
            },
            Err(insert_idx) => {
                if insert_idx > 0 {
                    let prev_idx = insert_idx - 1;
                    let start_addr = self.changed_segments[prev_idx].0;
                    let segment = self.changed_segments[prev_idx].1;
                    proof {
                        assert(self.seg_start(prev_idx as int) < address);
                        assert(self.seg_end(prev_idx as int) <= usize::MAX);
                    }
                    if address < start_addr + segment.len() {
                        proof {
                            assert(self.covers(prev_idx as int, 0, address as int));
                            self.lemma_byte_from_segment(prev_idx as int, 0, address as int);
                        }
                        segment[address - start_addr]
                    } else {
                        proof {
                            assert forall|i: int| !self.covers(i, 0, address as int) by {
                                if self.covers(i, 0, address as int) {
                                    if i < prev_idx {
                                        assert(self.seg_end(i) < self.seg_start(prev_idx as int));
                                    }
                                }
                            }
                        }
                        self.base_rom[address]
                    }
                } else {
                    proof {
                        assert forall|i: int| !self.covers(i, 0, address as int) by {}
                    }
                    self.base_rom[address]
                }
            },
        }
    }
}

impl<'a> Patch<'a> {
    /// Every address in `[x, y)` past the segments already applied, and before segment `j`,
    /// is left as in the base ROM.
    proof fn lemma_uncovered_gap(&self, lo: int, x: int, y: int, j: int)
        requires
            self.wf(),
            lo <= x,
            0 <= j <= self.num_segments(),
            j < self.num_segments() ==> y <= self.seg_start(j),
            forall|i: int| 0 <= i < j && #[trigger] self.seg_start(i) >= lo ==> self.seg_end(i) <= x,
        ensures
            forall|a: int| x <= a < y ==> !#[trigger] self.covered_from(lo, a),
    {
        assert forall|a: int| x <= a < y implies !#[trigger] self.covered_from(lo, a) by {
            if self.covered_from(lo, a) {
                let i = choose|i: int| self.covers(i, lo, a);
                if i >= j {
                    if i > j {
                        self.lemma_starts_increase(j, i);
                    }
                }
            }
        }
    }

    /// The bytes at addresses `start .. end`, applying only the segments that start at or after
    /// `start`.
    pub fn slice(&self, start: usize, end: usize) -> (r: Vec<u8>)
        requires
            start <= end,
            self.slice_ok(start as int, end as int),
        ensures
            r@ == self.slice_view(start as int, end as int),
    {
        proof {
            use_type_invariant(self);
        }
        if start == end {
            proof {
                assert(self.slice_view(start as int, end as int) =~= Seq::<u8>::empty());
            }
            return Vec::new();
        }
        let ghost lo = start as int;
        let num = self.changed_segments.len();
        let (mut buf, start_idx) = match self.search_segment(start) {
            Ok(found_idx) => {
                let segment = self.changed_segments[found_idx].1;
                if segment.len() >= end - start {
                    let r = vstd::slice::slice_to_vec(&segment[0..end - start]);
                    proof {
                        assert forall|k: int| 0 <= k < end - start implies r@[k] == self.byte_from(lo, lo + k) by {
                            assert(self.covers(found_idx as int, lo, lo + k));
                            self.lemma_byte_from_segment(found_idx as int, lo, lo + k);
                        }
                        assert(r@ =~= self.slice_view(lo, end as int));
                    }
                    return r;
                } else {
                    let mut buf: Vec<u8> = Vec::with_capacity(end - start);
                    buf.extend_from_slice(segment);
                    proof {
                        assert forall|k: int| 0 <= k < buf@.len() implies buf@[k] == self.byte_from(lo, lo + k) by {
                            assert(self.covers(found_idx as int, lo, lo + k));
                            self.lemma_byte_from_segment(found_idx as int, lo, lo + k);
                        }
                        assert forall|i: int| 0 <= i < found_idx + 1 && #[trigger] self.seg_start(i) >= lo
                            implies self.seg_end(i) <= lo + buf@.len() by {
                            if i < found_idx {
                                self.lemma_starts_increase(i, found_idx as int);
                            }
                        }
                        if found_idx + 1 < num {
                            assert(self.seg_end(found_idx as int) < self.seg_start(found_idx + 1));
                        }
                    }
                    (buf, found_idx + 1)
                }
            },
            Err(insert_idx) => {
                let buf: Vec<u8> = Vec::with_capacity(end - start);
                (buf, insert_idx)
            },
        };
        let mut j = start_idx;
        let mut done = false;
        while j < num && !done
            invariant
                self.wf(),
                num == self.num_segments(),
                num == self.changed_segments@.len(),
                lo == start,
                start <= end,
                self.slice_ok(lo, end as int),
                start_idx <= j <= num,
                buf@.len() <= end - start,
                forall|k: int| 0 <= k < buf@.len() ==> #[trigger] buf@[k] == self.byte_from(lo, lo + k),
                done ==> buf@.len() == end - start,
                !done ==> buf@.len() < end - start,
                !done && j < num ==> start + buf@.len() < self.seg_start(j as int),
                !done ==> forall|i: int|
                    0 <= i < j && #[trigger] self.seg_start(i) >= lo ==> self.seg_end(i) <= lo + buf@.len(),
            decreases num - j, (if done { 0int } else { 1int }),
        {
            let start_addr = self.changed_segments[j].0;
            let segment = self.changed_segments[j].1;
            let ghost x = lo + buf@.len();
            if start_addr >= end {
                proof {
                    self.lemma_uncovered_gap(lo, x, end as int, j as int);
                    assert(self.readable_from(lo, end - 1));
                }
                let from = start + buf.len();
                buf.extend_from_slice(&self.base_rom[from..end]);
                done = true;
            } else {
                proof {
                    self.lemma_uncovered_gap(lo, x, start_addr as int, j as int);
                    assert(self.readable_from(lo, start_addr - 1));
                }
                let from = start + buf.len();
                buf.extend_from_slice(&self.base_rom[from..start_addr]);
                proof {
                    assert(self.seg_end(j as int) <= usize::MAX);
                }
                if start_addr + segment.len() >= end {
                    let take = end - start - buf.len();
                    buf.extend_from_slice(&segment[0..take]);
                    proof {
                        assert forall|k: int| start_addr - lo <= k < end - lo implies #[trigger] buf@[k] == self.byte_from(lo, lo + k) by {
                            assert(self.covers(j as int, lo, lo + k));
                            self.lemma_byte_from_segment(j as int, lo, lo + k);
                        }
                    }
                    done = true;
                } else {
                    buf.extend_from_slice(segment);
                    proof {
                        assert forall|k: int| start_addr - lo <= k < buf@.len() implies #[trigger] buf@[k] == self.byte_from(lo, lo + k) by {
                            assert(self.covers(j as int, lo, lo + k));
                            self.lemma_byte_from_segment(j as int, lo, lo + k);
                        }
                        assert forall|i: int| 0 <= i < j + 1 && #[trigger] self.seg_start(i) >= lo
                            implies self.seg_end(i) <= lo + buf@.len() by {
                            if i < j {
                                self.lemma_starts_increase(i, j as int);
                            }
                        }
                        if j + 1 < num {
                            assert(self.seg_end(j as int) < self.seg_start(j + 1));
                        }
                    }
                    j = j + 1;
                }
            }
        }
        if buf.len() < end - start {
            proof {
                self.lemma_uncovered_gap(lo, lo + buf@.len(), end as int, j as int);
                assert(self.readable_from(lo, end - 1));
            }
            let from = start + buf.len();
            buf.extend_from_slice(&self.base_rom[from..end]);
        }
        proof {
            assert(buf@ =~= self.slice_view(lo, end as int));
        }
        buf
    }
}

impl<'a> Patch<'a> {
    /// An iterator over the bytes of the patched ROM, as many as the base ROM has.
    pub fn into_iter<'b>(&'b self) -> (it: PatchIterator<'a, 'b>)
        ensures
            it.patch() == self,
            it.position() == 0,
    {
        PatchIterator { patch: self, idx: 0 }
    }
}

/// What one step of iterating `p` from address `pos` yields, and the address after it: the
/// patched byte there while inside the base ROM, and `None`, staying put, past its end.
pub open spec fn iter_step(p: Patch, pos: nat) -> (Option<u8>, nat) {
    if pos < p.base().len() {
        (Some(p.byte_at(pos as int)), pos + 1)
    } else {
        (None, pos)
    }
}

/// What `n` steps of iterating `p` from address `pos` yield, in order.
pub open spec fn iter_run(p: Patch, pos: nat, n: nat) -> Seq<Option<u8>>
    decreases n,
{
    if n == 0 {
        Seq::empty()
    } else {
        let (r, next) = iter_step(p, pos);
        seq![r] + iter_run(p, next, (n - 1) as nat)
    }
}

/// Iterating a patch from its start yields each byte of the patched ROM in order, and then
/// `None` on every later step.
pub proof fn law_iteration_yields_rom(p: Patch, n: nat)
    ensures
        iter_run(p, 0, n) == Seq::new(
            n,
            |i: int|
                if i < p.base().len() {
                    Some(p.byte_at(i))
                } else {
                    None
                },
        ),
{
    lemma_iter_run_from(p, 0, n);
}

proof fn lemma_iter_run_from(p: Patch, pos: nat, n: nat)
    ensures
        iter_run(p, pos, n) == Seq::new(
            n,
            |i: int|
                if pos + i < p.base().len() {
                    Some(p.byte_at(pos + i))
                } else {
                    None
                },
        ),
    decreases n,
{
    if n > 0 {
        let (r, next) = iter_step(p, pos);
        lemma_iter_run_from(p, next, (n - 1) as nat);
        if pos < p.base().len() {
            assert(iter_run(p, pos, n) =~= Seq::new(
                n,
                |i: int|
                    if pos + i < p.base().len() {
                        Some(p.byte_at(pos + i))
                    } else {
                        None
                    },
            ));
        } else {
            assert(iter_run(p, pos, n) =~= Seq::new(
                n,
                |i: int|
                    if pos + i < p.base().len() {
                        Some(p.byte_at(pos + i))
                    } else {
                        None
                    },
            ));
        }
    } else {
        assert(iter_run(p, pos, n) =~= Seq::new(
            n,
            |i: int|
                if pos + i < p.base().len() {
                    Some(p.byte_at(pos + i))
                } else {
                    None
                },
        ));
    }
}

/// An iterator over the bytes of a patched ROM.
pub struct PatchIterator<'a, 'b> {
    patch: &'b Patch<'a>,
    idx: usize,
}

impl<'a, 'b> PatchIterator<'a, 'b> {
    /// The patch being walked.
    pub closed spec fn patch(&self) -> &'b Patch<'a> {
        self.patch
    }

    /// The address of the next byte.
    pub closed spec fn position(&self) -> nat {
        self.idx as nat
    }

    /// The next byte of the patched ROM, or `None` past the end of the base ROM.
    pub fn next(&mut self) -> (r: Option<u8>)
        requires
            old(self).position() < old(self).patch().base().len() ==> old(self).patch().index_ok(
                old(self).position() as int,
            ),
        ensures
            final(self).patch() == old(self).patch(),
            (r, final(self).position()) == iter_step(*old(self).patch(), old(self).position()),
            old(self).position() < old(self).patch().base().len() ==> {
                &&& r == Some(old(self).patch().byte_at(old(self).position() as int))
                &&& final(self).position() == old(self).position() + 1
            },
            old(self).position() >= old(self).patch().base().len() ==> {
                &&& r is None
                &&& final(self).position() == old(self).position()
            },
    {
        if self.idx < self.patch.base_rom.len() {
            let byte = self.patch.index(self.idx);
            self.idx = self.idx + 1;
            Some(byte)
        } else {
            None
        }
    }
}

/// The patch that turns `base_rom` into `patched_rom`.
pub fn diff_roms<'a>(base_rom: &'a [u8], patched_rom: &'a [u8]) -> (p: Patch<'a>)
    ensures
        p.base() == base_rom@,
        forall|a: int| 0 <= a < patched_rom@.len() ==> #[trigger] p.byte_at(a) == patched_rom@[a],
        forall|a: int|
            patched_rom@.len() <= a < base_rom@.len() ==> #[trigger] p.byte_at(a) == base_rom@[a],
        forall|a: int|
            0 <= a < base_rom@.len() ==> (#[trigger] p.index_ok(a) <==> (a != 0 || patched_rom@.len() > 0)),
        forall|lo: int, a: int|
            0 < lo <= a < base_rom@.len() ==> #[trigger] p.byte_from(lo, a) == base_rom@[a],
        forall|lo: int, a: int|
            0 < lo <= a ==> (#[trigger] p.readable_from(lo, a) <==> a < base_rom@.len()),
{
    let patched_len = patched_rom.len();
    let mut changed_segments: Vec<(usize, &'a [u8])> = Vec::new();
    changed_segments.push((0, patched_rom));
    let p = Patch { base_rom, changed_segments };
    proof {
        assert(p.num_segments() == 1);
        assert(p.seg_start(0) == 0);
        assert(p.seg_bytes(0) == patched_rom@);
        assert forall|a: int| 0 <= a < patched_rom@.len() implies #[trigger] p.byte_at(a) == patched_rom@[a] by {
            assert(p.covers(0, 0, a));
            p.lemma_byte_from_segment(0, 0, a);
        }
        assert forall|lo: int, a: int| 0 < lo <= a implies !p.covered_from(lo, a) by {
            if p.covered_from(lo, a) {
                let i = choose|i: int| p.covers(i, lo, a);
                assert(i == 0);
            }
        }
    }
    p
}

impl<'a> Patch<'a> {
    /// The base ROM.
    pub fn base_rom(&self) -> (r: &'a [u8])
        ensures
            r@ == self.base(),
    {
        self.base_rom
    }

    /// Some segment starting at or after `lo` covers `a` (executable).
    pub(crate) fn covered_from_exec(&self, lo: usize, a: usize) -> (r: bool)
        ensures
            r == self.covered_from(lo as int, a as int),
    {
        proof {
            use_type_invariant(self);
        }
        if a < lo {
            return false;
        }
        match self.search_segment(a) {
            Ok(i) => {
                let len = self.changed_segments[i].1.len();
                proof {
                    if len > 0 {
                        assert(self.covers(i as int, lo as int, a as int));
                    } else {
                        if self.covered_from(lo as int, a as int) {
                            let j = choose|j: int| self.covers(j, lo as int, a as int);
                            self.lemma_covers_unique(j, j, lo as int, lo as int, a as int);
                            if j < i {
                                assert(self.seg_end(j) < self.seg_start(i as int));
                            } else if j > i {
                                assert(self.seg_end(i as int) < self.seg_start(j));
                            }
                        }
                    }
                }
                len > 0
            },
            Err(i) => {
                if i == 0 {
                    proof {
                        if self.covered_from(lo as int, a as int) {
                            let j = choose|j: int| self.covers(j, lo as int, a as int);
                            assert(self.seg_start(j) > a);
                        }
                    }
                    false
                } else {
                    let s = self.changed_segments[i - 1].0;
                    let len = self.changed_segments[i - 1].1.len();
                    proof {
                        assert(self.seg_start(i - 1) < a);
                        assert(self.seg_end(i - 1) <= usize::MAX);
                        if self.covered_from(lo as int, a as int) {
                            let j = choose|j: int| self.covers(j, lo as int, a as int);
                            if j < i - 1 {
                                assert(self.seg_end(j) < self.seg_start(i - 1));
                            } else if j >= i {
                                assert(self.seg_start(j) > a);
                            }
                        }
                        if lo <= s && a < s + len {
                            assert(self.covers(i - 1, lo as int, a as int));
                        }
                    }
                    lo <= s && a < s + len
                }
            },
        }
    }

    /// Every address in `lo .. hi` has a byte when only segments starting at or after `lo` are
    /// applied (executable).
    pub(crate) fn slice_ok_exec(&self, lo: usize, hi: usize) -> (r: bool)
        ensures
            r == self.slice_ok(lo as int, hi as int),
    {
        let mut a = lo;
        while a < hi
            invariant
                lo <= a,
                forall|b: int| lo <= b < a ==> #[trigger] self.readable_from(lo as int, b),
            decreases hi - a,
        {
            if a >= self.base_rom.len() && !self.covered_from_exec(lo, a) {
                assert(!self.readable_from(lo as int, a as int));
                return false;
            }
            a = a + 1;
        }
        true
    }

    /// Every address of the base ROM can be indexed in the patched ROM (executable).
    pub(crate) fn all_indexable_exec(&self) -> (r: bool)
        ensures
            r == self.all_indexable(),
    {
        proof {
            use_type_invariant(self);
        }
        let n = self.changed_segments.len();
        let mut i: usize = 0;
        while i < n
            invariant
                n == self.num_segments(),
                n == self.changed_segments@.len(),
                forall|j: int|
                    0 <= j < i && #[trigger] self.seg_start(j) < self.base().len() ==> self.seg_bytes(j).len() > 0,
            decreases n - i,
        {
            let (s, seg) = self.changed_segments[i];
            if s < self.base_rom.len() && seg.len() == 0 {
                proof {
                    assert(self.seg_start(i as int) == s);
                    assert(self.seg_bytes(i as int).len() == 0);
                    assert(!self.index_ok(s as int));
                }
                return false;
            }
            i = i + 1;
        }
        proof {
            assert forall|a: int| 0 <= a < self.base().len() implies #[trigger] self.index_ok(a) by {
                assert(self.readable_from(0, a));
            }
        }
        true
    }
}

} // verus!
