//! The steps that turn the assembled rom into the randomizer's data: cleaning the assembler's
//! symbol file, and listing the words that the assembled code changed in the base rom.

use vstd::prelude::*;
use crate::zpf::be32_value;

verus! {

/// The size of the chunks in which two roms are compared.
pub const CHUNK_SIZE: usize = 4096;

/// Symbol file text with each `\r\n` turned into `\n` and each end-of-file mark (0x1a) dropped.
pub open spec fn normalized(s: Seq<u8>) -> Seq<u8>
    decreases s.len(),
{
    if s.len() == 0 {
        Seq::empty()
    } else if s.len() >= 2 && s[0] == 13 && s[1] == 10 {
        seq![10u8] + normalized(s.subrange(2, s.len() as int))
    } else if s[0] == 0x1a {
        normalized(s.subrange(1, s.len() as int))
    } else {
        seq![s[0]] + normalized(s.subrange(1, s.len() as int))
    }
}

/// Turns each `\r\n` into `\n` and drops each end-of-file mark (0x1a).
pub fn normalize_line_endings(bytes: &[u8]) -> (r: Vec<u8>)
    ensures
        r@ == normalized(bytes@),
{
    let mut out: Vec<u8> = Vec::new();
    let n = bytes.len();
    let mut i: usize = 0;
    proof {
        assert(bytes@.subrange(0, n as int) =~= bytes@);
        assert(out@ + normalized(bytes@) =~= normalized(bytes@));
    }
    while i < n
        invariant
            i <= n == bytes@.len(),
            out@ + normalized(bytes@.subrange(i as int, n as int)) == normalized(bytes@),
        decreases n - i,
    {
        let ghost rest = bytes@.subrange(i as int, n as int);
        let ghost before = out@;
        if i + 1 < n && bytes[i] == 13 && bytes[i + 1] == 10 {
            out.push(10);
            proof {
                assert(rest.subrange(2, rest.len() as int) =~= bytes@.subrange(i + 2, n as int));
                assert(out@ + normalized(bytes@.subrange(i + 2, n as int)) =~= before + normalized(rest));
            }
            i = i + 2;
        } else if bytes[i] == 0x1a {
            proof {
                assert(rest.subrange(1, rest.len() as int) =~= bytes@.subrange(i + 1, n as int));
            }
            i = i + 1;
        } else {
            out.push(bytes[i]);
            proof {
                assert(rest.subrange(1, rest.len() as int) =~= bytes@.subrange(i + 1, n as int));
                assert(out@ + normalized(bytes@.subrange(i + 1, n as int)) =~= before + normalized(rest));
            }
            i = i + 1;
        }
    }
    proof {
        assert(normalized(bytes@.subrange(n as int, n as int)) =~= Seq::<u8>::empty());
        assert(out@ =~= out@ + Seq::<u8>::empty());
    }
    out
}

/// The part of `f` compared at `addr`: the `CHUNK_SIZE` bytes from there, or fewer at the end.
pub open spec fn chunk_at(f: Seq<u8>, addr: int) -> Seq<u8> {
    let lo = if addr < f.len() {
        addr
    } else {
        f.len() as int
    };
    let hi = if addr + 4096 < f.len() {
        addr + 4096
    } else {
        f.len() as int
    };
    f.subrange(lo, hi)
}

/// The big-endian 32-bit word starting at each byte of `c` that has three more after it.
pub open spec fn word_windows(c: Seq<u8>) -> Seq<u32> {
    Seq::new(
        if c.len() >= 3 {
            (c.len() - 3) as nat
        } else {
            0
        },
        |j: int| be32_value(c.subrange(j, j + 4)) as u32,
    )
}

/// The address of the first chunk, at `addr` or after it, in which the two files differ.
pub open spec fn first_unequal(f1: Seq<u8>, f2: Seq<u8>, addr: int) -> Option<int>
    decreases f1.len() + 4096 - addr,
{
    if addr < 0 || addr >= f1.len() {
        None
    } else if chunk_at(f1, addr) != chunk_at(f2, addr) {
        Some(addr)
    } else {
        first_unequal(f1, f2, addr + 4096)
    }
}

/// Whether the chunks of two files at `addr` are equal.
fn chunks_equal(f1: &[u8], f2: &[u8], addr: usize) -> (r: bool)
    requires
        addr < f1@.len(),
        f1@.len() + 4096 <= usize::MAX,
    ensures
        r == (chunk_at(f1@, addr as int) == chunk_at(f2@, addr as int)),
{
    let hi1 = if addr + CHUNK_SIZE < f1.len() {
        addr + CHUNK_SIZE
    } else {
        f1.len()
    };
    let lo2 = if addr < f2.len() {
        addr
    } else {
        f2.len()
    };
    let hi2 = if addr + CHUNK_SIZE < f2.len() {
        addr + CHUNK_SIZE
    } else {
        f2.len()
    };
    let ghost c1 = chunk_at(f1@, addr as int);
    let ghost c2 = chunk_at(f2@, addr as int);
    if hi1 - addr != hi2 - lo2 {
        proof {
            assert(c1.len() != c2.len());
        }
        return false;
    }
    let mut k: usize = 0;
    while k < hi1 - addr
        invariant
            addr < hi1 <= f1@.len(),
            lo2 <= hi2 <= f2@.len(),
            hi1 - addr == hi2 - lo2,
            k <= hi1 - addr,
            c1 == f1@.subrange(addr as int, hi1 as int),
            c2 == f2@.subrange(lo2 as int, hi2 as int),
            c1 == chunk_at(f1@, addr as int),
            c2 == chunk_at(f2@, addr as int),
            forall|m: int| 0 <= m < k ==> c1[m] == c2[m],
        decreases hi1 - addr - k,
    {
        if f1[addr + k] != f2[lo2 + k] {
            proof {
                assert(c1[k as int] != c2[k as int]);
            }
            return false;
        }
        k = k + 1;
    }
    proof {
        assert(c1 =~= c2);
    }
    true
}

/// The words of the chunk of `f` at `addr`, one starting at each of its bytes that has three
/// more after it.
fn words_at(f: &[u8], addr: usize) -> (r: Vec<u32>)
    requires
        addr + 4096 <= usize::MAX,
    ensures
        r@ == word_windows(chunk_at(f@, addr as int)),
{
    let lo = if addr < f.len() {
        addr
    } else {
        f.len()
    };
    let hi = if addr + CHUNK_SIZE < f.len() {
        addr + CHUNK_SIZE
    } else {
        f.len()
    };
    let ghost c = chunk_at(f@, addr as int);
    let mut words: Vec<u32> = Vec::new();
    let mut j: usize = lo;
    while j + 3 < hi
        invariant
            lo <= j,
            lo <= hi <= f@.len(),
            hi <= lo + 4096,
            lo + 4096 <= usize::MAX,
            j == lo || j + 3 <= hi,
            c == f@.subrange(lo as int, hi as int),
            words@.len() == j - lo,
            forall|m: int| 0 <= m < j - lo ==> words@[m] == be32_value(c.subrange(m, m + 4)) as u32,
        decreases hi - j,
    {
        let w: u32 = (f[j] as u32) * 0x100_0000 + (f[j + 1] as u32) * 0x1_0000 + (f[j + 2] as u32) * 0x100
            + (f[j + 3] as u32);
        proof {
            let m = j - lo;
            let s = c.subrange(m, m + 4);
            assert(s[0] == f@[j as int] && s[1] == f@[j + 1] && s[2] == f@[j + 2] && s[3] == f@[j + 3]);
        }
        words.push(w);
        j = j + 1;
    }
    proof {
        assert(words@ =~= word_windows(c));
    }
    words
}

/// Compares two roms chunk by chunk, and yields each chunk where they differ.
pub struct UnequalChunks<'a> {
    addr: usize,
    file1: &'a [u8],
    file2: &'a [u8],
}

impl<'a> UnequalChunks<'a> {
    #[verifier::type_invariant]
    spec fn inv(self) -> bool {
        &&& self.addr % 4096 == 0
        &&& self.addr < self.file1@.len() + 4096
        &&& self.file1@.len() + 4096 <= usize::MAX
    }

    /// The rom compared against.
    pub closed spec fn first(self) -> Seq<u8> {
        self.file1@
    }

    /// The rom compared.
    pub closed spec fn second(self) -> Seq<u8> {
        self.file2@
    }

    /// The address of the next chunk to compare.
    pub closed spec fn next_addr(self) -> int {
        self.addr as int
    }

    /// Starts comparing `file2` against `file1` from their first chunk.
    pub fn new(file1: &'a [u8], file2: &'a [u8]) -> (c: Self)
        requires
            file1@.len() + 4096 <= usize::MAX,
        ensures
            c.first() == file1@,
            c.second() == file2@,
            c.next_addr() == 0,
    {
        UnequalChunks { addr: 0, file1, file2 }
    }

    /// The next chunk in which the roms differ: its address, and the words of the chunk in
    /// each rom, one starting at each byte. `None` once the first rom is exhausted.
    pub fn next(&mut self) -> (r: Option<(usize, Vec<u32>, Vec<u32>)>)
        ensures
            final(self).first() == old(self).first(),
            final(self).second() == old(self).second(),
            match first_unequal(old(self).first(), old(self).second(), old(self).next_addr()) {
                None => r is None && first_unequal(final(self).first(), final(self).second(), final(self).next_addr()) is None,
                Some(a) => {
                    &&& r matches Some((ra, w1, w2))
                    &&& ra == a
                    &&& w1@ == word_windows(chunk_at(old(self).first(), a))
                    &&& w2@ == word_windows(chunk_at(old(self).second(), a))
                    &&& final(self).next_addr() == a + 4096
                },
            },
    {
        proof {
            use_type_invariant(&*self);
        }
        loop
            invariant
                self.file1@ == old(self).first(),
                self.file2@ == old(self).second(),
                self.addr % 4096 == 0,
                self.addr < self.file1@.len() + 4096,
                self.file1@.len() + 4096 <= usize::MAX,
                first_unequal(self.file1@, self.file2@, self.addr as int) == first_unequal(
                    old(self).first(),
                    old(self).second(),
                    old(self).next_addr(),
                ),
            decreases self.file1@.len() + 4096 - self.addr,
        {
            if self.addr >= self.file1.len() {
                return None;
            }
            let a = self.addr;
            let equal = chunks_equal(self.file1, self.file2, a);
            self.addr = a + CHUNK_SIZE;
            if !equal {
                let w1 = words_at(self.file1, a);
                let w2 = words_at(self.file2, a);
                return Some((a, w1, w2));
            }
        }
    }
}

/// The changed words of a chunk at `addr`, among its first `j`: at `addr + 4 * k`, the `k`-th
/// word of the patched chunk wherever it differs from the base chunk's.
pub open spec fn chunk_changes(addr: int, base: Seq<u32>, patched: Seq<u32>, j: int) -> Seq<(int, u32)>
    decreases j,
{
    if j <= 0 {
        Seq::empty()
    } else if patched[j - 1] != base[j - 1] {
        chunk_changes(addr, base, patched, j - 1).push((addr + 4 * (j - 1), patched[j - 1]))
    } else {
        chunk_changes(addr, base, patched, j - 1)
    }
}

/// The changed words of the roms from the chunk at `addr` on.
pub open spec fn rom_changes_from(f1: Seq<u8>, f2: Seq<u8>, addr: int) -> Seq<(int, u32)>
    decreases f1.len() + 4096 - addr,
{
    if addr < 0 || addr >= f1.len() {
        Seq::empty()
    } else {
        let here = if chunk_at(f1, addr) != chunk_at(f2, addr) {
            let w1 = word_windows(chunk_at(f1, addr));
            let w2 = word_windows(chunk_at(f2, addr));
            chunk_changes(addr, w1, w2, w2.len() as int)
        } else {
            Seq::empty()
        };
        here + rom_changes_from(f1, f2, addr + 4096)
    }
}

/// In each chunk, the patched rom has no more words than the base rom.
pub open spec fn chunks_fit(f1: Seq<u8>, f2: Seq<u8>) -> bool {
    forall|a: int|
        0 <= a < f1.len() && a % 4096 == 0 ==> (#[trigger] word_windows(chunk_at(f2, a))).len() <= word_windows(
            chunk_at(f1, a),
        ).len()
}

/// The views of address and word pairs.
pub open spec fn entry_views(v: Seq<(usize, u32)>) -> Seq<(int, u32)> {
    v.map_values(|e: (usize, u32)| (e.0 as int, e.1))
}

/// Where the two roms differ skipping chunks from `addr` on gives the same changes.
proof fn lemma_skip_equal_chunks(f1: Seq<u8>, f2: Seq<u8>, addr: int)
    requires
        0 <= addr,
        addr % 4096 == 0,
    ensures
        first_unequal(f1, f2, addr) matches Some(a) ==> a % 4096 == 0 && addr <= a < f1.len() && chunk_at(f1, a)
            != chunk_at(f2, a) && rom_changes_from(f1, f2, addr) == rom_changes_from(f1, f2, a),
        first_unequal(f1, f2, addr) is None ==> rom_changes_from(f1, f2, addr) == Seq::<(int, u32)>::empty(),
    decreases f1.len() + 4096 - addr,
{
    if addr < f1.len() {
        lemma_skip_equal_chunks(f1, f2, addr + 4096);
        if chunk_at(f1, addr) == chunk_at(f2, addr) {
            assert(rom_changes_from(f1, f2, addr) =~= rom_changes_from(f1, f2, addr + 4096));
        }
    }
}

/// Appends the changed words of one chunk at `addr`.
fn push_chunk_changes(out: &mut Vec<(usize, u32)>, addr: usize, base: &Vec<u32>, patched: &Vec<u32>)
    requires
        patched@.len() <= base@.len(),
        addr + 4 * patched@.len() <= usize::MAX,
    ensures
        entry_views(final(out)@) == entry_views(old(out)@) + chunk_changes(addr as int, base@, patched@, patched@.len() as int),
{
    let mut j: usize = 0;
    while j < patched.len()
        invariant
            j <= patched@.len() <= base@.len(),
            addr + 4 * patched@.len() <= usize::MAX,
            entry_views(out@) == entry_views(old(out)@) + chunk_changes(addr as int, base@, patched@, j as int),
        decreases patched@.len() - j,
    {
        if patched[j] != base[j] {
            let ghost before = out@;
            out.push((addr + 4 * j, patched[j]));
            proof {
                assert(entry_views(out@) =~= entry_views(before).push((addr + 4 * j, patched@[j as int])));
            }
        }
        j = j + 1;
    }
}

/// The words that the patched rom changes in the base rom: for each chunk where they differ,
/// at `a + 4 * j`, the word starting at the `j`-th byte of the patched chunk at `a` wherever it
/// differs from the base chunk's.
pub fn rom_changes(base: &[u8], patched: &[u8]) -> (r: Vec<(usize, u32)>)
    requires
        base@.len() + 4096 * 5 <= usize::MAX,
        chunks_fit(base@, patched@),
    ensures
        entry_views(r@) == rom_changes_from(base@, patched@, 0),
{
    let mut out: Vec<(usize, u32)> = Vec::new();
    let mut chunks = UnequalChunks::new(base, patched);
    proof {
        lemma_skip_equal_chunks(base@, patched@, 0);
    }
    loop
        invariant
            chunks.first() == base@,
            chunks.second() == patched@,
            base@.len() + 4096 * 5 <= usize::MAX,
            chunks_fit(base@, patched@),
            0 <= chunks.next_addr(),
            chunks.next_addr() % 4096 == 0,
            entry_views(out@) + rom_changes_from(base@, patched@, chunks.next_addr()) == rom_changes_from(base@, patched@, 0),
        decreases base@.len() + 4096 - chunks.next_addr(),
    {
        let ghost at = chunks.next_addr();
        proof {
            lemma_skip_equal_chunks(base@, patched@, at);
        }
        match chunks.next() {
            None => {
                proof {
                    assert(entry_views(out@) =~= entry_views(out@) + Seq::<(int, u32)>::empty());
                }
                return out;
            },
            Some((addr, base_words, patched_words)) => {
                let ghost before = entry_views(out@);
                proof {
                    assert(word_windows(chunk_at(patched@, addr as int)).len() <= word_windows(chunk_at(base@, addr as int)).len());
                    assert(patched_words@.len() <= 4096);
                }
                push_chunk_changes(&mut out, addr, &base_words, &patched_words);
                proof {
                    let here = chunk_changes(addr as int, base_words@, patched_words@, patched_words@.len() as int);
                    assert(rom_changes_from(base@, patched@, addr as int) == here + rom_changes_from(base@, patched@, addr + 4096));
                    assert(entry_views(out@) + rom_changes_from(base@, patched@, addr + 4096) =~= before + rom_changes_from(base@, patched@, at));
                }
            },
        }
    }
}

proof fn lemma_chunk_changes(addr: int, base: Seq<u32>, patched: Seq<u32>, n: int)
    requires
        0 <= n <= patched.len(),
    ensures
        forall|j: int|
            0 <= j < n && #[trigger] patched[j] != base[j] ==> chunk_changes(addr, base, patched, n).contains(
                (addr + 4 * j, patched[j]),
            ),
        forall|e: (int, u32)|
            #[trigger] chunk_changes(addr, base, patched, n).contains(e) ==> exists|j: int|
                0 <= j < n && #[trigger] patched[j] != base[j] && e == (addr + 4 * j, patched[j]),
    decreases n,
{
    if n > 0 {
        lemma_chunk_changes(addr, base, patched, n - 1);
        let prev = chunk_changes(addr, base, patched, n - 1);
        if patched[n - 1] != base[n - 1] {
            let cur = prev.push((addr + 4 * (n - 1), patched[n - 1]));
            assert(cur[prev.len() as int] == (addr + 4 * (n - 1), patched[n - 1]));
            assert forall|j: int| 0 <= j < n - 1 && #[trigger] patched[j] != base[j] implies cur.contains(
                (addr + 4 * j, patched[j]),
            ) by {
                let k = choose|k: int| 0 <= k < prev.len() && prev[k] == (addr + 4 * j, patched[j]);
                assert(cur[k] == prev[k]);
            }
            assert forall|e: (int, u32)| #[trigger] cur.contains(e) implies exists|j: int|
                0 <= j < n && #[trigger] patched[j] != base[j] && e == (addr + 4 * j, patched[j]) by {
                let k = choose|k: int| 0 <= k < cur.len() && cur[k] == e;
                if k < prev.len() {
                    assert(prev[k] == e);
                    assert(prev.contains(e));
                } else {
                    assert(patched[n - 1] != base[n - 1]);
                }
            }
        }
    }
}

/// The word at byte `j` of the chunk at `a` differs between the base rom `f1` and the patched
/// rom `f2`.
pub open spec fn word_changed(f1: Seq<u8>, f2: Seq<u8>, a: int, j: int) -> bool {
    &&& 0 <= a < f1.len()
    &&& a % 4096 == 0
    &&& 0 <= j < word_windows(chunk_at(f2, a)).len()
    &&& word_windows(chunk_at(f2, a))[j] != word_windows(chunk_at(f1, a))[j]
}

proof fn lemma_rom_changes_from(f1: Seq<u8>, f2: Seq<u8>, addr: int)
    requires
        0 <= addr,
        addr % 4096 == 0,
    ensures
        forall|a: int, j: int|
            addr <= a && #[trigger] word_changed(f1, f2, a, j) ==> rom_changes_from(f1, f2, addr).contains(
                (a + 4 * j, word_windows(chunk_at(f2, a))[j]),
            ),
        forall|e: (int, u32)|
            #[trigger] rom_changes_from(f1, f2, addr).contains(e) ==> exists|a: int, j: int|
                addr <= a && #[trigger] word_changed(f1, f2, a, j) && e == (a + 4 * j, word_windows(chunk_at(f2, a))[j]),
    decreases f1.len() + 4096 - addr,
{
    if addr < f1.len() {
        lemma_rom_changes_from(f1, f2, addr + 4096);
        let w1 = word_windows(chunk_at(f1, addr));
        let w2 = word_windows(chunk_at(f2, addr));
        let here = if chunk_at(f1, addr) != chunk_at(f2, addr) {
            chunk_changes(addr, w1, w2, w2.len() as int)
        } else {
            Seq::empty()
        };
        let rest = rom_changes_from(f1, f2, addr + 4096);
        let all = rom_changes_from(f1, f2, addr);
        assert(all == here + rest);
        lemma_chunk_changes(addr, w1, w2, w2.len() as int);
        assert forall|a: int, j: int|
            addr <= a && #[trigger] word_changed(f1, f2, a, j) implies all.contains(
                (a + 4 * j, word_windows(chunk_at(f2, a))[j]),
            ) by {
            let e = (a + 4 * j, word_windows(chunk_at(f2, a))[j]);
            if a == addr {
                assert(chunk_at(f1, addr) != chunk_at(f2, addr));
                assert(w2[j] != w1[j]);
                let k = choose|k: int| 0 <= k < here.len() && here[k] == e;
                assert(all[k] == e);
            } else {
                assert(addr + 4096 <= a) by {
                    assert(a % 4096 == 0 && addr % 4096 == 0);
                }
                let k = choose|k: int| 0 <= k < rest.len() && rest[k] == e;
                assert(all[here.len() + k] == e);
            }
        }
        assert forall|e: (int, u32)| #[trigger] all.contains(e) implies exists|a: int, j: int|
            addr <= a && #[trigger] word_changed(f1, f2, a, j) && e == (a + 4 * j, word_windows(chunk_at(f2, a))[j]) by {
            let k = choose|k: int| 0 <= k < all.len() && all[k] == e;
            if k < here.len() {
                assert(here[k] == e);
                assert(here.contains(e));
                assert(chunk_at(f1, addr) != chunk_at(f2, addr));
                let j = choose|j: int| 0 <= j < w2.len() && #[trigger] w2[j] != w1[j] && e == (addr + 4 * j, w2[j]);
                assert(word_changed(f1, f2, addr, j));
            } else {
                assert(rest[k - here.len()] == e);
                assert(rest.contains(e));
            }
        }
    } else {
        assert forall|a: int, j: int| addr <= a && #[trigger] word_changed(f1, f2, a, j) implies false by {}
    }
}

/// The listed changes are exactly the changed words: for each chunk and each word of the
/// patched chunk that differs from the base chunk's, whatever its new value, the list holds its
/// address (the chunk's address plus four times the word's byte index) with the patched word;
/// and it holds nothing else.
pub proof fn law_changes_are_the_changed_words(f1: Seq<u8>, f2: Seq<u8>)
    ensures
        forall|a: int, j: int|
            #[trigger] word_changed(f1, f2, a, j) ==> rom_changes_from(f1, f2, 0).contains(
                (a + 4 * j, word_windows(chunk_at(f2, a))[j]),
            ),
        forall|e: (int, u32)|
            #[trigger] rom_changes_from(f1, f2, 0).contains(e) ==> exists|a: int, j: int|
                #[trigger] word_changed(f1, f2, a, j) && e == (a + 4 * j, word_windows(chunk_at(f2, a))[j]),
{
    lemma_rom_changes_from(f1, f2, 0);
}

/// A rom compared with itself has no changed words.
pub proof fn law_identical_roms_unchanged(f: Seq<u8>, addr: int)
    ensures
        rom_changes_from(f, f, addr) == Seq::<(int, u32)>::empty(),
    decreases f.len() + 4096 - addr,
{
    if 0 <= addr < f.len() {
        law_identical_roms_unchanged(f, addr + 4096);
        assert(rom_changes_from(f, f, addr) =~= Seq::<(int, u32)>::empty());
    }
}

/// The lowercase hexadecimal digit of `d`.
pub open spec fn hex_digit(d: nat) -> char {
    if d < 10 {
        (('0' as nat) + d) as char
    } else {
        (('a' as nat) + d - 10) as char
    }
}

/// The lowercase hexadecimal digits of `n`, without leading zeros.
pub open spec fn hex(n: nat) -> Seq<char>
    decreases n,
{
    if n < 16 {
        seq![hex_digit(n)]
    } else {
        hex(n / 16).push(hex_digit(n % 16))
    }
}

fn hex_digit_str(d: usize) -> (s: &'static str)
    requires
        d < 16,
    ensures
        s@ == seq![hex_digit(d as nat)],
{
    proof {
        reveal_strlit("0");
        reveal_strlit("1");
        reveal_strlit("2");
        reveal_strlit("3");
        reveal_strlit("4");
        reveal_strlit("5");
        reveal_strlit("6");
        reveal_strlit("7");
        reveal_strlit("8");
        reveal_strlit("9");
        reveal_strlit("a");
        reveal_strlit("b");
        reveal_strlit("c");
        reveal_strlit("d");
        reveal_strlit("e");
        reveal_strlit("f");
    }
    if d == 0 {
        "0"
    } else if d == 1 {
        "1"
    } else if d == 2 {
        "2"
    } else if d == 3 {
        "3"
    } else if d == 4 {
        "4"
    } else if d == 5 {
        "5"
    } else if d == 6 {
        "6"
    } else if d == 7 {
        "7"
    } else if d == 8 {
        "8"
    } else if d == 9 {
        "9"
    } else if d == 10 {
        "a"
    } else if d == 11 {
        "b"
    } else if d == 12 {
        "c"
    } else if d == 13 {
        "d"
    } else if d == 14 {
        "e"
    } else {
        "f"
    }
}

/// The lowercase hexadecimal representation of `n`.
pub fn hex_string(n: usize) -> (s: String)
    ensures
        s@ == hex(n as nat),
    decreases n,
{
    if n < 16 {
        String::from_str(hex_digit_str(n))
    } else {
        let mut s = hex_string(n / 16);
        s.append(hex_digit_str(n % 16));
        proof {
            assert(s@ =~= hex(n as nat));
        }
        s
    }
}

/// A line of the rom patch: the address and the new word, in lowercase hexadecimal, separated
/// by a comma.
pub fn rom_patch_line(addr: usize, word: u32) -> (r: String)
    ensures
        r@ == hex(addr as nat) + ","@ + hex(word as nat) + "\n"@,
{
    let mut s = hex_string(addr);
    s.append(",");
    let w = hex_string(word as usize);
    s.append(w.as_str());
    s.append("\n");
    s
}

} // verus!
