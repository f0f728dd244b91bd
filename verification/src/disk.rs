//! A disk laid out as alternating file and free blocks, compacted in two
//! styles: block by block from the rear into the leftmost free space, or
//! whole files into the first free span that fits.

use vstd::prelude::*;

verus! {

/// One block of the disk map: a stretch of file cells with an id, or a
/// stretch of free cells.
#[derive(Debug, Clone, Copy, PartialEq, Eq, Structural)]
pub enum Block {
    File { id: usize, size: usize },
    Free { size: usize },
}

/// The cell count of a block.
pub open spec fn bsize(b: Block) -> nat {
    match b {
        Block::File { size, .. } => size as nat,
        Block::Free { size } => size as nat,
    }
}

/// The same block, one cell wide.
pub open spec fn unit_of(b: Block) -> Block {
    match b {
        Block::File { id, .. } => Block::File { id, size: 1 },
        Block::Free { .. } => Block::Free { size: 1 },
    }
}

/// Every block split into one-cell blocks, in place.
pub open spec fn decomp_spec(s: Seq<Block>) -> Seq<Block>
    decreases s.len(),
{
    if s.len() == 0 {
        Seq::empty()
    } else {
        Seq::new(bsize(s[0]), |i: int| unit_of(s[0])) + decomp_spec(s.skip(1))
    }
}

/// The index of the last file block, if any.
pub open spec fn last_file(t: Seq<Block>) -> Option<int>
    decreases t.len(),
{
    if t.len() == 0 {
        None
    } else if t.last() is File {
        Some(t.len() - 1)
    } else {
        last_file(t.drop_last())
    }
}

proof fn lemma_last_file_bounds(t: Seq<Block>)
    ensures
        match last_file(t) {
            Some(j) => 0 <= j < t.len() && t[j] is File,
            None => true,
        },
    decreases t.len(),
{
    if t.len() > 0 && !(t.last() is File) {
        lemma_last_file_bounds(t.drop_last());
        if last_file(t.drop_last()) is Some {
            let j = last_file(t.drop_last())->0;
            assert(t.drop_last()[j] == t[j]);
        }
    }
}

/// Locates the last file block from a rearward scan: no file at `j` or
/// beyond, and a file just before `j` unless `j` is zero.
proof fn lemma_last_file_at(t: Seq<Block>, j: int)
    requires
        0 <= j <= t.len(),
        forall|k: int| j <= k < t.len() ==> !((#[trigger] t[k]) is File),
        j == 0 || t[j - 1] is File,
    ensures
        last_file(t) == (if j == 0 {
            Option::<int>::None
        } else {
            Some(j - 1)
        }),
    decreases t.len(),
{
    if t.len() > 0 {
        if j == t.len() {
        } else {
            assert(!(t.last() is File));
            assert forall|k: int| j <= k < t.drop_last().len() implies !((#[trigger] t.drop_last()[
            k]) is File) by {
                assert(t.drop_last()[k] == t[k]);
            }
            if j > 0 {
                assert(t.drop_last()[j - 1] == t[j - 1]);
            }
            lemma_last_file_at(t.drop_last(), j);
        }
    }
}

#[via_fn]
proof fn compact_spec_dec(s: Seq<Block>) {
    lemma_last_file_bounds(s.skip(1));
}

/// Rear-to-front compaction of one-cell blocks: files at the front stay,
/// each free cell takes the rearmost remaining file, and the trailing free
/// cells vanish.
pub open spec fn compact_spec(s: Seq<Block>) -> Seq<Block>
    decreases s.len() via compact_spec_dec
{
    if s.len() == 0 {
        Seq::empty()
    } else if s[0] is File {
        seq![s[0]] + compact_spec(s.skip(1))
    } else {
        let t = s.skip(1);
        match last_file(t) {
            None => Seq::empty(),
            Some(j) => seq![t[j]] + compact_spec(t.take(j)),
        }
    }
}

/// The checksum of a laid-out disk: each file cell's id times its position.
pub open spec fn checksum_spec(s: Seq<Block>) -> int
    decreases s.len(),
{
    if s.len() == 0 {
        0
    } else {
        checksum_spec(s.drop_last()) + (match s.last() {
            Block::File { id, .. } => id * (s.len() - 1),
            Block::Free { .. } => 0,
        })
    }
}

/// Every file-cell product fits the machine word.
pub open spec fn terms_ok(s: Seq<Block>) -> bool {
    forall|i: int|
        0 <= i < s.len() ==> (match #[trigger] s[i] {
            Block::File { id, .. } => id * i <= usize::MAX,
            Block::Free { .. } => true,
        })
}

/// Every prefix checksum fits the machine word.
pub open spec fn sums_ok(s: Seq<Block>) -> bool {
    forall|k: int| 0 <= k <= s.len() ==> 0 <= #[trigger] checksum_spec(s.take(k)) <= usize::MAX
}

/// One rearward sweep of the whole-file compaction: from index `i` down,
/// each file no larger than the remaining free span moves out (a same-sized
/// free block taking its place) and joins the taken list in sweep order.
pub open spec fn scan_back(d: Seq<Block>, i: int, free: nat) -> (Seq<Block>, nat, Seq<Block>)
    decreases i + 1,
{
    if i < 0 || i >= d.len() {
        (d, free, Seq::empty())
    } else {
        let step = match d[i] {
            Block::File { id, size } => if size <= free {
                (d.update(i, Block::Free { size }), (free - size) as nat, seq![d[i]])
            } else {
                (d, free, Seq::<Block>::empty())
            },
            Block::Free { .. } => (d, free, Seq::<Block>::empty()),
        };
        let rest = scan_back(step.0, i - 1, step.1);
        (rest.0, rest.1, step.2 + rest.2)
    }
}

proof fn lemma_scan_back_len(d: Seq<Block>, i: int, free: nat)
    ensures
        scan_back(d, i, free).0.len() == d.len(),
        scan_back(d, i, free).1 <= free,
    decreases i + 1,
{
    if 0 <= i < d.len() {
        match d[i] {
            Block::File { id, size } => {
                if size <= free {
                    lemma_scan_back_len(d.update(i, Block::Free { size }), i - 1, (free - size) as nat);
                } else {
                    lemma_scan_back_len(d, i - 1, free);
                }
            },
            Block::Free { .. } => {
                lemma_scan_back_len(d, i - 1, free);
            },
        }
    }
}

#[via_fn]
proof fn defrag_blocks_dec(d: Seq<Block>, acc: Seq<Block>) {
    if d.len() > 0 {
        match d[0] {
            Block::File { .. } => {},
            Block::Free { size } => {
                lemma_scan_back_len(d.skip(1), d.skip(1).len() - 1, size as nat);
            },
        }
    }
}

/// Whole-file compaction of the block list: files at the front stay; each
/// free span is filled, rear first, with the files that still fit, and any
/// room left over stays free.
pub open spec fn defrag_blocks(d: Seq<Block>, acc: Seq<Block>) -> Seq<Block>
    decreases d.len() via defrag_blocks_dec
{
    if d.len() == 0 {
        acc
    } else {
        match d[0] {
            Block::File { .. } => defrag_blocks(d.skip(1), acc.push(d[0])),
            Block::Free { size } => {
                let t = d.skip(1);
                let swept = scan_back(t, t.len() - 1, size as nat);
                let acc2 = acc + swept.2;
                if swept.1 > 0 {
                    defrag_blocks(swept.0, acc2.push(Block::Free { size: swept.1 as usize }))
                } else {
                    defrag_blocks(swept.0, acc2)
                }
            },
        }
    }
}

/// The disk map: a sequence of blocks, front to rear.
pub struct DiskMap {
    pub disk: Vec<Block>,
}

impl DiskMap {
    /// Splits every block into one-cell blocks.
    pub fn decompress(self) -> (r: Self)
        ensures
            r.disk@ == decomp_spec(self.disk@),
    {
        let n = self.disk.len();
        let mut out: Vec<Block> = Vec::new();
        proof {
            assert(self.disk@.skip(0) =~= self.disk@);
            assert(out@ + decomp_spec(self.disk@) =~= decomp_spec(self.disk@));
        }
        for i in 0..n
            invariant
                n == self.disk@.len(),
                decomp_spec(self.disk@) == out@ + decomp_spec(self.disk@.skip(i as int)),
        {
            let b = self.disk[i];
            let size = match b {
                Block::File { size, .. } => size,
                Block::Free { size } => size,
            };
            let unit = match b {
                Block::File { id, .. } => Block::File { id, size: 1 },
                Block::Free { .. } => Block::Free { size: 1 },
            };
            let ghost prev = out@;
            for k in 0..size
                invariant
                    out@ == prev + Seq::new(k as nat, |j: int| unit),
                    unit == unit_of(self.disk@[i as int]),
                decreases size - k,
            {
                out.push(unit);
                proof {
                    assert(prev + Seq::new((k + 1) as nat, |j: int| unit) =~= (prev + Seq::new(
                        k as nat,
                        |j: int| unit,
                    )).push(unit));
                }
            }
            proof {
                assert(self.disk@.skip(i as int)[0] == b);
                assert(self.disk@.skip(i as int).skip(1) =~= self.disk@.skip(i + 1));
                assert(Seq::new(size as nat, |j: int| unit) =~= Seq::new(
                    bsize(b),
                    |j: int| unit_of(b),
                ));
                assert(out@ + decomp_spec(self.disk@.skip(i + 1)) =~= prev + (Seq::new(
                    bsize(b),
                    |j: int| unit_of(b),
                ) + decomp_spec(self.disk@.skip(i + 1))));
            }
        }
        proof {
            assert(self.disk@.skip(n as int) =~= Seq::<Block>::empty());
            assert(out@ + Seq::<Block>::empty() =~= out@);
        }
        DiskMap { disk: out }
    }

    /// Rear-to-front compaction: walk the disk forward, and fill each free
    /// cell with the rearmost file cell still unplaced. Empties this map.
    pub fn defragment(&mut self) -> (r: Self)
        ensures
            r.disk@ == compact_spec(old(self).disk@),
            final(self).disk@.len() == 0,
    {
        let mut disk: Vec<Block> = Vec::new();
        proof {
            assert(disk@ + compact_spec(self.disk@) =~= compact_spec(self.disk@));
        }
        while self.disk.len() > 0
            invariant
                compact_spec(old(self).disk@) == disk@ + compact_spec(self.disk@),
            decreases self.disk@.len(),
        {
            let ghost cur = self.disk@;
            let block = self.disk.remove(0);
            proof {
                assert(self.disk@ =~= cur.skip(1));
            }
            match block {
                Block::File { .. } => {
                    let ghost prev = disk@;
                    disk.push(block);
                    proof {
                        assert(disk@ =~= prev + seq![block]);
                        assert(prev + (seq![block] + compact_spec(cur.skip(1))) =~= (prev + seq![
                            block,
                        ]) + compact_spec(cur.skip(1)));
                    }
                },
                Block::Free { .. } => {
                    let ghost t = self.disk@;
                    // find the rearmost file block still on the disk
                    let mut j = self.disk.len();
                    while j > 0 && !(matches!(self.disk[j - 1], Block::File { .. }))
                        invariant
                            self.disk@ == t,
                            j <= t.len(),
                            forall|k: int| j <= k < t.len() ==> !((#[trigger] t[k]) is File),
                        decreases j,
                    {
                        j = j - 1;
                    }
                    proof {
                        lemma_last_file_at(t, j as int);
                    }
                    if j == 0 {
                        // only free blocks remain: they are all discarded
                        self.disk.clear();
                        proof {
                            assert(compact_spec(cur) == Seq::<Block>::empty());
                            assert(compact_spec(self.disk@) == Seq::<Block>::empty());
                            assert(disk@ + Seq::<Block>::empty() =~= disk@);
                        }
                    } else {
                        let b2 = self.disk[j - 1];
                        let ghost prev = disk@;
                        disk.push(b2);
                        // everything at and past the file leaves the disk
                        while self.disk.len() >= j
                            invariant
                                j >= 1,
                                j - 1 <= self.disk@.len() <= t.len(),
                                self.disk@ == t.take(self.disk@.len() as int),
                            decreases self.disk@.len(),
                        {
                            let ghost before = self.disk@;
                            self.disk.pop();
                            proof {
                                assert(self.disk@ =~= before.drop_last());
                                assert(t.take((before.len() - 1) as int) =~= before.drop_last());
                            }
                        }
                        proof {
                            assert(self.disk@ =~= t.take(j - 1));
                            assert(compact_spec(cur) == seq![t[j - 1]] + compact_spec(
                                t.take(j - 1),
                            ));
                            assert(disk@ =~= prev + seq![b2]);
                            assert(prev + (seq![b2] + compact_spec(t.take(j - 1))) =~= (prev
                                + seq![b2]) + compact_spec(t.take(j - 1)));
                        }
                    }
                },
            }
        }
        proof {
            assert(self.disk@ =~= Seq::<Block>::empty());
            assert(disk@ + Seq::<Block>::empty() =~= disk@);
        }
        DiskMap { disk }
    }

    /// Whole-file compaction: walk the disk forward; for each free span,
    /// sweep the disk from the rear and move every file that still fits into
    /// the remaining span, leaving a same-sized free block in its place.
    /// Empties this map.
    pub fn defragment_by_block(&mut self) -> (r: Self)
        ensures
            r.disk@ == defrag_blocks(old(self).disk@, Seq::empty()),
            final(self).disk@.len() == 0,
    {
        let mut defragged: Vec<Block> = Vec::new();
        while self.disk.len() > 0
            invariant
                defrag_blocks(old(self).disk@, Seq::empty()) == defrag_blocks(
                    self.disk@,
                    defragged@,
                ),
            decreases self.disk@.len(),
        {
            let ghost cur = self.disk@;
            let block = self.disk.remove(0);
            proof {
                assert(self.disk@ =~= cur.skip(1));
            }
            match block {
                Block::File { .. } => {
                    defragged.push(block);
                },
                Block::Free { size } => {
                    let mut free_size = size;
                    let ghost t0 = self.disk@;
                    let ghost defr0 = defragged@;
                    let ghost taken0: Seq<Block> = Seq::empty();
                    let ghost mut taken = taken0;
                    let mut i = self.disk.len();
                    proof {
                        lemma_scan_back_len(t0, t0.len() - 1, size as nat);
                    }
                    while i > 0
                        invariant
                            i <= self.disk@.len(),
                            self.disk@.len() == t0.len(),
                            free_size <= size,
                            defragged@ == defr0 + taken,
                            scan_back(t0, t0.len() - 1, size as nat) == ({
                                let inner = scan_back(self.disk@, i - 1, free_size as nat);
                                (inner.0, inner.1, taken + inner.2)
                            }),
                        decreases i,
                    {
                        i = i - 1;
                        let ghost before = self.disk@;
                        let ghost taken_before = taken;
                        if let Block::File { size: file_size, .. } = self.disk[i] {
                            if file_size <= free_size {
                                let moved = self.disk[i];
                                defragged.push(moved);
                                self.disk.remove(i);
                                self.disk.insert(i, Block::Free { size: file_size });
                                free_size = free_size - file_size;
                                proof {
                                    taken = taken.push(moved);
                                    assert(self.disk@ =~= before.update(
                                        i as int,
                                        Block::Free { size: file_size },
                                    ));
                                    assert(defragged@ =~= defr0 + taken);
                                    assert(taken_before + (seq![moved] + scan_back(
                                        self.disk@,
                                        i - 1,
                                        free_size as nat,
                                    ).2) =~= taken + scan_back(self.disk@, i - 1, free_size as nat).2);
                                }
                            }
                        }
                    }
                    proof {
                        assert(scan_back(self.disk@, -1, free_size as nat) == (
                        self.disk@,
                        free_size as nat,
                        Seq::<Block>::empty(),
                        ));
                        assert(taken + Seq::<Block>::empty() =~= taken);
                        assert(scan_back(t0, t0.len() - 1, size as nat) == (
                        self.disk@,
                        free_size as nat,
                        taken,
                        ));
                    }
                    if free_size > 0 {
                        defragged.push(Block::Free { size: free_size });
                    }
                },
            }
        }
        proof {
            assert(self.disk@ =~= Seq::<Block>::empty());
        }
        DiskMap { disk: defragged }
    }

    /// The checksum: the sum over every file cell of its id times its
    /// position. The bounds keep the sum inside the machine word.
    pub fn checksum(&self) -> (r: usize)
        requires
            terms_ok(self.disk@),
            sums_ok(self.disk@),
        ensures
            r == checksum_spec(self.disk@),
    {
        let n = self.disk.len();
        let mut sum: usize = 0;
        for i in 0..n
            invariant
                n == self.disk@.len(),
                terms_ok(self.disk@),
                sums_ok(self.disk@),
                sum == checksum_spec(self.disk@.take(i as int)),
        {
            proof {
                assert(self.disk@.take(i + 1).drop_last() =~= self.disk@.take(i as int));
                assert(self.disk@.take(i + 1).last() == self.disk@[i as int]);
                assert(0 <= checksum_spec(self.disk@.take(i + 1)) <= usize::MAX);
            }
            if let Block::File { id, .. } = self.disk[i] {
                sum = sum + id * i;
            }
        }
        proof {
            assert(self.disk@.take(n as int) =~= self.disk@);
        }
        sum
    }
}

} // verus!
