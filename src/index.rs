use vstd::prelude::*;
use crate::gc::GcBox;

verus! {

/// An allocation record: the half-open word range `[base, base + size)` and
/// whether the block came from the managed allocator. Addresses count words.
#[derive(PartialEq, Eq, Debug, Clone, Copy, Structural)]
pub struct PtrInfo {
    pub base: usize,
    pub size: usize,
    pub is_managed: bool,
}

pub open spec fn contains(r: PtrInfo, w: int) -> bool {
    r.base <= w < r.base + r.size
}

pub open spec fn overlaps(a: PtrInfo, b: PtrInfo) -> bool {
    a.base < b.base + b.size && b.base < a.base + a.size
}

/// `a` lies wholly below `b`.
pub open spec fn below(a: PtrInfo, b: PtrInfo) -> bool {
    a.base + a.size <= b.base
}

/// A registered allocation: its record and its contents.
pub struct Block {
    pub info: PtrInfo,
    pub gcbox: GcBox,
}

pub open spec fn block_ok(b: Block) -> bool {
    &&& b.info.size > 0
    &&& b.info.base + b.info.size <= usize::MAX
    &&& b.gcbox.words@.len() == b.info.size
}

pub open spec fn sorted_disjoint(s: Seq<Block>) -> bool {
    forall|i: int, j: int| 0 <= i < j < s.len() ==> below(#[trigger] s[i].info, #[trigger] s[j].info)
}

pub open spec fn blocks_ok(s: Seq<Block>) -> bool {
    &&& sorted_disjoint(s)
    &&& forall|i: int| 0 <= i < s.len() ==> block_ok(#[trigger] s[i])
}

#[derive(PartialEq, Eq, Debug, Clone, Copy, Structural)]
pub enum IndexError {
    /// The new range overlaps one already registered.
    Overlap,
}

/// The allocation metadata index: every registered block, kept in address
/// order, with pairwise disjoint ranges.
pub struct MetadataIndex {
    pub blocks: Vec<Block>,
}

impl MetadataIndex {
    pub open spec fn wf(&self) -> bool {
        blocks_ok(self.blocks@)
    }

    pub open spec fn spec_len(&self) -> nat {
        self.blocks@.len()
    }

    pub fn new() -> (r: MetadataIndex)
        ensures
            r.wf(),
            r.blocks@.len() == 0,
    {
        MetadataIndex { blocks: Vec::new() }
    }

    pub fn len(&self) -> (r: usize)
        ensures
            r == self.blocks@.len(),
    {
        self.blocks.len()
    }

    pub fn get(&self, k: usize) -> (r: &Block)
        requires
            k < self.blocks@.len(),
        ensures
            *r == self.blocks@[k as int],
    {
        &self.blocks[k]
    }

    /// The position of the block whose range holds the word `w`.
    pub fn find(&self, w: usize) -> (r: Option<usize>)
        requires
            self.wf(),
        ensures
            match r {
                Some(k) => k < self.blocks@.len() && contains(self.blocks@[k as int].info, w as int),
                None => forall|k: int|
                    0 <= k < self.blocks@.len() ==> !contains(#[trigger] self.blocks@[k].info, w as int),
            },
    {
        let mut lo: usize = 0;
        let mut hi: usize = self.blocks.len();
        while lo < hi
            invariant
                self.wf(),
                lo <= hi <= self.blocks@.len(),
                forall|k: int| 0 <= k < lo ==> (#[trigger] self.blocks@[k].info).base + self.blocks@[k].info.size <= w,
                forall|k: int| hi <= k < self.blocks@.len() ==> w < (#[trigger] self.blocks@[k].info).base,
            decreases hi - lo,
        {
            let mid = lo + (hi - lo) / 2;
            let info = self.blocks[mid].info;
            if w < info.base {
                proof {
                    assert forall|k: int| mid <= k < self.blocks@.len() implies w < (#[trigger] self.blocks@[k].info).base by {
                        if k > mid {
                            assert(below(self.blocks@[mid as int].info, self.blocks@[k].info));
                        }
                    }
                }
                hi = mid;
            } else if w - info.base < info.size {
                return Some(mid);
            } else {
                proof {
                    assert forall|k: int| 0 <= k <= mid implies (#[trigger] self.blocks@[k].info).base + self.blocks@[k].info.size <= w by {
                        if k < mid {
                            assert(below(self.blocks@[k].info, self.blocks@[mid as int].info));
                        }
                    }
                }
                lo = mid + 1;
            }
        }
        None
    }

    /// Registers a block, keeping address order. Fails exactly when the
    /// block's range overlaps a registered one.
    pub fn insert(&mut self, block: Block) -> (r: Result<usize, IndexError>)
        requires
            old(self).wf(),
            block_ok(block),
        ensures
            final(self).wf(),
            match r {
                Ok(k) => {
                    &&& forall|i: int| 0 <= i < old(self).blocks@.len()
                        ==> !overlaps(#[trigger] old(self).blocks@[i].info, block.info)
                    &&& k <= old(self).blocks@.len()
                    &&& final(self).blocks@ == old(self).blocks@.insert(k as int, block)
                },
                Err(e) => {
                    &&& e == IndexError::Overlap
                    &&& exists|i: int| 0 <= i < old(self).blocks@.len()
                        && overlaps(#[trigger] old(self).blocks@[i].info, block.info)
                    &&& final(self).blocks@ == old(self).blocks@
                },
            },
    {
        let info = block.info;
        let mut k: usize = 0;
        let mut i: usize = 0;
        let n = self.blocks.len();
        while i < n
            invariant
                n == self.blocks@.len(),
                self.wf(),
                block_ok(block),
                info == block.info,
                k <= i <= n,
                forall|j: int| 0 <= j < i ==> !overlaps(#[trigger] self.blocks@[j].info, info),
                forall|j: int| 0 <= j < k ==> (#[trigger] self.blocks@[j].info).base < info.base,
                forall|j: int| k <= j < i ==> (#[trigger] self.blocks@[j].info).base >= info.base,
            decreases n - i,
        {
            let b = self.blocks[i].info;
            if b.base < info.base + info.size && info.base < b.base + b.size {
                return Err(IndexError::Overlap);
            }
            if b.base < info.base {
                proof {
                    assert forall|j: int| k <= j < i implies (#[trigger] self.blocks@[j].info).base < info.base by {
                        assert(below(self.blocks@[j].info, self.blocks@[i as int].info));
                    }
                }
                k = i + 1;
            }
            i = i + 1;
        }
        let ghost pre = self.blocks@;
        self.blocks.insert(k, block);
        proof {
            let s = self.blocks@;
            assert forall|a: int, b: int| 0 <= a < b < s.len() implies below(#[trigger] s[a].info, #[trigger] s[b].info) by {
                if a < k && b < k {
                    assert(below(pre[a].info, pre[b].info));
                } else if a < k && b == k {
                    assert(!overlaps(pre[a].info, info));
                } else if a < k {
                    assert(below(pre[a].info, pre[b - 1].info));
                } else if a == k {
                    assert(!overlaps(pre[b - 1].info, info));
                } else {
                    assert(below(pre[a - 1].info, pre[b - 1].info));
                }
            }
            assert forall|a: int| 0 <= a < s.len() implies block_ok(#[trigger] s[a]) by {
                if a < k {
                    assert(block_ok(pre[a]));
                } else if a > k {
                    assert(block_ok(pre[a - 1]));
                }
            }
        }
        Ok(k)
    }

    /// Takes out the block at position `k`.
    pub fn remove_at(&mut self, k: usize) -> (r: Block)
        requires
            old(self).wf(),
            k < old(self).blocks@.len(),
        ensures
            final(self).wf(),
            r == old(self).blocks@[k as int],
            final(self).blocks@ == old(self).blocks@.remove(k as int),
    {
        let ghost pre = self.blocks@;
        let r = self.blocks.remove(k);
        proof {
            let s = self.blocks@;
            assert forall|a: int, b: int| 0 <= a < b < s.len() implies below(#[trigger] s[a].info, #[trigger] s[b].info) by {
                let a0 = if a < k { a } else { a + 1 };
                let b0 = if b < k { b } else { b + 1 };
                assert(below(pre[a0].info, pre[b0].info));
            }
            assert forall|a: int| 0 <= a < s.len() implies block_ok(#[trigger] s[a]) by {
                let a0 = if a < k { a } else { a + 1 };
                assert(block_ok(pre[a0]));
            }
        }
        r
    }

    /// Takes out the block that starts exactly at `base`, if there is one.
    pub fn remove(&mut self, base: usize) -> (r: Option<Block>)
        requires
            old(self).wf(),
        ensures
            final(self).wf(),
            match r {
                Some(b) => exists|k: int|
                    0 <= k < old(self).blocks@.len() && (#[trigger] old(self).blocks@[k]).info.base == base
                        && b == old(self).blocks@[k] && final(self).blocks@ == old(self).blocks@.remove(k),
                None => {
                    &&& forall|k: int| 0 <= k < old(self).blocks@.len() ==> (#[trigger] old(self).blocks@[k]).info.base != base
                    &&& final(self).blocks@ == old(self).blocks@
                },
            },
    {
        match self.find(base) {
            Some(k) => {
                if self.blocks[k].info.base == base {
                    let ghost pre = self.blocks@;
                    let b = self.remove_at(k);
                    assert(pre[k as int].info.base == base);
                    Some(b)
                } else {
                    proof {
                        assert forall|j: int| 0 <= j < self.blocks@.len() implies (#[trigger] self.blocks@[j]).info.base != base by {
                            if j < k {
                                assert(below(self.blocks@[j].info, self.blocks@[k as int].info));
                            } else if j > k {
                                assert(below(self.blocks@[k as int].info, self.blocks@[j].info));
                            }
                        }
                    }
                    None
                }
            },
            None => {
                proof {
                    assert forall|j: int| 0 <= j < self.blocks@.len() implies (#[trigger] self.blocks@[j]).info.base != base by {
                        assert(block_ok(self.blocks@[j]));
                    }
                }
                None
            },
        }
    }
}

} // verus!

verus! {

impl MetadataIndex {
    fn placeholder() -> (r: Block) {
        Block {
            info: PtrInfo { base: 0, size: 0, is_managed: false },
            gcbox: GcBox::new(crate::gc::BlockMetadata { mark_bit: false, dropped: false, drop_vptr: 0 }, 0, Vec::new()),
        }
    }

    /// Replaces the header of the block at position `k`.
    pub fn set_header(&mut self, k: usize, header: crate::gc::BlockMetadata)
        requires
            old(self).wf(),
            k < old(self).blocks@.len(),
            old(self).blocks@[k as int].gcbox.header.dropped ==> header.dropped,
        ensures
            final(self).wf(),
            final(self).blocks@ == old(self).blocks@.update(
                k as int,
                (Block { gcbox: GcBox { header, ..old(self).blocks@[k as int].gcbox }, ..old(self).blocks@[k as int] }),
            ),
    {
        let ghost pre = self.blocks@;
        let mut b = Self::placeholder();
        self.blocks.set_and_swap(k, &mut b);
        b.gcbox.set_metadata(header);
        self.blocks.set_and_swap(k, &mut b);
        proof {
            let s = self.blocks@;
            assert forall|a: int, c: int| 0 <= a < c < s.len() implies below(#[trigger] s[a].info, #[trigger] s[c].info) by {
                assert(below(pre[a].info, pre[c].info));
            }
            assert forall|a: int| 0 <= a < s.len() implies block_ok(#[trigger] s[a]) by {
                assert(block_ok(pre[a]));
            }
        }
    }

    /// Overwrites word `j` of the block at position `k`.
    pub fn set_word(&mut self, k: usize, j: usize, value: usize)
        requires
            old(self).wf(),
            k < old(self).blocks@.len(),
            j < old(self).blocks@[k as int].gcbox.words@.len(),
        ensures
            final(self).wf(),
            final(self).blocks@.len() == old(self).blocks@.len(),
            forall|i: int| 0 <= i < old(self).blocks@.len() && i != k ==> #[trigger] final(self).blocks@[i] == old(self).blocks@[i],
            final(self).blocks@[k as int].info == old(self).blocks@[k as int].info,
            final(self).blocks@[k as int].gcbox.header == old(self).blocks@[k as int].gcbox.header,
            final(self).blocks@[k as int].gcbox.type_tag == old(self).blocks@[k as int].gcbox.type_tag,
            final(self).blocks@[k as int].gcbox.words@ == old(self).blocks@[k as int].gcbox.words@.update(j as int, value),
    {
        let ghost pre = self.blocks@;
        let mut b = Self::placeholder();
        self.blocks.set_and_swap(k, &mut b);
        b.gcbox.words.set(j, value);
        self.blocks.set_and_swap(k, &mut b);
        proof {
            let s = self.blocks@;
            assert forall|a: int, c: int| 0 <= a < c < s.len() implies below(#[trigger] s[a].info, #[trigger] s[c].info) by {
                assert(below(pre[a].info, pre[c].info));
            }
            assert forall|a: int| 0 <= a < s.len() implies block_ok(#[trigger] s[a]) by {
                assert(block_ok(pre[a]));
            }
        }
    }
}

} // verus!
