use vstd::prelude::*;
use crate::gc::{BlockMetadata, Colour, GcBox};
use crate::index::{Block, PtrInfo, MetadataIndex, contains, block_ok, below};
use crate::reach::{points_to, root_hit, reachable, lemma_unique_holder, lemma_root_reachable, lemma_extend_path, lemma_closed_holds_reachable, count_false, lemma_count_false_set};

verus! {

#[derive(PartialEq, Eq, Debug, Clone, Copy, Structural)]
pub enum CollectorState {
    Ready,
    RootScanning,
    Marking,
    Sweeping,
}

/// Switches that turn the mark and the sweep phase of a cycle on or off.
#[derive(PartialEq, Eq, Debug, Clone, Copy, Structural)]
pub struct DebugFlags {
    pub mark_phase: bool,
    pub sweep_phase: bool,
}

impl DebugFlags {
    /// Both phases on: a full cycle.
    pub fn new() -> (r: DebugFlags)
        ensures
            r.mark_phase && r.sweep_phase,
    {
        DebugFlags { mark_phase: true, sweep_phase: true }
    }

    pub fn mark_phase(self, on: bool) -> (r: DebugFlags)
        ensures
            r == (DebugFlags { mark_phase: on, ..self }),
    {
        DebugFlags { mark_phase: on, ..self }
    }

    pub fn sweep_phase(self, on: bool) -> (r: DebugFlags)
        ensures
            r == (DebugFlags { sweep_phase: on, ..self }),
    {
        DebugFlags { sweep_phase: on, ..self }
    }
}

/// A destructor that the sweep has released: run `drop_vptr` on the payload
/// at `base`.
#[derive(PartialEq, Eq, Debug, Clone, Copy, Structural)]
pub struct Finalizer {
    pub base: usize,
    pub drop_vptr: u64,
}

#[derive(PartialEq, Eq, Debug, Clone, Copy, Structural)]
pub enum AllocError {
    /// The address space has no room for the block.
    Exhausted,
    /// A block must hold at least one word.
    EmptyPayload,
}

/// The collector and the heap it manages. Addresses count words; blocks are
/// placed upward from `next_free`, and a managed payload has its header in
/// the word just below it.
pub struct Collector {
    pub index: MetadataIndex,
    pub state: CollectorState,
    pub current_black: bool,
    pub flags: DebugFlags,
    /// Words allocated through the managed path since the last cycle.
    pub allocated: usize,
    pub threshold: usize,
    pub next_free: usize,
    /// Destructors released by sweeps and not yet taken by the host.
    pub pending: Vec<Finalizer>,
}

/// The block at `q` survives the cycle's tracing: reachable from the roots
/// when the mark phase is on, hit by a root word directly when it is off.
pub open spec fn live(s: Seq<Block>, roots: Seq<usize>, mark: bool, q: int) -> bool {
    if mark {
        reachable(s, roots, q)
    } else {
        root_hit(s, roots, q)
    }
}

pub open spec fn live_set(s: Seq<Block>, roots: Seq<usize>, mark: bool) -> Seq<bool> {
    Seq::new(s.len(), |q: int| live(s, roots, mark, q))
}

/// A block stays in the heap unless the sweep is on and it is a managed
/// block that did not survive tracing.
pub open spec fn kept(b: Block, alive: bool, flags: DebugFlags) -> bool {
    !flags.sweep_phase || !b.info.is_managed || alive
}

/// A managed block is painted black (polarity `c`) when it was traced by an
/// enabled mark phase, white otherwise; other blocks are left as they are.
pub open spec fn painted(b: Block, alive: bool, mark: bool, c: bool) -> Block {
    if b.info.is_managed {
        Block {
            gcbox: GcBox {
                header: BlockMetadata { mark_bit: if mark && alive { c } else { !c }, ..b.gcbox.header },
                ..b.gcbox
            },
            ..b
        }
    } else {
        b
    }
}

/// The blocks from position `i` on, after the sweep.
pub open spec fn swept_from(s: Seq<Block>, alive: Seq<bool>, flags: DebugFlags, c: bool, i: int) -> Seq<Block>
    decreases s.len() - i,
{
    if i >= s.len() || i < 0 {
        Seq::empty()
    } else {
        let rest = swept_from(s, alive, flags, c, i + 1);
        if kept(s[i], alive[i], flags) {
            seq![painted(s[i], alive[i], flags.mark_phase, c)] + rest
        } else {
            rest
        }
    }
}

/// The destructor call that releasing `b` queues.
pub open spec fn finalizer_of(b: Block) -> Finalizer {
    Finalizer { base: b.info.base, drop_vptr: b.gcbox.header.drop_vptr }
}

/// The destructors released by the sweep over positions from `i` on, in the
/// order the sweep releases them (from the top of the heap down).
pub open spec fn released_from(s: Seq<Block>, alive: Seq<bool>, flags: DebugFlags, i: int) -> Seq<Finalizer>
    decreases s.len() - i,
{
    if i >= s.len() || i < 0 {
        Seq::empty()
    } else {
        let rest = released_from(s, alive, flags, i + 1);
        if !kept(s[i], alive[i], flags) && !s[i].gcbox.header.dropped {
            rest.push(finalizer_of(s[i]))
        } else {
            rest
        }
    }
}

impl Collector {
    pub open spec fn wf(&self) -> bool {
        &&& self.index.wf()
        &&& self.state == CollectorState::Ready
        &&& self.allocated <= self.next_free
        &&& forall|i: int| 0 <= i < self.index.blocks@.len()
            ==> (#[trigger] self.index.blocks@[i]).info.base + self.index.blocks@[i].info.size <= self.next_free
    }

    pub fn new(threshold: usize) -> (r: Collector)
        ensures
            r.wf(),
            r.index.blocks@.len() == 0,
            r.threshold == threshold,
            r.flags.mark_phase && r.flags.sweep_phase,
            r.allocated == 0,
            r.pending@.len() == 0,
            r.next_free == 1,
            r.current_black,
    {
        Collector {
            index: MetadataIndex::new(),
            state: CollectorState::Ready,
            current_black: true,
            flags: DebugFlags::new(),
            allocated: 0,
            threshold,
            next_free: 1,
            pending: Vec::new(),
        }
    }
}

} // verus!

verus! {

impl Collector {
    /// Root scanning: every block that holds one of the root words is
    /// reached, and each is put on the worklist once.
    fn scan_roots(&self, roots: &Vec<usize>) -> (r: (Vec<bool>, Vec<usize>))
        requires
            self.index.wf(),
        ensures
            r.0@.len() == self.index.blocks@.len(),
            forall|q: int| 0 <= q < r.0@.len() ==> (r.0@[q] <==> root_hit(self.index.blocks@, roots@, q)),
            forall|q: int| 0 <= q < r.0@.len() && r.0@[q] ==> r.1@.contains(q as usize),
            forall|i: int| 0 <= i < r.1@.len() ==> (#[trigger] r.1@[i]) < r.0@.len() && r.0@[r.1@[i] as int],
    {
        let ghost s = self.index.blocks@;
        let n = self.index.len();
        let mut reached: Vec<bool> = vec![false; n];
        let mut worklist: Vec<usize> = Vec::new();
        let mut i: usize = 0;
        while i < roots.len()
            invariant
                self.index.wf(),
                s == self.index.blocks@,
                n == s.len(),
                i <= roots@.len(),
                reached@.len() == n,
                forall|q: int| 0 <= q < n && reached@[q] ==> root_hit(s, roots@, q),
                forall|q: int| 0 <= q < n && reached@[q] ==> worklist@.contains(q as usize),
                forall|k: int| 0 <= k < worklist@.len() ==> (#[trigger] worklist@[k]) < n && reached@[worklist@[k] as int],
                forall|j: int, q: int| 0 <= j < i && 0 <= q < n && #[trigger] contains(s[q].info, roots@[j] as int) ==> reached@[q],
            decreases roots@.len() - i,
        {
            let w = roots[i];
            match self.index.find(w) {
                Some(q) => {
                    assert(root_hit(s, roots@, q as int));
                    if !reached[q] {
                        let ghost wl_old = worklist@;
                        let ghost r_old = reached@;
                        reached.set(q, true);
                        worklist.push(q);
                        proof {
                            assert forall|x: int| 0 <= x < n && reached@[x] implies worklist@.contains(x as usize) by {
                                if x != q {
                                    assert(r_old[x]);
                                    let k = choose|k: int| 0 <= k < wl_old.len() && wl_old[k] == x as usize;
                                    assert(worklist@[k] == x as usize);
                                } else {
                                    assert(worklist@[wl_old.len() as int] == q);
                                }
                            }
                        }
                    }
                    proof {
                        assert forall|x: int| 0 <= x < n && contains(s[x].info, w as int) implies reached@[x] by {
                            lemma_unique_holder(s, w as int, x, q as int);
                        }
                    }
                },
                None => {},
            }
            i = i + 1;
        }
        proof {
            assert forall|q: int| 0 <= q < n && root_hit(s, roots@, q) implies reached@[q] by {
                let j = choose|j: int| 0 <= j < roots@.len() && contains(s[q].info, #[trigger] roots@[j] as int);
            }
        }
        (reached, worklist)
    }
}

} // verus!

verus! {

impl Collector {
    /// The mark phase: drains the worklist, reaching every block that a word
    /// of a reached block points into. Each block is scanned once.
    fn trace(&self, reached: &mut Vec<bool>, worklist: &mut Vec<usize>, Ghost(roots): Ghost<Seq<usize>>)
        requires
            self.index.wf(),
            old(reached)@.len() == self.index.blocks@.len(),
            forall|q: int| 0 <= q < old(reached)@.len() ==> (old(reached)@[q] <==> root_hit(self.index.blocks@, roots, q)),
            forall|q: int| 0 <= q < old(reached)@.len() && old(reached)@[q] ==> old(worklist)@.contains(q as usize),
            forall|i: int| 0 <= i < old(worklist)@.len()
                ==> (#[trigger] old(worklist)@[i]) < old(reached)@.len() && old(reached)@[old(worklist)@[i] as int],
        ensures
            final(reached)@.len() == self.index.blocks@.len(),
            forall|q: int| 0 <= q < final(reached)@.len() ==> (final(reached)@[q] <==> reachable(self.index.blocks@, roots, q)),
    {
        let ghost s = self.index.blocks@;
        let n_blocks = self.index.len();
        let ghost n = s.len();
        proof {
            assert forall|q: int| 0 <= q < n && reached@[q] implies reachable(s, roots, q) by {
                lemma_root_reachable(s, roots, q);
            }
        }
        while worklist.len() > 0
            invariant
                self.index.wf(),
                s == self.index.blocks@,
                n == s.len(),
                n == n_blocks,
                reached@.len() == n,
                forall|q: int| 0 <= q < n && reached@[q] ==> reachable(s, roots, q),
                forall|q: int| 0 <= q < n && root_hit(s, roots, q) ==> reached@[q],
                forall|i: int| 0 <= i < worklist@.len() ==> (#[trigger] worklist@[i]) < n && reached@[worklist@[i] as int],
                forall|p: int, x: int| 0 <= p < n && 0 <= x < n && reached@[p] && !worklist@.contains(p as usize)
                    && #[trigger] points_to(s, p, x) ==> reached@[x],
            decreases count_false(reached@), worklist@.len(),
        {
            let ghost wl0 = worklist@;
            let ghost cf0 = count_false(reached@);
            let p = worklist.pop().unwrap();
            assert(wl0[wl0.len() - 1] == p);
            let ghost wl1 = worklist@;
            proof {
                assert forall|pp: int, x: int| 0 <= pp < n && 0 <= x < n && pp != p && reached@[pp]
                    && !worklist@.contains(pp as usize) && #[trigger] points_to(s, pp, x) implies reached@[x] by {
                    if wl0.contains(pp as usize) {
                        let k = choose|k: int| 0 <= k < wl0.len() && wl0[k] == pp as usize;
                        assert(wl1 =~= wl0.drop_last());
                        assert(k != wl0.len() - 1);
                        assert(wl1[k] == pp as usize);
                    }
                }
            }
            let blk = self.index.get(p);
            let m = blk.gcbox.words.len();
            let mut j: usize = 0;
            while j < m
                invariant
                    self.index.wf(),
                    s == self.index.blocks@,
                    n == s.len(),
                    n == n_blocks,
                    p < n,
                    *blk == s[p as int],
                    m == blk.gcbox.words@.len(),
                    j <= m,
                    reached@.len() == n,
                    reached@[p as int],
                    forall|q: int| 0 <= q < n && reached@[q] ==> reachable(s, roots, q),
                    forall|q: int| 0 <= q < n && root_hit(s, roots, q) ==> reached@[q],
                    forall|i: int| 0 <= i < worklist@.len() ==> (#[trigger] worklist@[i]) < n && reached@[worklist@[i] as int],
                    forall|i: int| 0 <= i < wl1.len() ==> worklist@[i] == #[trigger] wl1[i],
                    wl1.len() <= worklist@.len(),
                    forall|pp: int, x: int| 0 <= pp < n && 0 <= x < n && pp != p && reached@[pp] && !worklist@.contains(pp as usize)
                        && #[trigger] points_to(s, pp, x) ==> reached@[x],
                    forall|jj: int, x: int| 0 <= jj < j && 0 <= x < n
                        && #[trigger] contains(s[x].info, s[p as int].gcbox.words@[jj] as int) ==> reached@[x],
                    worklist@.len() + count_false(reached@) == wl1.len() + cf0,
                    count_false(reached@) <= cf0,
                decreases m - j,
            {
                let w = blk.gcbox.words[j];
                match self.index.find(w) {
                    Some(q) => {
                        if !reached[q] {
                            proof {
                                assert(points_to(s, p as int, q as int));
                                lemma_extend_path(s, roots, p as int, q as int);
                                lemma_count_false_set(reached@, q as int);
                            }
                            let ghost wl_old = worklist@;
                            reached.set(q, true);
                            worklist.push(q);
                            proof {
                                assert forall|pp: int, x: int| 0 <= pp < n && 0 <= x < n && pp != p && reached@[pp]
                                    && !worklist@.contains(pp as usize) && #[trigger] points_to(s, pp, x) implies reached@[x] by {
                                    assert(worklist@[wl_old.len() as int] == q);
                                    if pp != q {
                                        assert(!wl_old.contains(pp as usize)) by {
                                            if wl_old.contains(pp as usize) {
                                                let k = choose|k: int| 0 <= k < wl_old.len() && wl_old[k] == pp as usize;
                                                assert(worklist@[k] == pp as usize);
                                            }
                                        }
                                    }
                                }
                            }
                        }
                        proof {
                            assert forall|x: int| 0 <= x < n && contains(s[x].info, w as int) implies reached@[x] by {
                                lemma_unique_holder(s, w as int, x, q as int);
                            }
                        }
                    },
                    None => {},
                }
                j = j + 1;
            }
            proof {
                assert forall|pp: int, x: int| 0 <= pp < n && 0 <= x < n && reached@[pp] && !worklist@.contains(pp as usize)
                    && #[trigger] points_to(s, pp, x) implies reached@[x] by {
                    if pp == p {
                        let jj = choose|jj: int| 0 <= jj < s[pp].gcbox.words@.len() && contains(s[x].info, #[trigger] s[pp].gcbox.words@[jj] as int);
                        assert(contains(s[x].info, s[p as int].gcbox.words@[jj] as int));
                    }
                }
            }
        }
        proof {
            assert forall|q: int| 0 <= q < n && reachable(s, roots, q) implies reached@[q] by {
                lemma_closed_holds_reachable(s, roots, reached@, q);
            }
        }
    }
}

} // verus!

verus! {

impl Collector {
    /// The sweep phase, from the top of the heap down: releases the managed
    /// blocks that did not survive (when the sweep is on) and paints the rest
    /// under the polarity `c`.
    fn sweep(&mut self, alive: &Vec<bool>, c: bool)
        requires
            old(self).index.wf(),
            alive@.len() == old(self).index.blocks@.len(),
            forall|i: int| 0 <= i < old(self).index.blocks@.len()
                ==> (#[trigger] old(self).index.blocks@[i]).info.base + old(self).index.blocks@[i].info.size <= old(self).next_free,
        ensures
            final(self).index.wf(),
            final(self).index.blocks@ == swept_from(old(self).index.blocks@, alive@, old(self).flags, c, 0),
            final(self).pending@ == old(self).pending@ + released_from(old(self).index.blocks@, alive@, old(self).flags, 0),
            forall|i: int| 0 <= i < final(self).index.blocks@.len()
                ==> (#[trigger] final(self).index.blocks@[i]).info.base + final(self).index.blocks@[i].info.size <= final(self).next_free,
            final(self).state == old(self).state,
            final(self).current_black == old(self).current_black,
            final(self).flags == old(self).flags,
            final(self).allocated == old(self).allocated,
            final(self).threshold == old(self).threshold,
            final(self).next_free == old(self).next_free,
    {
        let ghost s = self.index.blocks@;
        let ghost p0 = self.pending@;
        let flags = self.flags;
        let mut i: usize = self.index.len();
        proof {
            assert(s.take(i as int) + swept_from(s, alive@, flags, c, i as int) =~= s);
            assert(released_from(s, alive@, flags, i as int) =~= Seq::<Finalizer>::empty());
        }
        while i > 0
            invariant
                self.index.wf(),
                i <= s.len(),
                alive@.len() == s.len(),
                flags == self.flags,
                self.index.blocks@ == s.take(i as int) + swept_from(s, alive@, flags, c, i as int),
                self.pending@ == p0 + released_from(s, alive@, flags, i as int),
                forall|k: int| 0 <= k < self.index.blocks@.len()
                    ==> (#[trigger] self.index.blocks@[k]).info.base + self.index.blocks@[k].info.size <= self.next_free,
                self.state == old(self).state,
                self.current_black == old(self).current_black,
                self.allocated == old(self).allocated,
                self.threshold == old(self).threshold,
                self.next_free == old(self).next_free,
            decreases i,
        {
            i = i - 1;
            let ghost before = self.index.blocks@;
            let ghost rest = swept_from(s, alive@, flags, c, i + 1);
            assert(before[i as int] == s[i as int]);
            let info = self.index.get(i).info;
            let alive_i = alive[i];
            if !flags.sweep_phase || !info.is_managed || alive_i {
                if info.is_managed {
                    let mut h = self.index.get(i).gcbox.header;
                    h.mark_bit = if flags.mark_phase && alive_i { c } else { !c };
                    self.index.set_header(i, h);
                    assert(self.index.blocks@ =~= s.take(i as int) + swept_from(s, alive@, flags, c, i as int));
                } else {
                    assert(self.index.blocks@ =~= s.take(i as int) + swept_from(s, alive@, flags, c, i as int));
                }
            } else {
                let mut blk = self.index.remove_at(i);
                blk.gcbox.set_colour(Colour::White, c);
                if blk.gcbox.begin_drop(c) {
                    self.pending.push(Finalizer { base: blk.info.base, drop_vptr: blk.gcbox.drop_vptr() });
                }
                assert(self.index.blocks@ =~= s.take(i as int) + swept_from(s, alive@, flags, c, i as int));
            }
            proof {
                assert forall|k: int| 0 <= k < self.index.blocks@.len() implies
                    (#[trigger] self.index.blocks@[k]).info.base + self.index.blocks@[k].info.size <= self.next_free by {
                    if k < i {
                        assert(self.index.blocks@[k] == before[k]);
                    } else if self.index.blocks@.len() == before.len() {
                        assert(self.index.blocks@[k].info == before[k].info);
                    } else {
                        assert(self.index.blocks@[k] == before[k + 1]);
                    }
                }
            }
        }
        assert(s.take(0) + swept_from(s, alive@, flags, c, 0) =~= swept_from(s, alive@, flags, c, 0));
    }
}

} // verus!

verus! {

/// What one attempt to leave `Ready` does: the state after it, and whether
/// this caller now runs the cycle.
pub open spec fn begin_outcome(state: CollectorState) -> (CollectorState, bool) {
    if state == CollectorState::Ready {
        (CollectorState::RootScanning, true)
    } else {
        (state, false)
    }
}

/// How many of `n` back-to-back attempts, made while no cycle finishes,
/// get to run a cycle.
pub open spec fn winners(state: CollectorState, n: nat) -> nat
    decreases n,
{
    if n == 0 {
        0
    } else {
        let (next, won) = begin_outcome(state);
        (if won { 1nat } else { 0nat }) + winners(next, (n - 1) as nat)
    }
}

/// Re-entry safety: of `n >= 1` attempts to start a cycle from `Ready`,
/// exactly one runs the cycle and the other `n - 1` return at once.
pub proof fn lemma_one_cycle_per_round(n: nat)
    requires
        n >= 1,
    ensures
        winners(CollectorState::Ready, n) == 1,
{
    assert(winners(CollectorState::RootScanning, (n - 1) as nat) == 0) by {
        lemma_busy_never_wins(CollectorState::RootScanning, (n - 1) as nat);
    }
}

proof fn lemma_busy_never_wins(state: CollectorState, n: nat)
    requires
        state != CollectorState::Ready,
    ensures
        winners(state, n) == 0,
    decreases n,
{
    if n > 0 {
        lemma_busy_never_wins(state, (n - 1) as nat);
    }
}

impl Collector {
    /// The re-entry guard: moves `Ready` to `RootScanning` and says whether
    /// it did; in any other state nothing changes.
    fn try_begin(&mut self) -> (r: bool)
        ensures
            (final(self).state, r) == begin_outcome(old(self).state),
            *final(self) == (Collector { state: final(self).state, ..*old(self) }),
    {
        if self.state == CollectorState::Ready {
            self.state = CollectorState::RootScanning;
            true
        } else {
            false
        }
    }

    /// Runs one collection cycle over the given root words (the spilled
    /// registers and the stack). The traced blocks survive; when the sweep is
    /// on, the other managed blocks are released and their destructors queued;
    /// survivors are painted; then the black polarity flips.
    pub fn collect(&mut self, roots: &Vec<usize>) -> (r: bool)
        requires
            old(self).wf(),
        ensures
            final(self).wf(),
            r,
            final(self).current_black == !old(self).current_black,
            final(self).index.blocks@ == swept_from(
                old(self).index.blocks@,
                live_set(old(self).index.blocks@, roots@, old(self).flags.mark_phase),
                old(self).flags,
                !old(self).current_black,
                0,
            ),
            final(self).pending@ == old(self).pending@ + released_from(
                old(self).index.blocks@,
                live_set(old(self).index.blocks@, roots@, old(self).flags.mark_phase),
                old(self).flags,
                0,
            ),
            final(self).allocated == 0,
            final(self).flags == old(self).flags,
            final(self).threshold == old(self).threshold,
            final(self).next_free == old(self).next_free,
    {
        if !self.try_begin() {
            return false;
        }
        let ghost s = self.index.blocks@;
        let (mut reached, mut worklist) = self.scan_roots(roots);
        self.state = CollectorState::Marking;
        if self.flags.mark_phase {
            self.trace(&mut reached, &mut worklist, Ghost(roots@));
        }
        assert(reached@ =~= live_set(s, roots@, self.flags.mark_phase));
        self.state = CollectorState::Sweeping;
        let c = !self.current_black;
        self.sweep(&reached, c);
        self.current_black = c;
        self.allocated = 0;
        self.state = CollectorState::Ready;
        true
    }
}

} // verus!

verus! {

/// The block that an allocation of `words` at `base` registers.
pub open spec fn new_block(base: usize, words: Vec<usize>, managed: bool, header: BlockMetadata, type_tag: u64) -> Block {
    Block {
        info: PtrInfo { base, size: words@.len() as usize, is_managed: managed },
        gcbox: GcBox { header, type_tag, words },
    }
}

/// There is room for `len` words after `gap` header words above `next_free`.
pub open spec fn fits(next_free: usize, gap: usize, len: nat) -> bool {
    next_free + gap + len <= usize::MAX
}

impl Collector {
    /// Places `words` just above the highest block, `gap` words up.
    fn place(&mut self, words: Vec<usize>, gap: usize, managed: bool, header: BlockMetadata, type_tag: u64)
        -> (r: Result<usize, AllocError>)
        requires
            old(self).wf(),
            gap <= 1,
        ensures
            final(self).wf(),
            words@.len() == 0 ==> r == Err::<usize, AllocError>(AllocError::EmptyPayload),
            words@.len() > 0 && !fits(old(self).next_free, gap, words@.len()) ==> r == Err::<usize, AllocError>(AllocError::Exhausted),
            r.is_err() ==> *final(self) == *old(self),
            words@.len() > 0 && fits(old(self).next_free, gap, words@.len()) ==> {
                &&& r == Ok::<usize, AllocError>((old(self).next_free + gap) as usize)
                &&& final(self).index.blocks@ == old(self).index.blocks@.push(
                    new_block((old(self).next_free + gap) as usize, words, managed, header, type_tag))
                &&& final(self).next_free == old(self).next_free + gap + words@.len()
                &&& *final(self) == (Collector {
                    index: final(self).index,
                    next_free: final(self).next_free,
                    ..*old(self)
                })
            },
    {
        let len = words.len();
        if len == 0 {
            return Err(AllocError::EmptyPayload);
        }
        if self.next_free > usize::MAX - gap || len > usize::MAX - gap - self.next_free {
            return Err(AllocError::Exhausted);
        }
        let base = self.next_free + gap;
        let ghost pre = self.index.blocks@;
        let ghost blk = new_block(base, words, managed, header, type_tag);
        let block = Block {
            info: PtrInfo { base, size: len, is_managed: managed },
            gcbox: GcBox { header, type_tag, words },
        };
        assert(block == blk);
        match self.index.insert(block) {
            Ok(k) => {
                proof {
                    if k < pre.len() {
                        assert(below(self.index.blocks@[k as int].info, self.index.blocks@[k + 1].info));
                        assert(self.index.blocks@[k + 1] == pre[k as int]);
                    }
                    assert(self.index.blocks@ =~= pre.push(blk));
                }
            },
            Err(_) => {
                proof {
                    let i = choose|i: int| 0 <= i < pre.len() && #[trigger] crate::index::overlaps(pre[i].info, blk.info);
                    assert(pre[i].info.base + pre[i].info.size <= self.next_free);
                }
                return Err(AllocError::Exhausted);
            },
        }
        self.next_free = base + len;
        Ok(base)
    }
}

} // verus!

verus! {

/// Some managed block holds `addr` and is black under `current_black`.
pub open spec fn black_at(s: Seq<Block>, current_black: bool, addr: int) -> bool {
    exists|k: int|
        0 <= k < s.len() && contains(#[trigger] s[k].info, addr) && s[k].info.is_managed
            && s[k].gcbox.header.mark_bit == current_black
}

/// The word at `addr`, if a registered block holds that address.
pub open spec fn word_at(s: Seq<Block>, addr: int) -> Option<usize> {
    if exists|k: int| 0 <= k < s.len() && contains(#[trigger] s[k].info, addr) {
        let k = choose|k: int| 0 <= k < s.len() && contains(#[trigger] s[k].info, addr);
        Some(s[k].gcbox.words@[addr - s[k].info.base])
    } else {
        None
    }
}

impl Collector {
    /// Allocates a managed block holding `words`. Its header is white, not
    /// dropped, and records `drop_vptr`; the words count toward the trigger.
    pub fn alloc_managed(&mut self, words: Vec<usize>, type_tag: u64, drop_vptr: u64) -> (r: Result<usize, AllocError>)
        requires
            old(self).wf(),
        ensures
            final(self).wf(),
            words@.len() == 0 ==> r == Err::<usize, AllocError>(AllocError::EmptyPayload),
            words@.len() > 0 && !fits(old(self).next_free, 1, words@.len()) ==> r == Err::<usize, AllocError>(AllocError::Exhausted),
            r.is_err() ==> *final(self) == *old(self),
            words@.len() > 0 && fits(old(self).next_free, 1, words@.len()) ==> {
                &&& r == Ok::<usize, AllocError>((old(self).next_free + 1) as usize)
                &&& final(self).index.blocks@ == old(self).index.blocks@.push(new_block(
                    (old(self).next_free + 1) as usize,
                    words,
                    true,
                    BlockMetadata { mark_bit: !old(self).current_black, dropped: false, drop_vptr },
                    type_tag,
                ))
                &&& final(self).allocated == old(self).allocated + words@.len()
                &&& final(self).next_free == old(self).next_free + 1 + words@.len()
                &&& final(self).current_black == old(self).current_black
                &&& final(self).flags == old(self).flags
                &&& final(self).threshold == old(self).threshold
                &&& final(self).pending == old(self).pending
            },
    {
        let len = words.len();
        let mut header = BlockMetadata::fresh(self.current_black);
        header.drop_vptr = drop_vptr;
        let r = self.place(words, 1, true, header, type_tag);
        if r.is_ok() {
            self.allocated = self.allocated + len;
        }
        r
    }

    /// Registers an ordinary (unmanaged) block: it is scanned for pointers
    /// but never coloured or released.
    pub fn register_unmanaged(&mut self, words: Vec<usize>) -> (r: Result<usize, AllocError>)
        requires
            old(self).wf(),
        ensures
            final(self).wf(),
            words@.len() == 0 ==> r == Err::<usize, AllocError>(AllocError::EmptyPayload),
            words@.len() > 0 && !fits(old(self).next_free, 0, words@.len()) ==> r == Err::<usize, AllocError>(AllocError::Exhausted),
            r.is_err() ==> *final(self) == *old(self),
            words@.len() > 0 && fits(old(self).next_free, 0, words@.len()) ==> {
                &&& r == Ok::<usize, AllocError>(old(self).next_free)
                &&& final(self).index.blocks@ == old(self).index.blocks@.push(new_block(
                    old(self).next_free,
                    words,
                    false,
                    BlockMetadata { mark_bit: false, dropped: false, drop_vptr: 0 },
                    0,
                ))
                &&& final(self).next_free == old(self).next_free + words@.len()
                &&& *final(self) == (Collector { index: final(self).index, next_free: final(self).next_free, ..*old(self) })
            },
    {
        self.place(words, 0, false, BlockMetadata { mark_bit: false, dropped: false, drop_vptr: 0 }, 0)
    }

    /// Enough words have been allocated since the last cycle to start one.
    pub fn collection_due(&self) -> (r: bool)
        ensures
            r == (self.allocated > self.threshold),
    {
        self.allocated > self.threshold
    }

    pub fn set_threshold(&mut self, words: usize)
        ensures
            *final(self) == (Collector { threshold: words, ..*old(self) }),
    {
        self.threshold = words;
    }

    pub fn debug_flags(&mut self, flags: DebugFlags)
        ensures
            *final(self) == (Collector { flags, ..*old(self) }),
    {
        self.flags = flags;
    }

    /// Hands over the destructors released so far, oldest first.
    pub fn take_finalizers(&mut self) -> (r: Vec<Finalizer>)
        ensures
            r@ == old(self).pending@,
            final(self).pending@.len() == 0,
            final(self).index == old(self).index,
            final(self).state == old(self).state,
            final(self).current_black == old(self).current_black,
            final(self).flags == old(self).flags,
            final(self).allocated == old(self).allocated,
            final(self).threshold == old(self).threshold,
            final(self).next_free == old(self).next_free,
    {
        let mut out: Vec<Finalizer> = Vec::new();
        std::mem::swap(&mut out, &mut self.pending);
        out
    }

    /// The managed block that holds `addr` is black.
    pub fn is_black(&self, addr: usize) -> (r: bool)
        requires
            self.wf(),
        ensures
            r == black_at(self.index.blocks@, self.current_black, addr as int),
    {
        match self.index.find(addr) {
            Some(k) => {
                let b = self.index.get(k);
                let r = b.info.is_managed && b.gcbox.header.mark_bit == self.current_black;
                proof {
                    let s = self.index.blocks@;
                    if black_at(s, self.current_black, addr as int) {
                        let j = choose|j: int| 0 <= j < s.len() && contains(#[trigger] s[j].info, addr as int) && s[j].info.is_managed
                            && s[j].gcbox.header.mark_bit == self.current_black;
                        lemma_unique_holder(s, addr as int, j, k as int);
                    }
                }
                r
            },
            None => false,
        }
    }

    /// The word stored at `addr`.
    pub fn load(&self, addr: usize) -> (r: Option<usize>)
        requires
            self.wf(),
        ensures
            r == word_at(self.index.blocks@, addr as int),
    {
        match self.index.find(addr) {
            Some(k) => {
                let b = self.index.get(k);
                proof {
                    let s = self.index.blocks@;
                    let j = choose|j: int| 0 <= j < s.len() && contains(#[trigger] s[j].info, addr as int);
                    lemma_unique_holder(s, addr as int, j, k as int);
                    assert(block_ok(s[k as int]));
                }
                Some(b.gcbox.words[addr - b.info.base])
            },
            None => None,
        }
    }

    /// Writes `value` at `addr`; `false`, with nothing changed, when no
    /// registered block holds that address.
    pub fn store(&mut self, addr: usize, value: usize) -> (r: bool)
        requires
            old(self).wf(),
        ensures
            final(self).wf(),
            r == word_at(old(self).index.blocks@, addr as int).is_some(),
            word_at(final(self).index.blocks@, addr as int) == if r { Some(value) } else { None },
            forall|a: int| a != addr ==> word_at(final(self).index.blocks@, a) == word_at(old(self).index.blocks@, a),
            forall|k: int| 0 <= k < old(self).index.blocks@.len() ==>
                (#[trigger] final(self).index.blocks@[k]).info == old(self).index.blocks@[k].info
                && final(self).index.blocks@[k].gcbox.header == old(self).index.blocks@[k].gcbox.header,
            final(self).index.blocks@.len() == old(self).index.blocks@.len(),
            *final(self) == (Collector { index: final(self).index, ..*old(self) }),
    {
        match self.index.find(addr) {
            Some(k) => {
                let ghost s = self.index.blocks@;
                let base = self.index.get(k).info.base;
                proof {
                    assert(block_ok(s[k as int]));
                    let j = choose|j: int| 0 <= j < s.len() && contains(#[trigger] s[j].info, addr as int);
                    lemma_unique_holder(s, addr as int, j, k as int);
                }
                self.index.set_word(k, addr - base, value);
                proof {
                    let t = self.index.blocks@;
                    assert(contains(t[k as int].info, addr as int));
                    let j = choose|j: int| 0 <= j < t.len() && contains(#[trigger] t[j].info, addr as int);
                    lemma_unique_holder(t, addr as int, j, k as int);
                    assert forall|a: int| a != addr implies word_at(t, a) == word_at(s, a) by {
                        if exists|x: int| 0 <= x < s.len() && contains(#[trigger] s[x].info, a) {
                            let x = choose|x: int| 0 <= x < s.len() && contains(#[trigger] s[x].info, a);
                            assert(contains(t[x].info, a));
                            let y = choose|y: int| 0 <= y < t.len() && contains(#[trigger] t[y].info, a);
                            lemma_unique_holder(t, a, x, y);
                        } else {
                            assert forall|x: int| 0 <= x < t.len() implies !contains(#[trigger] t[x].info, a) by {
                                assert(t[x].info == s[x].info);
                            }
                        }
                    }
                }
                true
            },
            None => false,
        }
    }
}

} // verus!
