use vstd::prelude::*;
use crate::collector::{black_at, finalizer_of, kept, live, live_set, painted, released_from, swept_from, DebugFlags};
use crate::index::{Block, MetadataIndex, blocks_ok, block_ok, below, contains, overlaps};
use crate::reach::reachable;

verus! {

/// Each block left by the sweep over positions from `i` on is the painted
/// copy of a block kept from there.
pub proof fn lemma_swept_origin(s: Seq<Block>, alive: Seq<bool>, flags: DebugFlags, c: bool, i: int)
    requires
        0 <= i,
        alive.len() == s.len(),
    ensures
        forall|j: int| 0 <= j < swept_from(s, alive, flags, c, i).len() ==> exists|q: int|
            i <= q < s.len() && kept(s[q], alive[q], flags)
                && #[trigger] swept_from(s, alive, flags, c, i)[j] == painted(s[q], alive[q], flags.mark_phase, c),
    decreases s.len() - i,
{
    if i < s.len() {
        lemma_swept_origin(s, alive, flags, c, i + 1);
        let rest = swept_from(s, alive, flags, c, i + 1);
        let all = swept_from(s, alive, flags, c, i);
        assert forall|j: int| 0 <= j < all.len() implies exists|q: int|
            i <= q < s.len() && kept(s[q], alive[q], flags)
                && #[trigger] all[j] == painted(s[q], alive[q], flags.mark_phase, c) by {
            if kept(s[i], alive[i], flags) {
                if j == 0 {
                    assert(all[j] == painted(s[i], alive[i], flags.mark_phase, c));
                } else {
                    assert(all[j] == rest[j - 1]);
                    let q = choose|q: int| i + 1 <= q < s.len() && kept(s[q], alive[q], flags)
                        && #[trigger] rest[j - 1] == painted(s[q], alive[q], flags.mark_phase, c);
                    assert(all[j] == painted(s[q], alive[q], flags.mark_phase, c));
                }
            } else {
                assert(all[j] == rest[j]);
                let q = choose|q: int| i + 1 <= q < s.len() && kept(s[q], alive[q], flags)
                    && #[trigger] rest[j] == painted(s[q], alive[q], flags.mark_phase, c);
                assert(all[j] == painted(s[q], alive[q], flags.mark_phase, c));
            }
        }
    }
}

/// Every kept block from position `i` on has its painted copy among the
/// blocks left by the sweep.
pub proof fn lemma_swept_keeps(s: Seq<Block>, alive: Seq<bool>, flags: DebugFlags, c: bool, i: int, q: int)
    requires
        0 <= i <= q < s.len(),
        alive.len() == s.len(),
        kept(s[q], alive[q], flags),
    ensures
        swept_from(s, alive, flags, c, i).contains(painted(s[q], alive[q], flags.mark_phase, c)),
    decreases q - i,
{
    let all = swept_from(s, alive, flags, c, i);
    if i == q {
        assert(all[0] == painted(s[q], alive[q], flags.mark_phase, c));
    } else {
        lemma_swept_keeps(s, alive, flags, c, i + 1, q);
        let rest = swept_from(s, alive, flags, c, i + 1);
        let j = choose|j: int| 0 <= j < rest.len() && rest[j] == painted(s[q], alive[q], flags.mark_phase, c);
        if kept(s[i], alive[i], flags) {
            assert(all[j + 1] == rest[j]);
        } else {
            assert(all[j] == rest[j]);
        }
    }
}

/// Each destructor released by the sweep over positions from `i` on belongs
/// to a managed block that was not kept and had not been dropped.
pub proof fn lemma_released_origin(s: Seq<Block>, alive: Seq<bool>, flags: DebugFlags, i: int, j: int)
    requires
        0 <= i,
        alive.len() == s.len(),
        0 <= j < released_from(s, alive, flags, i).len(),
    ensures
        exists|q: int|
            i <= q < s.len() && !kept(s[q], alive[q], flags) && !s[q].gcbox.header.dropped
                && released_from(s, alive, flags, i)[j] == #[trigger] finalizer_of(s[q]),
    decreases s.len() - i,
{
    let rest = released_from(s, alive, flags, i + 1);
    if j < rest.len() {
        assert(released_from(s, alive, flags, i)[j] == rest[j]);
        lemma_released_origin(s, alive, flags, i + 1, j);
    } else {
        assert(released_from(s, alive, flags, i)[j] == finalizer_of(s[i]));
    }
}

/// After a cycle whose mark phase is on, an address is black exactly when a
/// managed block that holds it was reachable from the roots.
pub proof fn lemma_black_iff_reachable(s: Seq<Block>, roots: Seq<usize>, flags: DebugFlags, c: bool, a: int)
    requires
        flags.mark_phase,
    ensures
        black_at(swept_from(s, live_set(s, roots, true), flags, c, 0), c, a) <==> exists|q: int|
            0 <= q < s.len() && contains(s[q].info, a) && s[q].info.is_managed && reachable(s, roots, q),
{
    let alive = live_set(s, roots, true);
    let after = swept_from(s, alive, flags, c, 0);
    lemma_swept_origin(s, alive, flags, c, 0);
    if black_at(after, c, a) {
        let k = choose|k: int| 0 <= k < after.len() && contains(#[trigger] after[k].info, a) && after[k].info.is_managed
            && after[k].gcbox.header.mark_bit == c;
        let q = choose|q: int| 0 <= q < s.len() && kept(s[q], alive[q], flags)
            && #[trigger] after[k] == painted(s[q], alive[q], flags.mark_phase, c);
        assert(alive[q] == live(s, roots, true, q));
    }
    if exists|q: int| 0 <= q < s.len() && contains(s[q].info, a) && s[q].info.is_managed && reachable(s, roots, q) {
        let q = choose|q: int| 0 <= q < s.len() && contains(s[q].info, a) && s[q].info.is_managed && reachable(s, roots, q);
        assert(alive[q]);
        lemma_swept_keeps(s, alive, flags, c, 0, q);
        let k = choose|k: int| 0 <= k < after.len() && after[k] == painted(s[q], alive[q], flags.mark_phase, c);
        assert(contains(after[k].info, a));
    }
}

/// The ranges of a well-formed index never overlap.
pub proof fn lemma_ranges_disjoint(idx: MetadataIndex)
    requires
        idx.wf(),
    ensures
        forall|i: int, j: int| 0 <= i < idx.blocks@.len() && 0 <= j < idx.blocks@.len() && i != j
            ==> !overlaps(#[trigger] idx.blocks@[i].info, #[trigger] idx.blocks@[j].info),
{
    let s = idx.blocks@;
    assert forall|i: int, j: int| 0 <= i < s.len() && 0 <= j < s.len() && i != j
        implies !overlaps(#[trigger] s[i].info, #[trigger] s[j].info) by {
        assert(block_ok(s[i]) && block_ok(s[j]));
        if i < j {
            assert(below(s[i].info, s[j].info));
        } else {
            assert(below(s[j].info, s[i].info));
        }
    }
}

/// A cycle never clears a `dropped` flag: every block it leaves carries the
/// flag of the block it came from. A destructor is released only for a
/// block not dropped before, and that block is gone from the heap after
/// the cycle, so no later cycle can release it again.
pub proof fn lemma_dropped_monotonic(s: Seq<Block>, alive: Seq<bool>, flags: DebugFlags, c: bool)
    requires
        blocks_ok(s),
        alive.len() == s.len(),
    ensures
        forall|j: int| 0 <= j < swept_from(s, alive, flags, c, 0).len() ==> exists|q: int|
            0 <= q < s.len() && (#[trigger] swept_from(s, alive, flags, c, 0)[j]).info == s[q].info
                && swept_from(s, alive, flags, c, 0)[j].gcbox.header.dropped == s[q].gcbox.header.dropped,
        forall|f: int| 0 <= f < released_from(s, alive, flags, 0).len() ==> {
            &&& exists|q: int| 0 <= q < s.len() && s[q].info.base == (#[trigger] released_from(s, alive, flags, 0)[f]).base
                && !s[q].gcbox.header.dropped
            &&& forall|j: int| 0 <= j < swept_from(s, alive, flags, c, 0).len()
                ==> (#[trigger] swept_from(s, alive, flags, c, 0)[j]).info.base != released_from(s, alive, flags, 0)[f].base
        },
{
    let after = swept_from(s, alive, flags, c, 0);
    let rel = released_from(s, alive, flags, 0);
    lemma_swept_origin(s, alive, flags, c, 0);
    assert forall|j: int| 0 <= j < after.len() implies exists|q: int|
        0 <= q < s.len() && (#[trigger] after[j]).info == s[q].info && after[j].gcbox.header.dropped == s[q].gcbox.header.dropped by {
        let q = choose|q: int| 0 <= q < s.len() && kept(s[q], alive[q], flags)
            && #[trigger] after[j] == painted(s[q], alive[q], flags.mark_phase, c);
    }
    assert forall|f: int| 0 <= f < rel.len() implies {
        &&& exists|q: int| 0 <= q < s.len() && s[q].info.base == (#[trigger] rel[f]).base && !s[q].gcbox.header.dropped
        &&& forall|j: int| 0 <= j < after.len() ==> (#[trigger] after[j]).info.base != rel[f].base
    } by {
        lemma_released_origin(s, alive, flags, 0, f);
        let q = choose|q: int| 0 <= q < s.len() && !kept(s[q], alive[q], flags) && !s[q].gcbox.header.dropped
            && #[trigger] rel[f] == finalizer_of(s[q]);
        assert forall|j: int| 0 <= j < after.len() implies (#[trigger] after[j]).info.base != rel[f].base by {
            let p = choose|p: int| 0 <= p < s.len() && kept(s[p], alive[p], flags)
                && #[trigger] after[j] == painted(s[p], alive[p], flags.mark_phase, c);
            if p != q {
                assert(block_ok(s[p]) && block_ok(s[q]));
                if p < q {
                    assert(below(s[p].info, s[q].info));
                } else {
                    assert(below(s[q].info, s[p].info));
                }
            }
        }
    }
}

/// Two full cycles in a row: a managed block reachable at both leaves its
/// address black after each, under each cycle's polarity.
pub proof fn lemma_black_across_cycles(
    s0: Seq<Block>,
    roots1: Seq<usize>,
    roots2: Seq<usize>,
    flags: DebugFlags,
    c: bool,
    a: int,
    q0: int,
    q1: int,
)
    requires
        blocks_ok(s0),
        flags.mark_phase && flags.sweep_phase,
        0 <= q0 < s0.len(),
        contains(s0[q0].info, a) && s0[q0].info.is_managed && reachable(s0, roots1, q0),
        0 <= q1 < swept_from(s0, live_set(s0, roots1, true), flags, c, 0).len(),
        reachable(swept_from(s0, live_set(s0, roots1, true), flags, c, 0), roots2, q1),
        contains(swept_from(s0, live_set(s0, roots1, true), flags, c, 0)[q1].info, a),
    ensures
        black_at(swept_from(s0, live_set(s0, roots1, true), flags, c, 0), c, a),
        black_at(
            swept_from(
                swept_from(s0, live_set(s0, roots1, true), flags, c, 0),
                live_set(swept_from(s0, live_set(s0, roots1, true), flags, c, 0), roots2, true),
                flags,
                !c,
                0,
            ),
            !c,
            a,
        ),
{
    let s1 = swept_from(s0, live_set(s0, roots1, true), flags, c, 0);
    lemma_black_iff_reachable(s0, roots1, flags, c, a);
    lemma_swept_origin(s0, live_set(s0, roots1, true), flags, c, 0);
    let p = choose|p: int| 0 <= p < s0.len() && kept(s0[p], live_set(s0, roots1, true)[p], flags)
        && #[trigger] s1[q1] == painted(s0[p], live_set(s0, roots1, true)[p], flags.mark_phase, c);
    if p != q0 {
        assert(block_ok(s0[p]) && block_ok(s0[q0]));
        if p < q0 {
            assert(below(s0[p].info, s0[q0].info));
        } else {
            assert(below(s0[q0].info, s0[p].info));
        }
    }
    lemma_black_iff_reachable(s1, roots2, flags, !c, a);
}

} // verus!

verus! {

/// After a block is added on top of a well-formed index, every word of its
/// range is held by that block alone, so a lookup of such a word finds it.
pub proof fn lemma_new_block_sole_holder(s: Seq<Block>, b: Block, w: int)
    requires
        blocks_ok(s.push(b)),
        contains(b.info, w),
    ensures
        forall|k: int| 0 <= k < s.len() ==> !contains(#[trigger] s[k].info, w),
{
    let t = s.push(b);
    assert forall|k: int| 0 <= k < s.len() implies !contains(#[trigger] s[k].info, w) by {
        assert(t[k] == s[k]);
        assert(t[s.len() as int] == b);
        assert(below(t[k].info, t[s.len() as int].info));
    }
}

} // verus!
