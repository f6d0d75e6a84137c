use vstd::prelude::*;
use crate::index::{Block, contains, blocks_ok, below};

verus! {

/// Some word of the block at `p` lies in the range of the block at `q`.
pub open spec fn points_to(s: Seq<Block>, p: int, q: int) -> bool {
    exists|j: int| 0 <= j < s[p].gcbox.words@.len() && contains(s[q].info, #[trigger] s[p].gcbox.words@[j] as int)
}

/// Some root word lies in the range of the block at `q`.
pub open spec fn root_hit(s: Seq<Block>, roots: Seq<usize>, q: int) -> bool {
    exists|j: int| 0 <= j < roots.len() && contains(s[q].info, #[trigger] roots[j] as int)
}

/// `path` is a chain of blocks that starts at a root hit and follows
/// `points_to` from each block to the next.
pub open spec fn is_path(s: Seq<Block>, roots: Seq<usize>, path: Seq<int>) -> bool {
    &&& path.len() > 0
    &&& forall|i: int| 0 <= i < path.len() ==> 0 <= #[trigger] path[i] < s.len()
    &&& root_hit(s, roots, path[0])
    &&& forall|i: int| 0 <= i < path.len() - 1 ==> points_to(s, #[trigger] path[i], path[i + 1])
}

/// The block at `q` is transitively reachable from the roots.
pub open spec fn reachable(s: Seq<Block>, roots: Seq<usize>, q: int) -> bool {
    exists|path: Seq<int>| #[trigger] is_path(s, roots, path) && path.last() == q
}

/// Two blocks of a well-formed index that hold one word are the same block.
pub proof fn lemma_unique_holder(s: Seq<Block>, w: int, a: int, b: int)
    requires
        blocks_ok(s),
        0 <= a < s.len(),
        0 <= b < s.len(),
        contains(s[a].info, w),
        contains(s[b].info, w),
    ensures
        a == b,
{
    if a < b {
        assert(below(s[a].info, s[b].info));
    } else if b < a {
        assert(below(s[b].info, s[a].info));
    }
}

/// A set of positions that holds every root hit and is closed under
/// `points_to` holds every reachable block.
pub proof fn lemma_closed_holds_reachable(s: Seq<Block>, roots: Seq<usize>, set: Seq<bool>, q: int)
    requires
        set.len() == s.len(),
        forall|x: int| 0 <= x < s.len() && root_hit(s, roots, x) ==> set[x],
        forall|p: int, x: int| 0 <= p < s.len() && 0 <= x < s.len() && set[p] && #[trigger] points_to(s, p, x) ==> set[x],
        reachable(s, roots, q),
    ensures
        set[q],
{
    let path = choose|path: Seq<int>| #[trigger] is_path(s, roots, path) && path.last() == q;
    lemma_closed_holds_path(s, roots, set, path, path.len() - 1);
}

proof fn lemma_closed_holds_path(s: Seq<Block>, roots: Seq<usize>, set: Seq<bool>, path: Seq<int>, i: int)
    requires
        set.len() == s.len(),
        forall|x: int| 0 <= x < s.len() && root_hit(s, roots, x) ==> set[x],
        forall|p: int, x: int| 0 <= p < s.len() && 0 <= x < s.len() && set[p] && #[trigger] points_to(s, p, x) ==> set[x],
        is_path(s, roots, path),
        0 <= i < path.len(),
    ensures
        set[path[i]],
    decreases i,
{
    assert(0 <= path[i] < s.len());
    if i > 0 {
        lemma_closed_holds_path(s, roots, set, path, i - 1);
        assert(points_to(s, path[i - 1], path[i]));
        assert(0 <= path[i - 1] < s.len());
    }
}

/// The number of `false` entries.
pub open spec fn count_false(r: Seq<bool>) -> nat
    decreases r.len(),
{
    if r.len() == 0 {
        0
    } else {
        count_false(r.drop_last()) + if r.last() { 0nat } else { 1nat }
    }
}

pub proof fn lemma_count_false_set(r: Seq<bool>, i: int)
    requires
        0 <= i < r.len(),
        !r[i],
    ensures
        count_false(r.update(i, true)) + 1 == count_false(r),
    decreases r.len(),
{
    let u = r.update(i, true);
    if i < r.len() - 1 {
        assert(u.drop_last() =~= r.drop_last().update(i, true));
        lemma_count_false_set(r.drop_last(), i);
    } else {
        assert(u.drop_last() =~= r.drop_last());
    }
}

} // verus!

verus! {

/// A block hit by a root is reachable.
pub proof fn lemma_root_reachable(s: Seq<Block>, roots: Seq<usize>, q: int)
    requires
        0 <= q < s.len(),
        root_hit(s, roots, q),
    ensures
        reachable(s, roots, q),
{
    let path = seq![q];
    assert(is_path(s, roots, path));
}

/// A block that a reachable block points to is reachable.
pub proof fn lemma_extend_path(s: Seq<Block>, roots: Seq<usize>, p: int, q: int)
    requires
        0 <= q < s.len(),
        reachable(s, roots, p),
        points_to(s, p, q),
    ensures
        reachable(s, roots, q),
{
    let path = choose|path: Seq<int>| #[trigger] is_path(s, roots, path) && path.last() == p;
    let longer = path.push(q);
    assert forall|i: int| 0 <= i < longer.len() - 1 implies points_to(s, #[trigger] longer[i], longer[i + 1]) by {
        if i < path.len() - 1 {
            assert(longer[i] == path[i] && longer[i + 1] == path[i + 1]);
        }
    }
    assert forall|i: int| 0 <= i < longer.len() implies 0 <= #[trigger] longer[i] < s.len() by {
        if i < path.len() {
            assert(longer[i] == path[i]);
        }
    }
    assert(is_path(s, roots, longer));
}

} // verus!
