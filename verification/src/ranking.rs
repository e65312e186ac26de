//! Short lists of the nearest items, kept in order by insertion.
use vstd::prelude::*;

use crate::ieee::Single;

verus! {

/// A distance by which items are ranked.
pub trait Distance: Copy {
    /// Where the distance stands in the order of distances.
    spec fn key(self) -> int;

    /// Whether the distance stands in that order at all.
    spec fn comparable(self) -> bool;

    fn is_at_least(self, other: Self) -> (r: bool)
        ensures
            r == (self.comparable() && other.comparable() && self.key() >= other.key()),
    ;

    fn is_above(self, other: Self) -> (r: bool)
        ensures
            r == (self.comparable() && other.comparable() && self.key() > other.key()),
    ;
}

/// At least as far, which holds of nothing that is out of order.
pub open spec fn at_least<D: Distance>(a: D, b: D) -> bool {
    a.comparable() && b.comparable() && a.key() >= b.key()
}

/// Farther, which holds of nothing that is out of order.
pub open spec fn farther<D: Distance>(a: D, b: D) -> bool {
    a.comparable() && b.comparable() && a.key() > b.key()
}

impl Distance for u64 {
    open spec fn key(self) -> int {
        self as int
    }

    open spec fn comparable(self) -> bool {
        true
    }

    fn is_at_least(self, other: u64) -> (r: bool) {
        self >= other
    }

    fn is_above(self, other: u64) -> (r: bool) {
        self > other
    }
}

impl Distance for i64 {
    open spec fn key(self) -> int {
        self as int
    }

    open spec fn comparable(self) -> bool {
        true
    }

    fn is_at_least(self, other: i64) -> (r: bool) {
        self >= other
    }

    fn is_above(self, other: i64) -> (r: bool) {
        self > other
    }
}

/// What is not a number is out of order.
impl Distance for Single {
    open spec fn key(self) -> int {
        self.rank()
    }

    open spec fn comparable(self) -> bool {
        !self.nan()
    }

    fn is_at_least(self, other: Single) -> (r: bool) {
        self.ge(other)
    }

    fn is_above(self, other: Single) -> (r: bool) {
        other.lt(self)
    }
}

/// Distances and indexes side by side.
pub open spec fn ranking<D>(dist: Seq<D>, idx: Seq<u32>) -> Seq<(D, u32)> {
    Seq::new(dist.len(), |i: int| (dist[i], idx[i]))
}

/// The place of a new item: from `pos` down past every item that is farther.
pub open spec fn slot<D: Distance>(top: Seq<(D, u32)>, pos: int, dist: D) -> int
    decreases pos,
{
    if pos > 0 && farther(top[pos - 1].0, dist) {
        slot(top, pos - 1, dist)
    } else {
        pos
    }
}

/// The list with `item` at `pos`; what follows moves down by one, and what stood last of the
/// first `limit` drops out.
pub open spec fn shifted_in<D>(
    top: Seq<(D, u32)>,
    limit: int,
    pos: int,
    item: (D, u32),
) -> Seq<(D, u32)> {
    Seq::new(
        top.len(),
        |i: int|
            if i == pos {
                item
            } else if pos < i < limit {
                top[i - 1]
            } else {
                top[i]
            },
    )
}

/// The list of the first `limit` places after `item` was offered: the item takes its place
/// unless it is at least as far as the last.
pub open spec fn offered<D: Distance>(
    top: Seq<(D, u32)>,
    limit: int,
    item: (D, u32),
) -> Seq<(D, u32)> {
    if at_least(item.0, top[limit - 1].0) {
        top
    } else {
        shifted_in(top, limit, slot(top, limit - 1, item.0), item)
    }
}

/// The place is at or before `pos`, and everything in between is farther.
pub proof fn lemma_slot<D: Distance>(top: Seq<(D, u32)>, pos: int, dist: D)
    requires
        0 <= pos,
    ensures
        0 <= slot(top, pos, dist) <= pos,
        forall|k: int|
            slot(top, pos, dist) <= k < pos ==> farther((#[trigger] top[k]).0, dist),
        slot(top, pos, dist) > 0 ==> !farther(top[slot(top, pos, dist) - 1].0, dist),
    decreases pos,
{
    if pos > 0 && farther(top[pos - 1].0, dist) {
        lemma_slot(top, pos - 1, dist);
    }
}

/// Offers an item to the first `limit` places of a list.
pub fn offer<D: Distance, const N: usize>(
    top_dist: &mut [D; N],
    top_idx: &mut [u32; N],
    limit: usize,
    idx: u32,
    dist: D,
)
    requires
        0 < limit <= N,
    ensures
        ranking(final(top_dist)@, final(top_idx)@) == offered(
            ranking(old(top_dist)@, old(top_idx)@),
            limit as int,
            (dist, idx),
        ),
{
    let ghost top0 = ranking(top_dist@, top_idx@);
    if dist.is_at_least(top_dist[limit - 1]) {
        return ;
    }
    let mut pos: usize = limit - 1;
    while pos > 0 && top_dist[pos - 1].is_above(dist)
        invariant
            pos < limit <= N,
            top_dist@.len() == N,
            top_idx@.len() == N,
            top0.len() == N,
            slot(top0, limit - 1, dist) == slot(top0, pos as int, dist),
            forall|k: int| 0 <= k <= pos ==> (top_dist@[k], top_idx@[k]) == #[trigger] top0[k],
            forall|k: int|
                pos < k < limit ==> (#[trigger] top_dist@[k], top_idx@[k]) == top0[k - 1],
            forall|k: int| limit <= k < N ==> (top_dist@[k], top_idx@[k]) == #[trigger] top0[k],
        decreases pos,
    {
        assert((top_dist@[pos - 1], top_idx@[pos - 1]) == top0[pos - 1]);
        top_dist[pos] = top_dist[pos - 1];
        top_idx[pos] = top_idx[pos - 1];
        pos -= 1;
    }
    assert(pos > 0 ==> (top_dist@[pos - 1], top_idx@[pos - 1]) == top0[pos - 1]);
    top_dist[pos] = dist;
    top_idx[pos] = idx;
    assert(ranking(top_dist@, top_idx@) =~= offered(top0, limit as int, (dist, idx)));
}

/// The first `limit` items stand in order, nearest first.
pub open spec fn is_sorted<D: Distance>(top: Seq<(D, u32)>, limit: int) -> bool {
    &&& forall|i: int| 0 <= i < limit ==> (#[trigger] top[i]).0.comparable()
    &&& forall|i: int, j: int|
        0 <= i <= j < limit ==> (#[trigger] top[i]).0.key() <= (#[trigger] top[j]).0.key()
}

/// `item` is among the first `limit`.
pub open spec fn is_among<D>(top: Seq<(D, u32)>, limit: int, item: (D, u32)) -> bool {
    exists|i: int| 0 <= i < limit && #[trigger] top[i] == item
}

/// Offering an item keeps a list in order.
pub proof fn law_offered_sorted<D: Distance>(top: Seq<(D, u32)>, limit: int, item: (D, u32))
    requires
        0 < limit <= top.len(),
        is_sorted(top, limit),
        item.0.comparable(),
    ensures
        is_sorted(offered(top, limit, item), limit),
{
    lemma_slot(top, limit - 1, item.0);
}

/// The last place never gets farther, and what is neither kept nor the last is no nearer
/// than the last: of all items the nearest stay.
pub proof fn law_offered_nearest<D: Distance>(
    top: Seq<(D, u32)>,
    limit: int,
    item: (D, u32),
    other: (D, u32),
)
    requires
        0 < limit <= top.len(),
        is_sorted(top, limit),
        item.0.comparable(),
        other == item || is_among(top, limit, other),
    ensures
        offered(top, limit, item)[limit - 1].0.key() <= top[limit - 1].0.key(),
        is_among(offered(top, limit, item), limit, other) || other.0.key() >= offered(
            top,
            limit,
            item,
        )[limit - 1].0.key(),
{
    lemma_slot(top, limit - 1, item.0);
    let pos = slot(top, limit - 1, item.0);
    let new = offered(top, limit, item);
    if !at_least(item.0, top[limit - 1].0) {
        assert(new[pos] == item);
        if other != item {
            let i = choose|i: int| 0 <= i < limit && #[trigger] top[i] == other;
            if i < pos {
                assert(new[i] == other);
            } else if i + 1 < limit {
                assert(new[i + 1] == other);
            }
        }
    }
}

/// Offering an item brings in nothing but that item.
pub proof fn law_offered_from<D: Distance>(
    top: Seq<(D, u32)>,
    limit: int,
    item: (D, u32),
    other: (D, u32),
)
    requires
        0 < limit <= top.len(),
        is_among(offered(top, limit, item), limit, other),
    ensures
        other == item || is_among(top, limit, other),
{
    lemma_slot(top, limit - 1, item.0);
    let pos = slot(top, limit - 1, item.0);
    let new = offered(top, limit, item);
    let i = choose|i: int| 0 <= i < limit && #[trigger] new[i] == other;
    if new != top {
        if i < pos {
            assert(top[i] == other);
        } else if i > pos {
            assert(top[i - 1] == other);
        }
    } else {
        assert(top[i] == other);
    }
}

/// An item that is offered takes the place behind all that are no farther, and moves those that
/// are farther down by one; if no place is left for it, nothing changes. Of two that are equally
/// far, the one that was there first stays in front.
pub proof fn law_offered_place<D: Distance>(top: Seq<(D, u32)>, limit: int, item: (D, u32), i: int)
    requires
        0 < limit <= top.len(),
        is_sorted(top, limit),
        item.0.comparable(),
        0 <= i < limit,
    ensures
        ({
            let new = offered(top, limit, item);
            &&& new.len() == top.len()
            &&& top[i].0.key() <= item.0.key() ==> new[i] == top[i]
            &&& top[i].0.key() > item.0.key() && i + 1 < limit ==> new[i + 1] == top[i]
            &&& top[i].0.key() > item.0.key() && (i == 0 || top[i - 1].0.key() <= item.0.key())
                ==> new[i] == item
            &&& forall|k: int| limit <= k < top.len() ==> #[trigger] new[k] == top[k]
        }),
{
    lemma_slot(top, limit - 1, item.0);
    let pos = slot(top, limit - 1, item.0);
    if pos > 0 {
        assert(top[pos - 1].0.comparable());
    }
    assert(top[limit - 1].0.comparable());
    if i < pos {
        assert(top[i].0.key() <= top[pos - 1].0.key());
    }
    if i > pos {
        assert(top[pos].0.key() <= top[i - 1].0.key());
    }
}

/// An item that is out of order takes the last place.
pub proof fn law_offered_out_of_order<D: Distance>(
    top: Seq<(D, u32)>,
    limit: int,
    item: (D, u32),
)
    requires
        0 < limit <= top.len(),
        !item.0.comparable(),
    ensures
        offered(top, limit, item) == top.update(limit - 1, item),
{
    assert(offered(top, limit, item) =~= top.update(limit - 1, item));
}

/// Distances rank as the numbers that they are.
pub proof fn law_keys(a: u64, b: u64, c: i64, d: i64)
    ensures
        at_least(a, b) <==> a >= b,
        farther(a, b) <==> a > b,
        at_least(c, d) <==> c >= d,
        farther(c, d) <==> c > d,
{
}

} // verus!
