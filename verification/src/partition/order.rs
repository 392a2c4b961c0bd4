//! Ordering partitions by start block, keeping partitions of equal start in their order.

use vstd::prelude::*;
use crate::partition::{Partition, PartitionView};

verus! {

/// The views of a sequence of partitions.
pub open spec fn partition_views(v: Seq<Partition>) -> Seq<PartitionView> {
    v.map_values(|p: Partition| p@)
}

/// No partition starts before one that stands earlier in `s`.
pub open spec fn is_sorted_by_start(s: Seq<PartitionView>) -> bool {
    forall|i: int, j: int| 0 <= i < j < s.len() ==> s[i].start_block <= s[j].start_block
}

/// The partitions of `s` that start at `start`, in their order.
pub open spec fn starting_at(s: Seq<PartitionView>, start: usize) -> Seq<PartitionView> {
    s.filter(|p: PartitionView| p.start_block == start)
}

/// Where a partition starting at `start` goes into `s`: behind the last partition that
/// does not start later.
pub open spec fn insert_point(s: Seq<PartitionView>, start: usize) -> int
    decreases s.len(),
{
    if s.len() > 0 && s.last().start_block > start {
        insert_point(s.drop_last(), start)
    } else {
        s.len() as int
    }
}

/// `s` ordered by start block.  Partitions with the same start block keep the order
/// they have in `s`.
pub open spec fn stable_sort(s: Seq<PartitionView>) -> Seq<PartitionView>
    decreases s.len(),
{
    if s.len() == 0 {
        s
    } else {
        let sorted = stable_sort(s.drop_last());
        sorted.insert(insert_point(sorted, s.last().start_block), s.last())
    }
}

/// The insert point lies within the sequence; what stands behind it starts later, what
/// stands directly before it does not.
pub proof fn lemma_insert_point(s: Seq<PartitionView>, start: usize)
    ensures
        0 <= insert_point(s, start) <= s.len(),
        forall|k: int| insert_point(s, start) <= k < s.len() ==> (#[trigger] s[k]).start_block > start,
        insert_point(s, start) > 0 ==> s[insert_point(s, start) - 1].start_block <= start,
    decreases s.len(),
{
    if s.len() > 0 && s.last().start_block > start {
        let t = s.drop_last();
        lemma_insert_point(t, start);
        assert forall|k: int| insert_point(s, start) <= k < s.len() implies (#[trigger] s[k]).start_block
            > start by {
            if k < t.len() {
                assert(s[k] == t[k]);
            }
        }
        if insert_point(s, start) > 0 {
            assert(s[insert_point(s, start) - 1] == t[insert_point(t, start) - 1]);
        }
    }
}

/// What a scan from the back finds is the insert point.
pub proof fn lemma_insert_point_is(s: Seq<PartitionView>, start: usize, j: int)
    requires
        0 <= j <= s.len(),
        forall|k: int| j <= k < s.len() ==> (#[trigger] s[k]).start_block > start,
        j > 0 ==> s[j - 1].start_block <= start,
    ensures
        insert_point(s, start) == j,
    decreases s.len(),
{
    if j < s.len() {
        let t = s.drop_last();
        assert(s.last().start_block > start);
        assert forall|k: int| j <= k < t.len() implies (#[trigger] t[k]).start_block > start by {
            assert(t[k] == s[k]);
        }
        lemma_insert_point_is(t, start, j);
    }
}

/// Sorting keeps the number of partitions.
pub proof fn lemma_stable_sort_len(s: Seq<PartitionView>)
    ensures
        stable_sort(s).len() == s.len(),
    decreases s.len(),
{
    if s.len() > 0 {
        lemma_stable_sort_len(s.drop_last());
        lemma_insert_point(stable_sort(s.drop_last()), s.last().start_block);
    }
}

/// The result of sorting is ordered by start block.
pub proof fn lemma_stable_sort_sorted(s: Seq<PartitionView>)
    ensures
        is_sorted_by_start(stable_sort(s)),
    decreases s.len(),
{
    if s.len() > 0 {
        let sorted = stable_sort(s.drop_last());
        let x = s.last();
        let at = insert_point(sorted, x.start_block);
        lemma_stable_sort_sorted(s.drop_last());
        lemma_insert_point(sorted, x.start_block);
        let r = sorted.insert(at, x);
        assert forall|i: int, j: int| 0 <= i < j < r.len() implies r[i].start_block
            <= r[j].start_block by {
            if j < at {
                assert(r[i] == sorted[i] && r[j] == sorted[j]);
            } else if j == at {
                assert(r[i] == sorted[i]);
                if i < at - 1 {
                    assert(sorted[i].start_block <= sorted[at - 1].start_block);
                }
            } else if i < at {
                assert(r[i] == sorted[i] && r[j] == sorted[j - 1]);
                if i < j - 1 {
                    assert(sorted[i].start_block <= sorted[j - 1].start_block);
                }
            } else if i == at {
                assert(r[j] == sorted[j - 1]);
            } else {
                assert(r[i] == sorted[i - 1] && r[j] == sorted[j - 1]);
            }
        }
    }
}

/// A sequence that is ordered by start block is its own sorting.
pub proof fn lemma_stable_sort_of_sorted(s: Seq<PartitionView>)
    requires
        is_sorted_by_start(s),
    ensures
        stable_sort(s) == s,
    decreases s.len(),
{
    if s.len() > 0 {
        let t = s.drop_last();
        assert(is_sorted_by_start(t)) by {
            assert forall|i: int, j: int| 0 <= i < j < t.len() implies t[i].start_block
                <= t[j].start_block by {
                assert(t[i] == s[i] && t[j] == s[j]);
            }
        }
        lemma_stable_sort_of_sorted(t);
        if t.len() > 0 {
            assert(t.last() == s[s.len() - 2]);
        }
        assert(insert_point(t, s.last().start_block) == t.len());
        assert(t.insert(t.len() as int, s.last()) == s);
    }
}

/// Sorting twice is sorting once.
pub proof fn lemma_stable_sort_idempotent(s: Seq<PartitionView>)
    ensures
        stable_sort(stable_sort(s)) == stable_sort(s),
{
    lemma_stable_sort_sorted(s);
    lemma_stable_sort_of_sorted(stable_sort(s));
}

/// Sorting keeps, for every start block, the partitions that start there in the order
/// they had: no two partitions of equal start change places.
pub proof fn lemma_stable_sort_keeps_order(s: Seq<PartitionView>, start: usize)
    ensures
        starting_at(stable_sort(s), start) == starting_at(s, start),
    decreases s.len(),
{
    let at_start = |p: PartitionView| p.start_block == start;
    reveal(Seq::filter);
    if s.len() > 0 {
        let front = s.drop_last();
        let x = s.last();
        let sorted = stable_sort(front);
        let at = insert_point(sorted, x.start_block);
        lemma_stable_sort_keeps_order(front, start);
        lemma_insert_point(sorted, x.start_block);
        let head = sorted.take(at);
        let tail = sorted.skip(at);
        assert(sorted == head + tail);
        assert(sorted.insert(at, x) == head.push(x) + tail);
        Seq::filter_distributes_over_add(head, tail, at_start);
        Seq::filter_distributes_over_add(head.push(x), tail, at_start);
        head.lemma_filter_push(x, at_start);
        if x.start_block == start {
            assert forall|k: int| 0 <= k < tail.len() implies !at_start(#[trigger] tail[k]) by {
                assert(tail[k] == sorted[at + k]);
            }
            tail.lemma_all_neg_filter_empty(at_start);
            assert(tail.filter(at_start).len() == 0);
            assert(head.filter(at_start) + tail.filter(at_start) == head.filter(at_start));
            assert(head.filter(at_start).push(x) + tail.filter(at_start) == head.filter(
                at_start,
            ).push(x));
        }
    }
}

/// Sorting neither drops nor adds a partition.
pub proof fn lemma_stable_sort_permutes(s: Seq<PartitionView>)
    ensures
        stable_sort(s).to_multiset() == s.to_multiset(),
    decreases s.len(),
{
    broadcast use vstd::seq_lib::group_to_multiset_ensures;

    if s.len() > 0 {
        let front = s.drop_last();
        let sorted = stable_sort(front);
        lemma_stable_sort_permutes(front);
        lemma_insert_point(sorted, s.last().start_block);
        assert(front.push(s.last()) == s);
    }
}

/// A sequence has a partition that starts at `start` exactly if some partition of it
/// starts there.
proof fn lemma_starting_at_nonempty(s: Seq<PartitionView>, start: usize)
    ensures
        starting_at(s, start).len() > 0 <==> exists|i: int|
            0 <= i < s.len() && (#[trigger] s[i]).start_block == start,
{
    let at_start = |p: PartitionView| p.start_block == start;
    let kept = s.filter(at_start);
    if kept.len() > 0 {
        s.lemma_filter_pred(at_start, 0);
        assert(kept.contains(kept[0]));
        s.lemma_filter_contains_rev(at_start, kept[0]);
        let i = choose|i: int| 0 <= i < s.len() && s[i] == kept[0];
        assert(s[i].start_block == start);
    }
    if exists|i: int| 0 <= i < s.len() && (#[trigger] s[i]).start_block == start {
        let i = choose|i: int| 0 <= i < s.len() && (#[trigger] s[i]).start_block == start;
        s.lemma_filter_contains(at_start, i);
    }
}

/// Two sequences that are ordered by start block and hold, for every start block, the
/// same partitions in the same order are the same sequence.
pub proof fn lemma_sorted_is_determined(t: Seq<PartitionView>, u: Seq<PartitionView>)
    requires
        is_sorted_by_start(t),
        is_sorted_by_start(u),
        forall|start: usize| starting_at(t, start) == starting_at(u, start),
    ensures
        t == u,
    decreases t.len() + u.len(),
{
    reveal(Seq::filter);
    if t.len() == 0 && u.len() == 0 {
        assert(t == u);
    } else if t.len() == 0 || u.len() == 0 {
        let (empty, full) = if t.len() == 0 {
            (t, u)
        } else {
            (u, t)
        };
        let start = full[0].start_block;
        lemma_starting_at_nonempty(full, start);
        lemma_starting_at_nonempty(empty, start);
        assert(starting_at(t, start) == starting_at(u, start));
        assert(false);
    } else {
        let x = t.last();
        let y = u.last();
        lemma_starting_at_nonempty(t, y.start_block);
        lemma_starting_at_nonempty(u, y.start_block);
        lemma_starting_at_nonempty(t, x.start_block);
        lemma_starting_at_nonempty(u, x.start_block);
        assert(starting_at(t, x.start_block) == starting_at(u, x.start_block));
        assert(starting_at(t, y.start_block) == starting_at(u, y.start_block));
        assert(x.start_block == y.start_block) by {
            let i = choose|i: int| 0 <= i < t.len() && (#[trigger] t[i]).start_block == y.start_block;
            let j = choose|j: int| 0 <= j < u.len() && (#[trigger] u[j]).start_block == x.start_block;
            assert(t[i].start_block <= t[t.len() - 1].start_block);
            assert(u[j].start_block <= u[u.len() - 1].start_block);
        }
        assert(starting_at(t, x.start_block).last() == x);
        assert(starting_at(u, x.start_block).last() == y);
        let tf = t.drop_last();
        let uf = u.drop_last();
        assert forall|start: usize| starting_at(tf, start) == starting_at(uf, start) by {
            assert(starting_at(t, start) == starting_at(u, start));
            if start == x.start_block {
                assert(starting_at(tf, start) == starting_at(t, start).drop_last());
                assert(starting_at(uf, start) == starting_at(u, start).drop_last());
            }
        }
        assert(is_sorted_by_start(tf)) by {
            assert forall|i: int, j: int| 0 <= i < j < tf.len() implies tf[i].start_block
                <= tf[j].start_block by {
                assert(tf[i] == t[i] && tf[j] == t[j]);
            }
        }
        assert(is_sorted_by_start(uf)) by {
            assert forall|i: int, j: int| 0 <= i < j < uf.len() implies uf[i].start_block
                <= uf[j].start_block by {
                assert(uf[i] == u[i] && uf[j] == u[j]);
            }
        }
        lemma_sorted_is_determined(tf, uf);
        assert(t == tf.push(x));
        assert(u == uf.push(y));
    }
}

/// `stable_sort(s)` is the one arrangement of `s` that is ordered by start block and
/// keeps partitions of equal start in their order.
pub proof fn lemma_stable_sort_is_the_stable_order(s: Seq<PartitionView>, t: Seq<PartitionView>)
    requires
        is_sorted_by_start(t),
        forall|start: usize| starting_at(t, start) == starting_at(s, start),
    ensures
        t == stable_sort(s),
{
    lemma_stable_sort_sorted(s);
    assert forall|start: usize| starting_at(t, start) == starting_at(stable_sort(s), start) by {
        lemma_stable_sort_keeps_order(s, start);
        assert(starting_at(t, start) == starting_at(s, start));
    }
    lemma_sorted_is_determined(t, stable_sort(s));
}

/// Orders `v` by start block, keeping partitions of equal start in their order.
pub fn sort_by_start_block(v: &mut Vec<Partition>)
    ensures
        partition_views(final(v)@) == stable_sort(partition_views(old(v)@)),
{
    let n = v.len();
    let ghost orig = partition_views(v@);
    let mut i: usize = 0;
    assert(orig.take(0) == Seq::<PartitionView>::empty());
    while i < n
        invariant
            i <= n,
            n == v.len(),
            orig.len() == n,
            partition_views(v@).take(i as int) == stable_sort(orig.take(i as int)),
            partition_views(v@).skip(i as int) == orig.skip(i as int),
        decreases n - i,
    {
        let ghost cur = partition_views(v@);
        let start = v[i].start_block;
        let mut j: usize = i;
        while j > 0 && v[j - 1].start_block > start
            invariant
                0 <= j <= i < n,
                n == v.len(),
                cur == partition_views(v@),
                forall|k: int| j <= k < i ==> (#[trigger] cur[k]).start_block > start,
            decreases j,
        {
            j = j - 1;
        }
        let p = v.remove(i);
        v.insert(j, p);
        proof {
            let done = cur.take(i as int);
            let x = cur[i as int];
            assert(x == orig.skip(i as int)[0]);
            assert(x.start_block == start);
            assert forall|k: int| j <= k < done.len() implies (#[trigger] done[k]).start_block
                > start by {
                assert(done[k] == cur[k]);
            }
            lemma_insert_point_is(done, start, j as int);
            let grown = orig.take(i + 1);
            assert(grown.drop_last() == orig.take(i as int));
            assert(grown.last() == x);
            let now = partition_views(v@);
            assert(now == cur.remove(i as int).insert(j as int, x));
            assert(now.take(i + 1) == done.insert(j as int, x));
            let tail = now.skip(i + 1);
            assert(tail == orig.skip(i + 1)) by {
                assert forall|k: int| 0 <= k < n - i - 1 implies #[trigger] tail[k] == orig.skip(
                    i + 1,
                )[k] by {
                    assert(now[i + 1 + k] == cur[i + 1 + k]);
                    assert(cur[i + 1 + k] == cur.skip(i as int)[k + 1]);
                }
            }
        }
        i = i + 1;
    }
    assert(partition_views(v@).take(n as int) == partition_views(v@));
    assert(orig.take(n as int) == orig);
}

} // verus!
