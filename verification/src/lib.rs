//! An array-backed d-ary min-heap: a priority queue with an arbitrary
//! branching factor `D` fixed at construction, supporting insertion,
//! extraction of the minimum, removal by value and in-place priority update.
//!
//! The backing store is a growable vector of [`Node`] entries; the root sits
//! at index 0 and the entry with the smallest priority is extracted first.
//! Every public mutation re-establishes the min-heap invariant [`is_heap`].

use vstd::prelude::*;
use vstd::std_specs::cmp::PartialEqSpec;

pub mod list;

verus! {

/// The backing store of a heap: a growable vector of entries.
pub type Data<T> = Vec<Node<T>>;

/// Positions inside the backing store.
pub type Index = usize;

/// The ordering key: a smaller priority is extracted first.
pub type Priority = u64;

/// One stored entry: a value together with its priority.
#[derive(Debug, PartialEq)]
pub struct Node<T> {
    pub value: T,
    pub priority: Priority,
}

/// The stored value of `n` equals `v`, in the sense of `T`'s own equality.
pub open spec fn entry_matches<T: PartialEq>(n: Node<T>, v: T) -> bool {
    n.value.eq_spec(&v)
}

/// Some stored value equals `v`.
pub open spec fn has_match<T: PartialEq>(s: Seq<Node<T>>, v: T) -> bool {
    exists|i: int| 0 <= i < s.len() && #[trigger] entry_matches(s[i], v)
}

/// Position `i` holds the first stored value equal to `v`.
pub open spec fn is_first_match<T: PartialEq>(s: Seq<Node<T>>, v: T, i: int) -> bool {
    &&& 0 <= i < s.len()
    &&& entry_matches(s[i], v)
    &&& forall|j: int| 0 <= j < i ==> !(#[trigger] entry_matches(s[j], v))
}

/// Index of the parent of position `i`, for arity `d`; meaningful for `i >= 1`.
pub open spec fn parent_of(i: int, d: int) -> int {
    (i - 1) / d
}

/// Index of the `k`-th child of position `i`, for arity `d` and `1 <= k <= d`.
pub open spec fn child_of(i: int, k: int, d: int) -> int {
    d * i + k
}

/// The min-heap invariant for arity `d`: every non-root entry has a priority
/// no smaller than its parent's.
pub open spec fn is_heap<T>(s: Seq<Node<T>>, d: int) -> bool {
    forall|i: int|
        1 <= i < s.len() ==> s[parent_of(i, d)].priority <= #[trigger] s[i].priority
}

/// `j` lies in the subtree rooted at `a` (possibly `j == a` itself), for
/// arity `d`: following parent links from `j` reaches `a`.
pub open spec fn is_ancestor_or_self(a: int, j: int, d: int) -> bool
    decreases j,
{
    if j == a {
        true
    } else if j < 1 || d < 2 {
        false
    } else {
        is_ancestor_or_self(a, parent_of(j, d), d)
    }
}

/// Number of parent steps from position `i` up to the root.
pub open spec fn depth_of(i: int, d: int) -> nat
    decreases i,
{
    if i < 1 || d < 2 {
        0
    } else {
        1 + depth_of(parent_of(i, d), d)
    }
}

/// All parent/child edges are ordered except possibly the one leading into
/// position `x` from its parent.
pub open spec fn heap_except_at<T>(s: Seq<Node<T>>, d: int, x: int) -> bool {
    forall|i: int|
        1 <= i < s.len() && i != x ==> s[parent_of(i, d)].priority <= #[trigger] s[i].priority
}

/// The shape left by a mutation that can only have made position `x` too
/// small: every edge but the one into `x` is ordered, and the children of `x`
/// are already no smaller than the parent of `x`, so lifting the entry at `x`
/// over its parent keeps them ordered.
pub open spec fn is_heap_except_up<T>(s: Seq<Node<T>>, d: int, x: int) -> bool {
    &&& heap_except_at(s, d, x)
    &&& (forall|c: int|
        1 <= c < s.len() && x >= 1 && parent_of(c, d) == x ==> s[parent_of(x, d)].priority <= (
        #[trigger] s[c].priority))
}

/// The shape left by a mutation that can only have made position `x` too
/// large: every edge not leaving `x` is ordered, and the children of `x` are
/// no smaller than the parent of `x`, so pulling a child of `x` over the
/// entry at `x` keeps them ordered.
pub open spec fn is_heap_except_down<T>(s: Seq<Node<T>>, d: int, x: int) -> bool {
    &&& (forall|i: int|
        1 <= i < s.len() && parent_of(i, d) != x ==> s[parent_of(i, d)].priority <= (
        #[trigger] s[i].priority))
    &&& (forall|c: int|
        1 <= c < s.len() && x >= 1 && parent_of(c, d) == x ==> s[parent_of(x, d)].priority <= (
        #[trigger] s[c].priority))
}

/// Inside the subtree rooted at `r`, every edge not leaving `r` itself is
/// ordered: the subtrees hanging off the children of `r` are proper heaps.
pub open spec fn subtree_heap_below<T>(s: Seq<Node<T>>, d: int, r: int) -> bool {
    forall|i: int|
        1 <= i < s.len() && is_ancestor_or_self(r, i, d) && i != r && parent_of(i, d) != r
            ==> s[parent_of(i, d)].priority <= #[trigger] s[i].priority
}

/// Every edge inside the subtree rooted at `r` is ordered.
pub open spec fn subtree_is_heap<T>(s: Seq<Node<T>>, d: int, r: int) -> bool {
    forall|i: int|
        1 <= i < s.len() && is_ancestor_or_self(r, i, d) && i != r ==> s[parent_of(i, d)].priority
            <= #[trigger] s[i].priority
}

/// The parent of a child of `i` is `i` again.
pub proof fn lemma_child_parent(i: int, k: int, d: int)
    requires
        d >= 2,
        i >= 0,
        1 <= k <= d,
    ensures
        parent_of(child_of(i, k, d), d) == i,
        child_of(i, k, d) >= i + 1,
    decreases 0int,
{
    assert((d * i + k - 1) / d == i && d * i + k >= i + 1) by (nonlinear_arith)
        requires
            d >= 2,
            i >= 0,
            1 <= k <= d,
    ;
}

/// A non-root position is one of the children of its parent.
pub proof fn lemma_parent_child(j: int, d: int)
    requires
        d >= 2,
        j >= 1,
    ensures
        0 <= parent_of(j, d) < j,
        child_of(parent_of(j, d), 1, d) <= j <= child_of(parent_of(j, d), d, d),
{
    assert(0 <= (j - 1) / d < j && d * ((j - 1) / d) + 1 <= j <= d * ((j - 1) / d) + d)
        by (nonlinear_arith)
        requires
            d >= 2,
            j >= 1,
    ;
}

/// Being in a subtree is transitive.
pub proof fn lemma_ancestor_transitive(a: int, b: int, c: int, d: int)
    requires
        is_ancestor_or_self(a, b, d),
        is_ancestor_or_self(b, c, d),
    ensures
        is_ancestor_or_self(a, c, d),
    decreases c,
{
    if c != b {
        lemma_ancestor_transitive(a, b, parent_of(c, d), d);
    }
}

/// A proper descendant has a larger index than the subtree root.
pub proof fn lemma_descendant_larger(a: int, j: int, d: int)
    requires
        d >= 2,
        is_ancestor_or_self(a, j, d),
        a != j,
    ensures
        j > a,
        j >= 1,
    decreases j,
{
    lemma_parent_child(j, d);
    if parent_of(j, d) != a {
        lemma_descendant_larger(a, parent_of(j, d), d);
    }
}

/// Descending one level into a subtree does not leave it: climbing to `a`
/// from a position below `x` passes through `x`.
pub proof fn lemma_child_in_subtree(a: int, x: int, c: int, d: int)
    requires
        d >= 2,
        is_ancestor_or_self(a, x, d),
        c >= 1,
        parent_of(c, d) == x,
    ensures
        is_ancestor_or_self(a, c, d),
{
    lemma_parent_child(c, d);
    assert(is_ancestor_or_self(x, x, d));
    assert(is_ancestor_or_self(x, c, d));
    lemma_ancestor_transitive(a, x, c, d);
}

/// The shallower end of a subtree path is nearer to the root.
pub proof fn lemma_ancestor_depth(a: int, j: int, d: int)
    requires
        d >= 2,
        a >= 0,
        is_ancestor_or_self(a, j, d),
    ensures
        depth_of(a, d) <= depth_of(j, d),
    decreases j,
{
    if j != a {
        lemma_ancestor_depth(a, parent_of(j, d), d);
    }
}

/// Exchanges the entries at `i` and `j` without cloning them, by parking the
/// later one behind the vector's end for a moment.
fn swap_entries<T>(v: &mut Vec<T>, i: usize, j: usize)
    requires
        i < old(v).len(),
        j < old(v).len(),
    ensures
        final(v)@ == old(v)@.update(i as int, old(v)@[j as int]).update(
            j as int,
            old(v)@[i as int],
        ),
        final(v)@.to_multiset() == old(v)@.to_multiset(),
{
    proof {
        broadcast use vstd::seq_lib::group_to_multiset_ensures;

    }
    if i == j {
        proof {
            assert(v@ =~= old(v)@.update(i as int, old(v)@[j as int]).update(
                j as int,
                old(v)@[i as int],
            ));
        }
        return ;
    }
    let (a, b) = if i < j {
        (i, j)
    } else {
        (j, i)
    };
    let mut moved = v.swap_remove(b);
    v.set_and_swap(a, &mut moved);
    if b == v.len() {
        v.push(moved);
    } else {
        v.set_and_swap(b, &mut moved);
        v.push(moved);
    }
    proof {
        assert(v@ =~= old(v)@.update(i as int, old(v)@[j as int]).update(
            j as int,
            old(v)@[i as int],
        ));
        assert(v@.to_multiset() =~= old(v)@.to_multiset());
    }
}

/// Parent index for arity `D`; the argument must not be the root.
pub fn parent_index<const D: usize>(index: Index) -> (r: Index)
    requires
        D >= 2,
        index > 0,
    ensures
        r == parent_of(index as int, D as int),
        r < index,
{
    (index - 1) / D
}

/// Index of child number `num` (counted from 1) of `index`, for arity `D`.
pub fn child_index<const D: usize>(index: Index, num: Index) -> (r: Index)
    requires
        D >= 2,
        1 <= num <= D,
        D * index + num <= usize::MAX,
    ensures
        r == child_of(index as int, num as int, D as int),
{
    D * index + num
}

/// Index of the first (leftmost) child of `index`, for arity `D`.
pub fn first_child_index<const D: usize>(index: Index) -> (r: Index)
    requires
        D >= 2,
        D * index + 1 <= usize::MAX,
    ensures
        r == child_of(index as int, 1, D as int),
{
    child_index::<D>(index, 1)
}

/// Restores the heap invariant by lifting the entry at `index` toward the
/// root while it is smaller than its parent, one exchange per level.
///
/// The entry comes to rest at an ancestor of its starting position (or stays
/// put), so lowering an entry's priority never pushes it deeper.
pub fn bubble_up_index<T, const D: usize>(data: &mut Vec<Node<T>>, index: usize)
    requires
        D >= 2,
        index < old(data).len(),
        is_heap_except_up(old(data)@, D as int, index as int),
    ensures
        final(data)@.len() == old(data)@.len(),
        final(data)@.to_multiset() == old(data)@.to_multiset(),
        is_heap(final(data)@, D as int),
        exists|r: int|
            0 <= r <= index && #[trigger] is_ancestor_or_self(r, index as int, D as int)
                && final(data)@[r] == old(data)@[index as int],
        forall|k: int|
            0 <= k < final(data)@.len() && !is_ancestor_or_self(k, index as int, D as int)
                ==> final(data)@[k] == old(data)@[k],
{
    let ghost d = D as int;
    let ghost s0 = old(data)@;
    let mut idx = index;
    while idx > 0
        invariant
            D >= 2,
            d == D as int,
            idx <= index < data@.len(),
            data@.len() == s0.len(),
            data@.to_multiset() == s0.to_multiset(),
            is_ancestor_or_self(idx as int, index as int, d),
            data@[idx as int] == s0[index as int],
            is_heap_except_up(data@, d, idx as int),
            forall|k: int|
                0 <= k < data@.len() && !is_ancestor_or_self(k, index as int, d) ==> data@[k]
                    == s0[k],
        ensures
            idx == 0 || data@[parent_of(idx as int, d)].priority <= data@[idx as int].priority,
        decreases idx,
    {
        let parent = parent_index::<D>(idx);
        if data[parent].priority > data[idx].priority {
            let ghost s = data@;
            swap_entries(data, idx, parent);
            proof {
                let p = parent as int;
                let x = idx as int;
                lemma_parent_child(x, d);
                assert(is_ancestor_or_self(p, p, d));
                assert(is_ancestor_or_self(p, x, d));
                lemma_ancestor_transitive(p, x, index as int, d);
                assert forall|i: int|
                    1 <= i < data@.len() && i != p implies data@[parent_of(i, d)].priority <= (
                data@[i].priority) by {
                    lemma_parent_child(i, d);
                    if i == x {
                        assert(data@[p] == s[x]);
                    } else if parent_of(i, d) == x {
                        assert(s[i].priority >= s[parent_of(x, d)].priority);
                    } else if parent_of(i, d) == p {
                        assert(s[i].priority >= s[parent_of(i, d)].priority);
                    } else {
                        assert(s[i].priority >= s[parent_of(i, d)].priority);
                    }
                }
                if p >= 1 {
                    assert forall|c: int|
                        1 <= c < data@.len() && parent_of(c, d) == p implies data@[parent_of(
                        p,
                        d,
                    )].priority <= data@[c].priority by {
                        lemma_parent_child(p, d);
                        assert(s[p].priority >= s[parent_of(p, d)].priority);
                        if c != x {
                            assert(s[c].priority >= s[parent_of(c, d)].priority);
                        }
                    }
                }
            }
            idx = parent;
        } else {
            break ;
        }
    }
    proof {
        assert forall|i: int| 1 <= i < data@.len() implies data@[parent_of(i, d)].priority <= (
        data@[i].priority) by {
            if i != idx as int {
                assert(data@[i].priority >= data@[parent_of(i, d)].priority);
            }
        }
        assert(is_ancestor_or_self(idx as int, index as int, d) && data@[idx as int] == s0[index
            as int]);
    }
}

/// Restores the heap invariant after the last entry of `data` was appended:
/// lifts it toward the root until its parent is no larger.
pub fn bubble_up<T, const D: usize>(data: &mut Vec<Node<T>>)
    requires
        D >= 2,
        old(data).len() > 0,
        is_heap_except_up(old(data)@, D as int, old(data)@.len() - 1),
    ensures
        final(data)@.len() == old(data)@.len(),
        final(data)@.to_multiset() == old(data)@.to_multiset(),
        is_heap(final(data)@, D as int),
        exists|r: int|
            0 <= r < old(data)@.len() && #[trigger] is_ancestor_or_self(
                r,
                old(data)@.len() - 1,
                D as int,
            ) && final(data)@[r] == old(data)@.last(),
{
    let last = data.len() - 1;
    bubble_up_index::<T, D>(data, last);
}

/// Appending an entry to a heap disturbs at most the edge into the new last
/// position.
pub proof fn lemma_push_except_up<T>(s: Seq<Node<T>>, n: Node<T>, d: int)
    requires
        d >= 2,
        is_heap(s, d),
    ensures
        is_heap_except_up(s.push(n), d, s.len() as int),
{
    let t = s.push(n);
    let x = s.len() as int;
    assert forall|i: int| 1 <= i < t.len() && i != x implies t[parent_of(i, d)].priority <= (
    t[i].priority) by {
        lemma_parent_child(i, d);
        assert(s[i].priority >= s[parent_of(i, d)].priority);
    }
    assert forall|c: int| 1 <= c < t.len() && x >= 1 && parent_of(c, d) == x implies t[parent_of(
        x,
        d,
    )].priority <= t[c].priority by {
        lemma_parent_child(c, d);
    }
}

/// Among the children of `index` present in `data`, picks one with the
/// smallest priority and returns its position and priority; `None` when
/// `index` has no child. On equal priorities the scan keeps the *last*
/// smallest child, a deliberate tie-break: a later child whose priority ties
/// the current best replaces it.
pub fn highest_priority_child<T, const D: usize>(data: &Vec<Node<T>>, index: usize) -> (r: Option<
    (Index, Priority),
>)
    requires
        D >= 2,
        index < data.len(),
    ensures
        match r {
            None => child_of(index as int, 1, D as int) >= data@.len(),
            Some((c, p)) => ({
                let first = child_of(index as int, 1, D as int);
                let end = if first + D <= data@.len() {
                    first + D
                } else {
                    data@.len() as int
                };
                &&& first <= c < end
                &&& end <= data@.len()
                &&& p == data@[c as int].priority
                &&& parent_of(c as int, D as int) == index
                &&& (forall|j: int| first <= j < end ==> p <= #[trigger] data@[j].priority)
                &&& (forall|j: int| c < j < end ==> p < #[trigger] data@[j].priority)
            }),
        },
{
    let ghost d = D as int;
    let len = data.len();
    let first = match index.checked_mul(D) {
        Some(m) => match m.checked_add(1) {
            Some(f) => f,
            None => {
                proof {
                    assert(index * D > usize::MAX - 1);
                    assert(d * (index as int) + 1 > usize::MAX as int);
                }
                return None;
            },
        },
        None => {
            proof {
                assert(index * D > usize::MAX);
                assert(d * (index as int) + 1 > usize::MAX as int);
            }
            return None;
        },
    };
    if first >= len {
        return None;
    }
    // The window of children actually present: `first .. end`.
    let end = if len - first > D {
        first + D
    } else {
        len
    };
    let mut best_id = first;
    let mut best_p = data[first].priority;
    let mut id = first + 1;
    proof {
        lemma_child_parent(index as int, 1, d);
    }
    while id < end
        invariant
            D >= 2,
            d == D as int,
            first == child_of(index as int, 1, d),
            first < id <= end <= data@.len(),
            end <= first + D,
            first <= best_id < id,
            best_p == data@[best_id as int].priority,
            parent_of(best_id as int, d) == index,
            forall|j: int| first <= j < id ==> best_p <= #[trigger] data@[j].priority,
            forall|j: int| best_id < j < id ==> best_p < #[trigger] data@[j].priority,
        decreases end - id,
    {
        if data[id].priority <= best_p {
            best_id = id;
            best_p = data[id].priority;
            proof {
                let k = id as int - d * (index as int);
                lemma_child_parent(index as int, k, d);
            }
        }
        id = id + 1;
    }
    Some((best_id, best_p))
}

/// Restores order below `index` by sinking the entry at `index` toward the
/// leaves: while some child has a smaller priority, the smallest such child
/// (the last one on ties) is pulled up and the entry descends into its slot.
///
/// The subtrees under the children of `index` must already be heaps; the
/// whole subtree of `index` is one afterwards. When the rest of the array
/// was ordered too ([`is_heap_except_down`]), the full invariant follows.
/// The entry comes to rest at a position in the subtree of its starting
/// point, so raising an entry's priority never moves it closer to the root.
/// One sink exchange keeps the almost-heap shape: when every edge not
/// leaving `x` is ordered and `c` is a smallest child of `x` with a smaller
/// priority, exchanging them moves the only possible disorder to `c`.
proof fn lemma_sink_step_keeps_shape<T>(s: Seq<Node<T>>, s2: Seq<Node<T>>, d: int, x: int, c: int)
    requires
        d >= 2,
        0 <= x < s.len(),
        1 <= c < s.len(),
        parent_of(c, d) == x,
        s2 == s.update(x, s[c]).update(c, s[x]),
        s[x].priority > s[c].priority,
        forall|j: int|
            1 <= j < s.len() && parent_of(j, d) == x ==> s[c].priority <= #[trigger] s[j].priority,
        is_heap_except_down(s, d, x),
    ensures
        is_heap_except_down(s2, d, c),
{
    assert forall|i: int|
        1 <= i < s2.len() && parent_of(i, d) != c implies s2[parent_of(i, d)].priority <= (
    s2[i].priority) by {
        lemma_parent_child(i, d);
        if i == c {
        } else if i == x {
            assert(s[parent_of(x, d)].priority <= s[c].priority);
        } else if parent_of(i, d) == x {
        } else {
            assert(s[parent_of(i, d)].priority <= s[i].priority);
        }
    }
    assert forall|cc: int|
        1 <= cc < s2.len() && parent_of(cc, d) == c implies s2[parent_of(c, d)].priority <= (
    s2[cc].priority) by {
        lemma_parent_child(cc, d);
        assert(s[parent_of(cc, d)].priority <= s[cc].priority);
    }
}

/// The same exchange, seen from inside the subtree of `root`: the new
/// position stays in the subtree, the subtree's edges not leaving it are
/// ordered, and its children sit above its parent.
proof fn lemma_sink_step_in_subtree<T>(
    s: Seq<Node<T>>,
    s2: Seq<Node<T>>,
    d: int,
    root: int,
    x: int,
    c: int,
)
    requires
        d >= 2,
        0 <= root <= x < s.len(),
        1 <= c < s.len(),
        parent_of(c, d) == x,
        is_ancestor_or_self(root, x, d),
        s2 == s.update(x, s[c]).update(c, s[x]),
        s[x].priority > s[c].priority,
        forall|j: int|
            1 <= j < s.len() && parent_of(j, d) == x ==> s[c].priority <= #[trigger] s[j].priority,
        forall|i: int|
            1 <= i < s.len() && is_ancestor_or_self(root, i, d) && i != root && parent_of(i, d)
                != x ==> s[parent_of(i, d)].priority <= #[trigger] s[i].priority,
        x != root ==> (forall|cc: int|
            1 <= cc < s.len() && parent_of(cc, d) == x ==> s[parent_of(x, d)].priority <= (
            #[trigger] s[cc].priority)),
    ensures
        is_ancestor_or_self(root, c, d),
        forall|i: int|
            1 <= i < s2.len() && is_ancestor_or_self(root, i, d) && i != root && parent_of(i, d)
                != c ==> s2[parent_of(i, d)].priority <= #[trigger] s2[i].priority,
        forall|cc: int|
            1 <= cc < s2.len() && parent_of(cc, d) == c ==> s2[parent_of(c, d)].priority <= (
            #[trigger] s2[cc].priority),
{
    lemma_child_in_subtree(root, x, c, d);
    assert forall|i: int|
        1 <= i < s2.len() && is_ancestor_or_self(root, i, d) && i != root && parent_of(i, d)
            != c implies s2[parent_of(i, d)].priority <= s2[i].priority by {
        lemma_parent_child(i, d);
        if i == c {
        } else if i == x {
            assert(s[parent_of(x, d)].priority <= s[c].priority);
        } else if parent_of(i, d) == x {
        } else {
            assert(s[parent_of(i, d)].priority <= s[i].priority);
        }
    }
    assert forall|cc: int|
        1 <= cc < s2.len() && parent_of(cc, d) == c implies s2[parent_of(c, d)].priority <= (
    s2[cc].priority) by {
        lemma_parent_child(cc, d);
        lemma_child_in_subtree(root, c, cc, d);
        assert(s[parent_of(cc, d)].priority <= s[cc].priority);
    }
}

/// Restores order below `index` by sinking the entry at `index` toward the
/// leaves: while some child has a smaller priority, the smallest such child
/// (the last one on ties) is pulled up and the entry descends into its slot.
///
/// The subtrees under the children of `index` must already be heaps; the
/// whole subtree of `index` is one afterwards. When the rest of the array
/// was ordered too ([`is_heap_except_down`]), the full invariant follows.
/// The entry comes to rest at a position in the subtree of its starting
/// point, so raising an entry's priority never moves it closer to the root;
/// and when no child undercuts it, the array does not change at all.
#[verifier::rlimit(30)]
pub fn push_down<T, const D: usize>(data: &mut Vec<Node<T>>, index: usize)
    requires
        D >= 2,
        index < old(data).len(),
        subtree_heap_below(old(data)@, D as int, index as int),
    ensures
        final(data)@.len() == old(data)@.len(),
        final(data)@.to_multiset() == old(data)@.to_multiset(),
        subtree_is_heap(final(data)@, D as int, index as int),
        forall|k: int|
            0 <= k < final(data)@.len() && !is_ancestor_or_self(index as int, k, D as int)
                ==> final(data)@[k] == old(data)@[k],
        exists|r: int|
            index <= r < final(data)@.len() && #[trigger] is_ancestor_or_self(
                index as int,
                r,
                D as int,
            ) && final(data)@[r] == old(data)@[index as int],
        is_heap_except_down(old(data)@, D as int, index as int) ==> is_heap(
            final(data)@,
            D as int,
        ),
        (forall|c: int|
            1 <= c < old(data)@.len() && parent_of(c, D as int) == index as int ==> old(
                data,
            )@[index as int].priority <= #[trigger] old(data)@[c].priority) ==> final(data)@
            == old(data)@,
{
    let ghost d = D as int;
    let ghost s0 = old(data)@;
    // When no child undercuts the entry at `index`, nothing moves at all.
    let first_probe = highest_priority_child::<T, D>(data, index);
    let keep = match first_probe {
        None => true,
        Some((_, cp0)) => cp0 >= data[index].priority,
    };
    if keep {
        proof {
            assert forall|c: int|
                1 <= c < data@.len() && parent_of(c, d) == index as int implies data@[index
                as int].priority <= data@[c].priority by {
                lemma_parent_child(c, d);
            }
            assert forall|i: int|
                1 <= i < data@.len() && is_ancestor_or_self(index as int, i, d) && i
                    != index implies data@[parent_of(i, d)].priority <= data@[i].priority by {
                if parent_of(i, d) != index as int {
                    assert(data@[parent_of(i, d)].priority <= data@[i].priority);
                }
            }
            if is_heap_except_down(s0, d, index as int) {
                assert forall|i: int|
                    1 <= i < data@.len() implies data@[parent_of(i, d)].priority <= (
                data@[i].priority) by {
                    if parent_of(i, d) != index as int {
                        assert(data@[parent_of(i, d)].priority <= data@[i].priority);
                    }
                }
            }
            assert(is_ancestor_or_self(index as int, index as int, d) && data@[index as int]
                == s0[index as int]);
        }
        return ;
    }
    proof {
        if let Some((c0, cp0)) = first_probe {
            assert(1 <= (c0 as int) && (c0 as int) < s0.len() && parent_of(c0 as int, d)
                == index as int && s0[c0 as int].priority < s0[index as int].priority);
        }
    }
    let mut idx = index;
    loop
        invariant
            D >= 2,
            d == D as int,
            match first_probe {
                Some((c0, cp0)) => 1 <= (c0 as int) && (c0 as int) < s0.len() && parent_of(
                    c0 as int,
                    d,
                ) == index as int && s0[c0 as int].priority < s0[index as int].priority,
                None => false,
            },
            s0.len() == data@.len(),
            index <= idx < data@.len(),
            data@.to_multiset() == s0.to_multiset(),
            is_ancestor_or_self(index as int, idx as int, d),
            data@[idx as int] == s0[index as int],
            subtree_heap_below(s0, d, index as int),
            forall|k: int|
                0 <= k < data@.len() && !is_ancestor_or_self(index as int, k, d) ==> data@[k]
                    == s0[k],
            forall|i: int|
                1 <= i < data@.len() && is_ancestor_or_self(index as int, i, d) && i != index
                    && parent_of(i, d) != idx as int ==> data@[parent_of(i, d)].priority <= (
                #[trigger] data@[i].priority),
            idx != index ==> forall|c: int|
                1 <= c < data@.len() && parent_of(c, d) == idx as int ==> data@[parent_of(
                    idx as int,
                    d,
                )].priority <= #[trigger] data@[c].priority,
            is_heap_except_down(s0, d, index as int) ==> is_heap_except_down(
                data@,
                d,
                idx as int,
            ),
        ensures
            forall|c: int|
                1 <= c < data@.len() && parent_of(c, d) == idx as int ==> data@[idx
                    as int].priority <= #[trigger] data@[c].priority,
        decreases data@.len() - idx,
    {
        match highest_priority_child::<T, D>(data, idx) {
            None => {
                proof {
                    assert forall|c: int|
                        1 <= c < data@.len() && parent_of(c, d) == idx as int implies data@[idx
                        as int].priority <= data@[c].priority by {
                        lemma_parent_child(c, d);
                    }
                }
                break ;
            },
            Some((child, cp)) => {
                if data[idx].priority > cp {
                    let ghost s = data@;
                    let ghost x = idx as int;
                    let ghost c = child as int;
                    proof {
                        lemma_parent_child(c, d);
                    }
                    swap_entries(data, idx, child);
                    proof {
                        assert forall|j: int|
                            1 <= j < s.len() && parent_of(j, d) == x implies s[c].priority <= (
                        s[j].priority) by {
                            lemma_parent_child(j, d);
                        }
                        lemma_sink_step_in_subtree(s, data@, d, index as int, x, c);
                        if is_heap_except_down(s0, d, index as int) {
                            lemma_sink_step_keeps_shape(s, data@, d, x, c);
                        }
                    }
                    idx = child;
                } else {
                    proof {
                        let first = child_of(idx as int, 1, d);
                        let end = if first + D <= data@.len() {
                            first + D
                        } else {
                            data@.len() as int
                        };
                        assert forall|cc: int|
                            1 <= cc < data@.len() && parent_of(cc, d) == idx as int implies data@[idx
                            as int].priority <= data@[cc].priority by {
                            lemma_parent_child(cc, d);
                            assert(first <= cc < end);
                            assert(cp <= data@[cc].priority);
                        }
                    }
                    break ;
                }
            },
        }
    }
    proof {
        assert forall|i: int|
            1 <= i < data@.len() && is_ancestor_or_self(index as int, i, d) && i
                != index implies data@[parent_of(i, d)].priority <= data@[i].priority by {
            if parent_of(i, d) != idx as int {
                assert(data@[parent_of(i, d)].priority <= data@[i].priority);
            }
        }
        if is_heap_except_down(s0, d, index as int) {
            assert forall|i: int| 1 <= i < data@.len() implies data@[parent_of(i, d)].priority <= (
            data@[i].priority) by {
                if parent_of(i, d) != idx as int {
                    assert(data@[parent_of(i, d)].priority <= data@[i].priority);
                }
            }
        }
        assert(is_ancestor_or_self(index as int, idx as int, d) && data@[idx as int] == s0[index
            as int]);
    }
}

/// For a positive divisor, multiplying a quotient back comes within one
/// divisor of the dividend.
proof fn lemma_div_mul_bounds(n: int, d: int)
    requires
        d >= 1,
        n >= 0,
    ensures
        n - d < d * (n / d) <= n,
        n / d <= n,
        n >= 1 && d >= 2 ==> n / d < n,
{
    assert(n - d < d * (n / d) <= n && n / d <= n && (n >= 1 && d >= 2 ==> n / d < n))
        by (nonlinear_arith)
        requires
            d >= 1,
            n >= 0,
    ;
}

/// Builds the heap invariant over an arbitrary array in place, by sinking
/// every position from the last possible parent down to the root.
pub fn heapify<T, const D: usize>(data: &mut Vec<Node<T>>)
    requires
        D >= 2,
    ensures
        final(data)@.len() == old(data)@.len(),
        final(data)@.to_multiset() == old(data)@.to_multiset(),
        is_heap(final(data)@, D as int),
{
    let ghost d = D as int;
    let ghost s0 = old(data)@;
    if data.len() == 0 {
        return ;
    }
    proof {
        lemma_div_mul_bounds(s0.len() as int, d);
    }
    let mut i = data.len() / D + 1;
    proof {
        assert forall|k: int|
            1 <= k < data@.len() && parent_of(k, d) >= i as int implies data@[parent_of(
            k,
            d,
        )].priority <= data@[k].priority by {
            lemma_parent_child(k, d);
            assert(k >= d * parent_of(k, d) + 1);
            assert(d * parent_of(k, d) >= d * (i as int)) by (nonlinear_arith)
                requires
                    d >= 2,
                    parent_of(k, d) >= i as int,
            ;
            assert(d * (s0.len() as int / d + 1) == d * (s0.len() as int / d) + d)
                by (nonlinear_arith);
            assert(d * (i as int) > s0.len() as int);
        }
    }
    while i > 0
        invariant
            D >= 2,
            d == D as int,
            0 < data@.len() == s0.len(),
            i <= data@.len(),
            data@.to_multiset() == s0.to_multiset(),
            forall|k: int|
                1 <= k < data@.len() && parent_of(k, d) >= i as int ==> data@[parent_of(
                    k,
                    d,
                )].priority <= #[trigger] data@[k].priority,
        decreases i,
    {
        i = i - 1;
        let ghost s = data@;
        proof {
            assert forall|k: int|
                1 <= k < s.len() && is_ancestor_or_self(i as int, k, d) && k != i as int
                    && parent_of(k, d) != i as int implies s[parent_of(k, d)].priority <= (
            s[k].priority) by {
                lemma_parent_child(k, d);
                lemma_descendant_larger(i as int, parent_of(k, d), d);
            }
        }
        push_down::<T, D>(data, i);
        proof {
            assert forall|k: int|
                1 <= k < data@.len() && parent_of(k, d) >= i as int implies data@[parent_of(
                k,
                d,
            )].priority <= data@[k].priority by {
                lemma_parent_child(k, d);
                if is_ancestor_or_self(i as int, k as int, d) {
                    assert(k != i as int);
                } else {
                    if is_ancestor_or_self(i as int, parent_of(k, d), d) {
                        lemma_child_in_subtree(i as int, parent_of(k, d), k, d);
                        assert(false);
                    }
                    assert(is_ancestor_or_self(i as int, i as int, d));
                    assert(parent_of(k, d) != i as int);
                    assert(s[parent_of(k, d)].priority <= s[k].priority);
                }
            }
        }
    }
    proof {
        assert forall|k: int| 1 <= k < data@.len() implies data@[parent_of(k, d)].priority <= (
        data@[k].priority) by {
            lemma_parent_child(k, d);
        }
    }
}

/// Removing position `i` by overwriting it with the last entry and dropping
/// the last slot takes exactly one occurrence of `s[i]` out of the contents.
proof fn lemma_swap_remove_multiset<A>(s: Seq<A>, i: int)
    requires
        0 <= i < s.len(),
    ensures
        s.update(i, s.last()).drop_last().to_multiset() == s.to_multiset().remove(s[i]),
{
    broadcast use vstd::seq_lib::group_to_multiset_ensures;
    broadcast use vstd::multiset::group_multiset_axioms;

    let t = s.update(i, s.last());
    assert(t.drop_last() =~= t.remove(t.len() - 1));
    assert(t.remove(t.len() - 1).to_multiset() =~= t.to_multiset().remove(t.last()));
    if i == s.len() - 1 {
        assert(t =~= s);
        assert(t.to_multiset().remove(t.last()) =~= s.to_multiset().remove(s[i]));
    } else {
        assert(t.last() == s.last());
        assert(t.to_multiset() =~= s.to_multiset().insert(s.last()).remove(s[i]));
        assert(s.contains(s[i]) && s.contains(s.last()));
        assert(s.to_multiset().count(s[i]) > 0 && s.to_multiset().count(s.last()) > 0);
        assert(t.to_multiset().remove(t.last()) =~= s.to_multiset().remove(s[i]));
    }
}

/// In a heap the root carries a smallest priority: no entry is below it.
pub proof fn lemma_root_min<T>(s: Seq<Node<T>>, d: int, i: int)
    requires
        d >= 2,
        is_heap(s, d),
        0 <= i < s.len(),
    ensures
        s[0].priority <= s[i].priority,
    decreases i,
{
    if i > 0 {
        lemma_parent_child(i, d);
        assert(s[parent_of(i, d)].priority <= s[i].priority);
        lemma_root_min(s, d, parent_of(i, d));
    }
}

/// Extraction yields priorities in non-decreasing order: when one heap holds
/// exactly the entries of another minus its root, the new root's priority is
/// no smaller than the removed one's. Repeated extraction therefore reads
/// the stored priorities in sorted order.
pub proof fn lemma_extract_order<T>(pre: Seq<Node<T>>, post: Seq<Node<T>>, d: int)
    requires
        d >= 2,
        is_heap(pre, d),
        is_heap(post, d),
        pre.len() > 0,
        post.len() > 0,
        post.to_multiset() == pre.to_multiset().remove(pre[0]),
    ensures
        pre[0].priority <= post[0].priority,
{
    broadcast use vstd::seq_lib::group_to_multiset_ensures;
    broadcast use vstd::multiset::group_multiset_axioms;

    assert(post.contains(post[0]));
    assert(post.to_multiset().count(post[0]) > 0);
    assert(post.to_multiset().count(post[0]) <= pre.to_multiset().count(post[0]));
    assert(pre.contains(post[0]));
    let k = choose|k: int| 0 <= k < pre.len() && pre[k] == post[0];
    lemma_root_min(pre, d, k);
}

/// Error of [`Heap::peek`] and [`Heap::top`] on a heap without entries.
#[derive(Debug, Clone, Copy, PartialEq, Eq, Structural)]
pub struct EmptyHeap;

/// Error of [`Heap::remove`] and [`Heap::update`] when no stored value
/// equals the one asked for.
#[derive(Debug, Clone, Copy, PartialEq, Eq, Structural)]
pub struct NotFound;

/// An array-backed min-heap with branching factor `D`, fixed per type.
#[derive(Debug)]
pub struct Heap<T, const D: usize> {
    data: Data<T>,
}

impl<T, const D: usize> View for Heap<T, D> {
    type V = Seq<Node<T>>;

    closed spec fn view(&self) -> Seq<Node<T>> {
        self.data@
    }
}

impl<T, const D: usize> Heap<T, D> where T: PartialEq {
    /// The container invariant: a sensible arity and the heap order over the
    /// backing array.
    pub open spec fn wf(self) -> bool {
        D >= 2 && is_heap(self@, D as int)
    }

    /// Creates an empty heap.
    pub fn new() -> (r: Self)
        requires
            D >= 2,
        ensures
            r.wf(),
            r@ == Seq::<Node<T>>::empty(),
    {
        Heap { data: Vec::<Node<T>>::new() }
    }

    /// Creates a heap over the given entries, heapifying them in place.
    pub fn new_from(mut data: Data<T>) -> (r: Self)
        requires
            D >= 2,
        ensures
            r.wf(),
            r@.len() == data@.len(),
            r@.to_multiset() == data@.to_multiset(),
    {
        heapify::<T, D>(&mut data);
        Heap { data }
    }

    /// Creates an empty heap whose backing array has room for `capacity`
    /// entries.
    pub fn with_capacity(capacity: usize) -> (r: Self)
        requires
            D >= 2,
        ensures
            r.wf(),
            r@ == Seq::<Node<T>>::empty(),
    {
        let data = Vec::<Node<T>>::with_capacity(capacity);
        Heap { data }
    }

    /// Replaces the contents with the given entries, heapified; the previous
    /// contents are dropped.
    pub fn from(self, data: Data<T>) -> (r: Self)
        requires
            D >= 2,
        ensures
            r.wf(),
            r@.len() == data@.len(),
            r@.to_multiset() == data@.to_multiset(),
    {
        let mut data = data;
        heapify::<T, D>(&mut data);
        Heap { data }
    }

    /// Replaces the contents in place with the given entries, heapified.
    pub fn new_heap(&mut self, data: Data<T>)
        requires
            D >= 2,
        ensures
            final(self).wf(),
            final(self)@.len() == data@.len(),
            final(self)@.to_multiset() == data@.to_multiset(),
    {
        self.data = data;
        heapify::<T, D>(&mut self.data);
    }

    /// True exactly when the heap holds no entry.
    pub fn is_empty(&self) -> (r: bool)
        ensures
            r <==> self@.len() == 0,
    {
        self.data.is_empty()
    }

    /// Number of stored entries.
    pub fn len(&self) -> (r: usize)
        ensures
            r == self@.len(),
    {
        self.data.len()
    }

    /// The value with the smallest stored priority, left in place; an error
    /// on an empty heap.
    pub fn peek(&self) -> (r: Result<&T, EmptyHeap>)
        requires
            self.wf(),
        ensures
            match r {
                Ok(v) => self@.len() > 0 && *v == self@[0].value && (forall|k: int|
                    0 <= k < self@.len() ==> self@[0].priority <= (#[trigger] self@[k].priority)),
                Err(e) => self@.len() == 0,
            },
    {
        if self.data.is_empty() {
            Err(EmptyHeap)
        } else {
            proof {
                assert forall|k: int| 0 <= k < self@.len() implies self@[0].priority <= (
                #[trigger] self@[k].priority) by {
                    lemma_root_min(self@, D as int, k);
                }
            }
            Ok(&self.data[0].value)
        }
    }

    /// Extracts the value with the smallest stored priority: the root is
    /// overwritten by the last entry, the array shrinks by one, and the
    /// moved entry sinks back into place. An error on an empty heap.
    pub fn top(&mut self) -> (r: Result<T, EmptyHeap>)
        requires
            old(self).wf(),
        ensures
            final(self).wf(),
            old(self)@.len() == 0 ==> r is Err && final(self)@ == old(self)@,
            old(self)@.len() > 0 ==> {
                &&& r == Ok::<T, EmptyHeap>(old(self)@[0].value)
                &&& final(self)@.len() == old(self)@.len() - 1
                &&& final(self)@.to_multiset() == old(self)@.to_multiset().remove(old(self)@[0])
                &&& (forall|k: int|
                    0 <= k < old(self)@.len() ==> old(self)@[0].priority <= (#[trigger] old(
                        self,
                    )@[k].priority))
            },
    {
        let ghost d = D as int;
        let ghost s = self@;
        if self.data.is_empty() {
            return Err(EmptyHeap);
        }
        proof {
            assert forall|k: int| 0 <= k < s.len() implies s[0].priority <= (
            #[trigger] s[k].priority) by {
                lemma_root_min(s, d, k);
            }
            lemma_swap_remove_multiset(s, 0);
        }
        let node = self.data.swap_remove(0);
        if self.data.len() > 0 {
            proof {
                let s1 = self@;
                assert forall|i: int|
                    1 <= i < s1.len() && parent_of(i, d) != 0 implies s1[parent_of(i, d)].priority
                    <= s1[i].priority by {
                    lemma_parent_child(i, d);
                    assert(s[parent_of(i, d)].priority <= s[i].priority);
                }
                assert(subtree_heap_below(s1, d, 0));
                assert(is_heap_except_down(s1, d, 0));
            }
            push_down::<T, D>(&mut self.data, 0);
        }
        Ok(node.value)
    }

    /// Appends the entry and lifts it to its place.
    pub fn insert(&mut self, value: T, priority: Priority)
        requires
            old(self).wf(),
        ensures
            final(self).wf(),
            final(self)@.len() == old(self)@.len() + 1,
            final(self)@.to_multiset() == old(self)@.to_multiset().insert(
                (Node { value, priority }),
            ),
    {
        let ghost d = D as int;
        let ghost s = self@;
        self.data.push(Node { value, priority });
        proof {
            broadcast use vstd::seq_lib::group_to_multiset_ensures;

            lemma_push_except_up(s, (Node { value, priority }), d);
        }
        bubble_up::<T, D>(&mut self.data);
    }

    /// Position of the first entry whose value equals `value`, by a linear
    /// scan; what `==` decides is only pinned down for types whose equality
    /// obeys its specification.
    fn find(&self, value: &T) -> (r: Option<Index>)
        ensures
            match r {
                Some(i) => (i as int) < self@.len() && (T::obeys_eq_spec()
                    ==> is_first_match(self@, *value, i as int)),
                None => T::obeys_eq_spec() ==> !has_match(self@, *value),
            },
    {
        let mut i: usize = 0;
        while i < self.data.len()
            invariant
                i <= self@.len(),
                T::obeys_eq_spec() ==> forall|j: int|
                    0 <= j < i ==> !(#[trigger] entry_matches(self@[j], *value)),
            decreases self@.len() - i,
        {
            if self.data[i].value == *value {
                return Some(i);
            }
            i = i + 1;
        }
        None
    }

    /// Removes the first entry whose value equals `value`: its slot is
    /// overwritten by the last entry, the array shrinks by one, and the
    /// moved entry is lifted or sunk as its priority demands. An error when
    /// no value matches, with the heap untouched.
    pub fn remove(&mut self, value: T) -> (r: Result<(), NotFound>)
        requires
            old(self).wf(),
        ensures
            final(self).wf(),
            r is Err ==> final(self)@ == old(self)@ && (T::obeys_eq_spec() ==> !has_match(
                old(self)@,
                value,
            )),
            T::obeys_eq_spec() ==> ((r is Ok) <==> has_match(old(self)@, value)),
            r is Ok ==> final(self)@.len() == old(self)@.len() - 1 && (exists|i: int|
                {
                    &&& 0 <= i < old(self)@.len()
                    &&& (T::obeys_eq_spec() ==> is_first_match(old(self)@, value, i))
                    &&& final(self)@.to_multiset() == old(self)@.to_multiset().remove(
                        old(self)@[i],
                    )
                }),
    {
        let ghost d = D as int;
        let ghost s = self@;
        match self.find(&value) {
            None => Err(NotFound),
            Some(index) => {
                proof {
                    lemma_swap_remove_multiset(s, index as int);
                    if T::obeys_eq_spec() {
                        assert(entry_matches(s[index as int], value));
                    }
                }
                let node = self.data.swap_remove(index);
                let ghost s1 = self@;
                let ghost x = index as int;
                if index < self.data.len() {
                    let go_up = if index > 0 {
                        let p = parent_index::<D>(index);
                        self.data[p].priority > self.data[index].priority
                    } else {
                        false
                    };
                    if go_up {
                        proof {
                            lemma_parent_child(x, d);
                            assert forall|i: int|
                                1 <= i < s1.len() && i != x implies s1[parent_of(i, d)].priority
                                <= s1[i].priority by {
                                lemma_parent_child(i, d);
                                if parent_of(i, d) == x {
                                    assert(s[i].priority >= s[x].priority);
                                    assert(s[x].priority >= s[parent_of(x, d)].priority);
                                } else {
                                    assert(s[parent_of(i, d)].priority <= s[i].priority);
                                }
                            }
                            assert forall|c: int|
                                1 <= c < s1.len() && parent_of(c, d) == x implies s1[parent_of(
                                x,
                                d,
                            )].priority <= s1[c].priority by {
                                lemma_parent_child(c, d);
                                assert(s[c].priority >= s[x].priority);
                                assert(s[x].priority >= s[parent_of(x, d)].priority);
                            }
                            assert(is_heap_except_up(s1, d, x));
                        }
                        bubble_up_index::<T, D>(&mut self.data, index);
                    } else {
                        proof {
                            assert forall|i: int|
                                1 <= i < s1.len() && parent_of(i, d) != x implies s1[parent_of(
                                i,
                                d,
                            )].priority <= s1[i].priority by {
                                lemma_parent_child(i, d);
                                if i != x {
                                    assert(s[parent_of(i, d)].priority <= s[i].priority);
                                }
                            }
                            assert forall|c: int|
                                1 <= c < s1.len() && x >= 1 && parent_of(c, d) == x implies s1[parent_of(
                                x,
                                d,
                            )].priority <= s1[c].priority by {
                                lemma_parent_child(c, d);
                                assert(s[c].priority >= s[x].priority);
                                assert(s[x].priority >= s[parent_of(x, d)].priority);
                            }
                            assert(is_heap_except_down(s1, d, x));
                            assert(subtree_heap_below(s1, d, x));
                        }
                        push_down::<T, D>(&mut self.data, index);
                    }
                } else {
                    proof {
                        assert forall|i: int| 1 <= i < s1.len() implies s1[parent_of(
                            i,
                            d,
                        )].priority <= s1[i].priority by {
                            lemma_parent_child(i, d);
                            assert(s[parent_of(i, d)].priority <= s[i].priority);
                        }
                    }
                }
                proof {
                    assert(0 <= x < s.len() && self@.to_multiset() == s.to_multiset().remove(
                        s[x],
                    ));
                }
                Ok(())
            },
        }
    }

    /// Gives the first entry whose value equals `value` the new priority,
    /// then lifts it when the priority dropped and sinks it otherwise.
    /// An error when no value matches, with the heap untouched. A lowered
    /// priority never moves the entry deeper, a raised one never moves it
    /// nearer to the root.
    #[verifier::rlimit(60)]
    pub fn update(&mut self, value: T, priority: Priority) -> (r: Result<(), NotFound>)
        requires
            old(self).wf(),
        ensures
            final(self).wf(),
            final(self)@.len() == old(self)@.len(),
            r is Err ==> final(self)@ == old(self)@ && (T::obeys_eq_spec() ==> !has_match(
                old(self)@,
                value,
            )),
            T::obeys_eq_spec() ==> ((r is Ok) <==> has_match(old(self)@, value)),
            r is Ok ==> (exists|i: int|
                {
                    &&& 0 <= i < old(self)@.len()
                    &&& (T::obeys_eq_spec() ==> is_first_match(old(self)@, value, i))
                    &&& final(self)@.to_multiset() == old(self)@.to_multiset().remove(
                        old(self)@[i],
                    ).insert((Node { value: old(self)@[i].value, priority }))
                    &&& (exists|j: int|
                        0 <= j < final(self)@.len() && final(self)@[j] == (Node {
                            value: old(self)@[i].value,
                            priority,
                        }) && (priority <= old(self)@[i].priority ==> is_ancestor_or_self(
                            j,
                            i,
                            D as int,
                        )) && (priority >= old(self)@[i].priority ==> is_ancestor_or_self(
                            i,
                            j,
                            D as int,
                        )))
                }),
    {
        let ghost d = D as int;
        let ghost s = self@;
        match self.find(&value) {
            None => Err(NotFound),
            Some(index) => {
                proof {
                    if T::obeys_eq_spec() {
                        assert(entry_matches(s[index as int], value));
                    }
                }
                let old_priority = self.data[index].priority;
                self.data[index].priority = priority;
                let ghost s1 = self@;
                let ghost x = index as int;
                let ghost stored = (Node { value: s[x].value, priority });
                proof {
                    broadcast use vstd::seq_lib::group_to_multiset_ensures;

                    assert(s1 == s.update(x, stored));
                    assert(s1.to_multiset() == s.to_multiset().remove(s[x]).insert(stored));
                }
                if old_priority > priority {
                    proof {
                        assert forall|i: int|
                            1 <= i < s1.len() && i != x implies s1[parent_of(i, d)].priority
                            <= s1[i].priority by {
                            lemma_parent_child(i, d);
                            assert(s[parent_of(i, d)].priority <= s[i].priority);
                        }
                        assert forall|c: int|
                            1 <= c < s1.len() && x >= 1 && parent_of(c, d) == x implies s1[parent_of(
                            x,
                            d,
                        )].priority <= s1[c].priority by {
                            lemma_parent_child(c, d);
                            lemma_parent_child(x, d);
                            assert(s[c].priority >= s[x].priority);
                            assert(s[x].priority >= s[parent_of(x, d)].priority);
                        }
                        assert(is_heap_except_up(s1, d, x));
                    }
                    bubble_up_index::<T, D>(&mut self.data, index);
                    proof {
                        let j = choose|j: int|
                            0 <= j <= x && #[trigger] is_ancestor_or_self(j, x, d) && self@[j]
                                == s1[x];
                        assert(self@[j] == stored && is_ancestor_or_self(j, x, d));
                    }
                } else {
                    proof {
                        assert forall|i: int|
                            1 <= i < s1.len() && parent_of(i, d) != x implies s1[parent_of(
                            i,
                            d,
                        )].priority <= s1[i].priority by {
                            lemma_parent_child(i, d);
                            if i != x {
                                assert(s[parent_of(i, d)].priority <= s[i].priority);
                            } else {
                                assert(s[parent_of(x, d)].priority <= s[x].priority);
                            }
                        }
                        assert forall|c: int|
                            1 <= c < s1.len() && x >= 1 && parent_of(c, d) == x implies s1[parent_of(
                            x,
                            d,
                        )].priority <= s1[c].priority by {
                            lemma_parent_child(c, d);
                            lemma_parent_child(x, d);
                            assert(s[c].priority >= s[x].priority);
                            assert(s[x].priority >= s[parent_of(x, d)].priority);
                        }
                        assert(is_heap_except_down(s1, d, x));
                        assert(subtree_heap_below(s1, d, x));
                    }
                    push_down::<T, D>(&mut self.data, index);
                    proof {
                        if priority == old_priority {
                            assert forall|c: int|
                                1 <= c < s1.len() && parent_of(c, d) == x implies s1[x].priority
                                <= s1[c].priority by {
                                lemma_parent_child(c, d);
                                assert(s[c].priority >= s[x].priority);
                            }
                            assert(self@ == s1);
                            assert(is_ancestor_or_self(x, x, d));
                            assert(self@[x] == stored && is_ancestor_or_self(x, x, d));
                        } else {
                            let j = choose|j: int|
                                x <= j < self@.len() && #[trigger] is_ancestor_or_self(x, j, d)
                                    && self@[j] == s1[x];
                            assert(self@[j] == stored && is_ancestor_or_self(x, j, d));
                        }
                    }
                }
                Ok(())
            },
        }
    }
}

} // verus!
