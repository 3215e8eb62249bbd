//! The k-d tree itself: the flat node store, capacity management, the
//! split/partition insertion algorithm, exact and range queries,
//! nearest-neighbor search with branch-and-bound pruning, removal with
//! structural collapse, and full rebuild.

use vstd::prelude::*;

verus! {

/// One occupied slot of the node store: either a stored point (a `Leaf`)
/// or a splitting hyperplane (a `Partition` holding the split value and the
/// axis it bisects).
enum Node<V> {
    Leaf { coord: Vec<i32>, value: V },
    Partition { split: i32, axis: usize },
}

/// Number of slots a tree built by `KdTree::new` preallocates.
pub const DEFAULT_CAPACITY: usize = 50;

/// What can go wrong when the tree is asked to store a point.
#[derive(Clone, Copy, Debug, PartialEq, Eq, Structural)]
pub enum KdError {
    /// The coordinate has a different component count than the tree is keyed
    /// on: a caller error, reported at the offending call.
    DimensionMismatch,
    /// The store cannot grow far enough to address the slot a split needs:
    /// fatal resource exhaustion, reported with the tree unchanged.
    AllocationFailure,
}

/// A k-dimensional space-partitioning index mapping coordinates (tuples of
/// `i32` components) to values.
///
/// The node store is a flat sequence of optional slots addressed by implicit
/// binary-tree index: the root lives at slot 0 and the children of slot `i`
/// at slots `2i + 1` and `2i + 2`. The dimensionality is fixed by the first
/// insertion and enforced from then on, until the tree empties again.
pub struct KdTree<V> {
    nodes: Vec<Option<Node<V>>>,
    size: usize,
    dim: usize,
}

/// Termination measure for walking the implicit tree downward: children of
/// slot `i` sit at strictly larger indices, so the distance to the end of
/// the store shrinks on every step down.
spec fn measure(len: int, i: int) -> nat {
    if 0 <= i < len {
        (len - i) as nat
    } else {
        0
    }
}

/// The slot at index `i`, with every index outside the store reading as empty.
spec fn slot<V>(s: Seq<Option<Node<V>>>, i: int) -> Option<Node<V>> {
    if 0 <= i < s.len() {
        s[i]
    } else {
        None
    }
}

/// The set of points stored in the subtree rooted at slot `i`, as a map from
/// coordinates to values. An empty or out-of-range slot holds no points; a
/// leaf holds exactly one; a partition holds the points of its two children.
spec fn sub_map<V>(s: Seq<Option<Node<V>>>, i: int) -> Map<Seq<i32>, V>
    decreases measure(s.len() as int, i),
{
    match slot(s, i) {
        None => Map::empty(),
        Some(Node::Leaf { coord, value }) => Map::empty().insert(coord@, value),
        Some(Node::Partition { .. }) => sub_map(s, 2 * i + 1).union_prefer_right(
            sub_map(s, 2 * i + 2),
        ),
    }
}

/// Well-formedness of the subtree rooted at slot `i`, for dimensionality `k`:
/// every leaf coordinate has `k` components; every partition splits on an
/// axis below `k`, has both child slots inside the store, still has at least
/// one occupied child (a partition whose descendants are all gone is
/// collapsed by removal), and separates its children by its hyperplane:
/// coordinates on the left are strictly below the split value on the split
/// axis, coordinates on the right are greater or equal.
spec fn sub_wf<V>(s: Seq<Option<Node<V>>>, i: int, k: int) -> bool
    decreases measure(s.len() as int, i),
{
    match slot(s, i) {
        None => true,
        Some(Node::Leaf { coord, .. }) => coord@.len() == k,
        Some(Node::Partition { split, axis }) => {
            &&& (axis as int) < k
            &&& 2 * i + 2 < s.len()
            &&& (slot(s, 2 * i + 1) is Some || slot(s, 2 * i + 2) is Some)
            &&& sub_wf(s, 2 * i + 1, k)
            &&& sub_wf(s, 2 * i + 2, k)
            &&& forall|c: Seq<i32>| #[trigger] sub_map(s, 2 * i + 1).dom().contains(c)
                ==> c[axis as int] < split
            &&& forall|c: Seq<i32>| #[trigger] sub_map(s, 2 * i + 2).dom().contains(c)
                ==> c[axis as int] >= split
        },
    }
}

/// Height of the subtree rooted at slot `i`; the termination measure of the
/// executable descents.
spec fn sub_height<V>(s: Seq<Option<Node<V>>>, i: int) -> nat
    decreases measure(s.len() as int, i),
{
    match slot(s, i) {
        None => 0,
        Some(Node::Leaf { .. }) => 1,
        Some(Node::Partition { .. }) => {
            let hl = sub_height(s, 2 * i + 1);
            let hr = sub_height(s, 2 * i + 2);
            1 + if hl >= hr {
                hl
            } else {
                hr
            }
        },
    }
}

spec fn idx_measure(j: int) -> nat {
    if j >= 0 {
        j as nat
    } else {
        0
    }
}

/// Slot `j` lies in the implicit subtree rooted at slot `i`: it is `i`
/// itself, or its parent slot `(j - 1) / 2` lies there, transitively.
spec fn in_sub(i: int, j: int) -> bool
    decreases idx_measure(j),
{
    if j == i {
        true
    } else if j <= 0 || j <= i {
        false
    } else {
        in_sub(i, (j - 1) / 2)
    }
}

proof fn lemma_in_sub_child(i: int)
    requires
        i >= 0,
    ensures
        in_sub(i, i),
        in_sub(i, 2 * i + 1),
        in_sub(i, 2 * i + 2),
{
    assert(in_sub(i, i));
    assert((2 * i + 1 - 1) / 2 == i);
    assert((2 * i + 2 - 1) / 2 == i);
    assert(in_sub(i, 2 * i + 1));
    assert(in_sub(i, 2 * i + 2));
}

proof fn lemma_in_sub_trans(i: int, c: int, j: int)
    requires
        0 <= i,
        in_sub(i, c),
        in_sub(c, j),
    ensures
        in_sub(i, j),
    decreases idx_measure(j),
{
    if j != c {
        lemma_in_sub_trans(i, c, (j - 1) / 2);
    }
}

proof fn lemma_in_sub_chain(a: int, b: int, j: int)
    requires
        0 <= a,
        0 <= b,
        in_sub(a, j),
        in_sub(b, j),
    ensures
        in_sub(a, b) || in_sub(b, a),
    decreases idx_measure(j),
{
    if j != a && j != b {
        lemma_in_sub_chain(a, b, (j - 1) / 2);
    }
}

/// The two subtrees under a partition share no slot.
proof fn lemma_siblings_disjoint(i: int, j: int)
    requires
        0 <= i,
    ensures
        !(in_sub(2 * i + 1, j) && in_sub(2 * i + 2, j)),
{
    if in_sub(2 * i + 1, j) && in_sub(2 * i + 2, j) {
        lemma_in_sub_chain(2 * i + 1, 2 * i + 2, j);
        assert((2 * i + 2 - 1) / 2 == i);
        assert(!in_sub(2 * i + 1, i));
        assert(!in_sub(2 * i + 1, 2 * i + 2));
        assert(!in_sub(2 * i + 2, 2 * i + 1));
    }
}

/// Everything the model says of the subtree rooted at `i` depends only on
/// the slots of that subtree: a store that agrees there (and has not shrunk,
/// so child indices stay inside it) has the same points and the same height,
/// and stays well-formed.
proof fn lemma_sub_agree<V>(s1: Seq<Option<Node<V>>>, s2: Seq<Option<Node<V>>>, i: int, k: int)
    requires
        0 <= i,
        s2.len() >= s1.len(),
        forall|j: int| #[trigger] in_sub(i, j) ==> slot(s1, j) == slot(s2, j),
    ensures
        sub_map(s2, i) == sub_map(s1, i),
        sub_height(s2, i) == sub_height(s1, i),
        sub_wf(s1, i, k) ==> sub_wf(s2, i, k),
    decreases measure(s2.len() as int, i),
{
    lemma_in_sub_child(i);
    assert(slot(s1, i) == slot(s2, i));
    match slot(s1, i) {
        None => {},
        Some(Node::Leaf { .. }) => {},
        Some(Node::Partition { .. }) => {
            let l = 2 * i + 1;
            let r = 2 * i + 2;
            assert forall|j: int| #[trigger] in_sub(l, j) implies slot(s1, j) == slot(s2, j) by {
                lemma_in_sub_trans(i, l, j);
            }
            assert forall|j: int| #[trigger] in_sub(r, j) implies slot(s1, j) == slot(s2, j) by {
                lemma_in_sub_trans(i, r, j);
            }
            lemma_sub_agree(s1, s2, l, k);
            lemma_sub_agree(s1, s2, r, k);
        },
    }
}

/// Every coordinate stored beneath a well-formed slot has `k` components.
proof fn lemma_keys_dim<V>(s: Seq<Option<Node<V>>>, i: int, k: int)
    requires
        0 <= i,
        sub_wf(s, i, k),
    ensures
        forall|c: Seq<i32>| #[trigger] sub_map(s, i).dom().contains(c) ==> c.len() == k,
    decreases measure(s.len() as int, i),
{
    match slot(s, i) {
        None => {},
        Some(Node::Leaf { .. }) => {},
        Some(Node::Partition { .. }) => {
            lemma_keys_dim(s, 2 * i + 1, k);
            lemma_keys_dim(s, 2 * i + 2, k);
            assert forall|c: Seq<i32>| #[trigger] sub_map(s, i).dom().contains(c) implies c.len()
                == k by {
                assert(sub_map(s, 2 * i + 1).dom().contains(c) || sub_map(
                    s,
                    2 * i + 2,
                ).dom().contains(c));
            }
        },
    }
}

/// An occupied well-formed slot stores at least one point. In particular a
/// partition that has lost every descendant leaf cannot remain: removal
/// collapses it.
proof fn lemma_occupied_nonempty<V>(s: Seq<Option<Node<V>>>, i: int, k: int)
    requires
        0 <= i,
        sub_wf(s, i, k),
        slot(s, i) is Some,
    ensures
        exists|c: Seq<i32>| sub_map(s, i).dom().contains(c),
    decreases measure(s.len() as int, i),
{
    match slot(s, i) {
        None => {},
        Some(Node::Leaf { coord, .. }) => {
            assert(sub_map(s, i).dom().contains(coord@));
        },
        Some(Node::Partition { .. }) => {
            if slot(s, 2 * i + 1) is Some {
                lemma_occupied_nonempty(s, 2 * i + 1, k);
                let c = choose|c: Seq<i32>| #[trigger] sub_map(s, 2 * i + 1).dom().contains(c);
                assert(sub_map(s, i).dom().contains(c));
            } else {
                lemma_occupied_nonempty(s, 2 * i + 2, k);
                let c = choose|c: Seq<i32>| #[trigger] sub_map(s, 2 * i + 2).dom().contains(c);
                assert(sub_map(s, i).dom().contains(c));
            }
        },
    }
}

/// The point set of any subtree is finite.
proof fn lemma_sub_map_finite<V>(s: Seq<Option<Node<V>>>, i: int)
    ensures
        sub_map(s, i).dom().finite(),
    decreases measure(s.len() as int, i),
{
    match slot(s, i) {
        None => {},
        Some(Node::Leaf { .. }) => {},
        Some(Node::Partition { .. }) => {
            lemma_sub_map_finite(s, 2 * i + 1);
            lemma_sub_map_finite(s, 2 * i + 2);
            assert(sub_map(s, i).dom() =~= sub_map(s, 2 * i + 1).dom().union(
                sub_map(s, 2 * i + 2).dom(),
            ));
        },
    }
}

/// Component-wise equality of two coordinates.
fn coords_eq(a: &Vec<i32>, b: &Vec<i32>) -> (r: bool)
    ensures
        r <==> a@ == b@,
{
    if a.len() != b.len() {
        return false;
    }
    let mut j: usize = 0;
    while j < a.len()
        invariant
            j <= a.len(),
            a@.len() == b@.len(),
            forall|m: int| 0 <= m < j ==> a@[m] == b@[m],
        decreases a.len() - j,
    {
        if a[j] != b[j] {
            return false;
        }
        j = j + 1;
    }
    proof {
        assert(a@ =~= b@);
    }
    true
}

/// Grows the store until index `idx` is addressable, filling new slots with
/// empty ones. Existing slots keep their contents, so every subtree keeps its
/// points: growth never invalidates the structure.
fn ensure_capacity<V>(nodes: &mut Vec<Option<Node<V>>>, idx: usize)
    ensures
        final(nodes)@.len() > idx,
        final(nodes)@.len() >= old(nodes)@.len(),
        final(nodes)@.len() == old(nodes)@.len() || final(nodes)@.len() == idx + 1,
        forall|j: int| #[trigger] slot(final(nodes)@, j) == slot(old(nodes)@, j),
{
    while nodes.len() <= idx
        invariant
            nodes@.len() >= old(nodes)@.len(),
            nodes@.len() == old(nodes)@.len() || nodes@.len() <= idx as int + 1,
            forall|j: int| 0 <= j < old(nodes)@.len() ==> nodes@[j] == old(nodes)@[j],
            forall|j: int| old(nodes)@.len() <= j < nodes@.len() ==> nodes@[j] is None,
        decreases idx as int + 1 - nodes@.len(),
    {
        nodes.push(None);
    }
    proof {
        assert forall|j: int| #[trigger] slot(nodes@, j) == slot(old(nodes)@, j) by {
            if 0 <= j < old(nodes)@.len() {
            } else if old(nodes)@.len() <= j < nodes@.len() {
                assert(slot(nodes@, j) is None);
            }
        }
    }
}

/// Moves the node out of slot `i`, leaving the slot empty.
fn take_slot<V>(nodes: &mut Vec<Option<Node<V>>>, i: usize) -> (n: Option<Node<V>>)
    requires
        i < old(nodes)@.len(),
    ensures
        n == old(nodes)@[i as int],
        final(nodes)@ == old(nodes)@.update(i as int, None),
{
    let n = nodes.remove(i);
    nodes.insert(i, None);
    proof {
        assert(nodes@ =~= old(nodes)@.update(i as int, None));
    }
    n
}

/// The axis checked in round `m` of the cyclic scan that starts at `start`.
spec fn wrap(start: int, m: int, k: int) -> int {
    if m < k - start {
        start + m
    } else {
        m - (k - start)
    }
}

/// Finds an axis on which the two (distinct) coordinates differ, scanning
/// cyclically from `start`, the axis the depth of the collision calls for.
fn choose_axis(a: &Vec<i32>, b: &Vec<i32>, start: usize) -> (ax: usize)
    requires
        a@.len() == b@.len(),
        a@ != b@,
        (start as int) < a@.len(),
    ensures
        (ax as int) < a@.len(),
        a@[ax as int] != b@[ax as int],
{
    let k = a.len();
    let mut m: usize = 0;
    while m < k
        invariant
            m <= k,
            k == a@.len(),
            a@.len() == b@.len(),
            (start as int) < k as int,
            forall|t: int| 0 <= t < m ==> a@[#[trigger] wrap(start as int, t, k as int)] == b@[wrap(
                start as int,
                t,
                k as int,
            )],
        decreases k - m,
    {
        let ax = if m < k - start {
            start + m
        } else {
            m - (k - start)
        };
        proof {
            assert(ax as int == wrap(start as int, m as int, k as int));
        }
        if a[ax] != b[ax] {
            return ax;
        }
        m = m + 1;
    }
    proof {
        assert forall|t: int| 0 <= t < k implies a@[t] == b@[t] by {
            if t >= start {
                assert(wrap(start as int, t - start, k as int) == t);
                assert(a@[wrap(start as int, t - start, k as int)] == b@[wrap(
                    start as int,
                    t - start,
                    k as int,
                )]);
            } else {
                assert(wrap(start as int, t + k - start, k as int) == t);
                assert(a@[wrap(start as int, t + k - start, k as int)] == b@[wrap(
                    start as int,
                    t + k - start,
                    k as int,
                )]);
            }
        }
        assert(a@ =~= b@);
    }
    vstd::pervasive::unreached()
}

/// The midpoint of the two components, rounded toward the larger one, so that
/// it falls strictly above `lo` and at or below `hi`: `lo` then belongs to
/// the left side of the hyperplane and `hi` to the right.
fn split_value(lo: i32, hi: i32) -> (s: i32)
    requires
        lo < hi,
    ensures
        lo < s <= hi,
{
    let d = (hi as i64) - (lo as i64);
    let h = (d + 1) / 2;
    proof {
        assert(1 <= h <= d);
    }
    let s64 = (lo as i64) + h;
    s64 as i32
}

/// The indices of the slots holding leaves beneath slot `i`.
spec fn leaf_slots<V>(s: Seq<Option<Node<V>>>, i: int) -> Set<int>
    decreases measure(s.len() as int, i),
{
    match slot(s, i) {
        None => Set::empty(),
        Some(Node::Leaf { .. }) => Set::empty().insert(i),
        Some(Node::Partition { .. }) => leaf_slots(s, 2 * i + 1) + leaf_slots(s, 2 * i + 2),
    }
}

/// Each stored point lives in a leaf slot of its own, so a subtree holds no
/// more points than it has slots.
proof fn lemma_count<V>(s: Seq<Option<Node<V>>>, i: int)
    requires
        0 <= i,
    ensures
        leaf_slots(s, i).finite(),
        sub_map(s, i).dom().finite(),
        sub_map(s, i).dom().len() <= leaf_slots(s, i).len(),
        forall|j: int| #[trigger] leaf_slots(s, i).contains(j) ==> in_sub(i, j) && 0 <= j
            < s.len(),
    decreases measure(s.len() as int, i),
{
    lemma_in_sub_child(i);
    match slot(s, i) {
        None => {},
        Some(Node::Leaf { .. }) => {},
        Some(Node::Partition { .. }) => {
            let l = 2 * i + 1;
            let r = 2 * i + 2;
            lemma_count(s, l);
            lemma_count(s, r);
            assert forall|j: int| #[trigger] leaf_slots(s, l).contains(j) implies !leaf_slots(
                s,
                r,
            ).contains(j) by {
                lemma_siblings_disjoint(i, j);
            }
            assert(leaf_slots(s, l).disjoint(leaf_slots(s, r)));
            vstd::set_lib::lemma_set_disjoint_lens(leaf_slots(s, l), leaf_slots(s, r));
            vstd::set_lib::lemma_len_union(sub_map(s, l).dom(), sub_map(s, r).dom());
            assert(sub_map(s, i).dom() =~= sub_map(s, l).dom().union(sub_map(s, r).dom()));
            assert forall|j: int| #[trigger] leaf_slots(s, i).contains(j) implies in_sub(i, j) && 0
                <= j < s.len() by {
                if leaf_slots(s, l).contains(j) {
                    lemma_in_sub_trans(i, l, j);
                } else {
                    lemma_in_sub_trans(i, r, j);
                }
            }
        },
    }
}

/// A subtree holds no more points than the store has slots.
proof fn lemma_size_bound<V>(s: Seq<Option<Node<V>>>, i: int)
    requires
        0 <= i,
    ensures
        sub_map(s, i).dom().finite(),
        sub_map(s, i).dom().len() <= s.len(),
{
    lemma_count(s, i);
    assert(leaf_slots(s, i).subset_of(vstd::set_lib::set_int_range(0, s.len() as int)));
    vstd::set_lib::lemma_int_range(0, s.len() as int);
    vstd::set_lib::lemma_len_subset(
        leaf_slots(s, i),
        vstd::set_lib::set_int_range(0, s.len() as int),
    );
}

/// A finite set with a member has at least one element.
proof fn lemma_contains_len<A>(s: Set<A>, a: A)
    requires
        s.finite(),
        s.contains(a),
    ensures
        s.len() >= 1,
{
    assert(s.remove(a).insert(a) =~= s);
}

/// A coordinate lies inside the axis-aligned box `[lo, hi]`: it has the
/// box's dimensionality and every component lies between the box's bounds,
/// inclusive on both ends.
pub open spec fn in_box(lo: Seq<i32>, hi: Seq<i32>, c: Seq<i32>) -> bool {
    &&& c.len() == lo.len()
    &&& c.len() == hi.len()
    &&& forall|j: int| 0 <= j < c.len() ==> lo[j] <= #[trigger] c[j] && c[j] <= hi[j]
}

/// Whether slot `j` holds a leaf.
spec fn leaf_at<V>(s: Seq<Option<Node<V>>>, j: int) -> bool {
    slot(s, j) matches Some(Node::Leaf { .. })
}

/// The coordinate of the leaf in slot `j`.
spec fn leaf_coord<V>(s: Seq<Option<Node<V>>>, j: int) -> Seq<i32> {
    match slot(s, j) {
        Some(Node::Leaf { coord, .. }) => coord@,
        _ => Seq::empty(),
    }
}

/// The value of the leaf in slot `j`.
spec fn leaf_value<V>(s: Seq<Option<Node<V>>>, j: int) -> V {
    match slot(s, j) {
        Some(Node::Leaf { value, .. }) => value,
        _ => vstd::pervasive::arbitrary(),
    }
}

/// Collects into `out` the slot index of every leaf beneath slot `i` whose
/// coordinate lies in the box, descending only into the sides of each
/// partition that the box reaches.
fn range_at<V>(
    nodes: &Vec<Option<Node<V>>>,
    i: usize,
    lo: &Vec<i32>,
    hi: &Vec<i32>,
    out: &mut Vec<usize>,
)
    requires
        sub_wf(nodes@, i as int, lo@.len() as int),
        hi@.len() == lo@.len(),
    ensures
        final(out)@.len() >= old(out)@.len(),
        forall|t: int| 0 <= t < old(out)@.len() ==> final(out)@[t] == old(out)@[t],
        forall|t: int|
            old(out)@.len() <= t < final(out)@.len() ==> {
                let j = #[trigger] final(out)@[t] as int;
                &&& leaf_at(nodes@, j)
                &&& in_box(lo@, hi@, leaf_coord(nodes@, j))
                &&& sub_map(nodes@, i as int).contains_key(leaf_coord(nodes@, j))
                &&& sub_map(nodes@, i as int)[leaf_coord(nodes@, j)] == leaf_value(nodes@, j)
            },
        forall|c: Seq<i32>|
            sub_map(nodes@, i as int).dom().contains(c) && in_box(lo@, hi@, c) ==> exists|t: int|
                old(out)@.len() <= t < final(out)@.len() && leaf_coord(
                    nodes@,
                    #[trigger] final(out)@[t] as int,
                ) == c,
        forall|t1: int, t2: int|
            old(out)@.len() <= t1 < t2 < final(out)@.len() ==> leaf_coord(
                nodes@,
                #[trigger] final(out)@[t1] as int,
            ) != leaf_coord(nodes@, #[trigger] final(out)@[t2] as int),
    decreases sub_height(nodes@, i as int),
{
    if i >= nodes.len() {
        return;
    }
    match &nodes[i] {
        None => {},
        Some(Node::Leaf { coord: c0, value: _ }) => {
            let mut inside = true;
            if c0.len() != lo.len() {
                inside = false;
            } else {
                let mut j: usize = 0;
                while j < c0.len()
                    invariant
                        j <= c0@.len(),
                        c0@.len() == lo@.len(),
                        c0@.len() == hi@.len(),
                        inside <==> (forall|m: int|
                            0 <= m < j ==> lo@[m] <= #[trigger] c0@[m] && c0@[m] <= hi@[m]),
                    decreases c0@.len() - j,
                {
                    if c0[j] < lo[j] || c0[j] > hi[j] {
                        inside = false;
                    }
                    j = j + 1;
                }
            }
            if inside {
                out.push(i);
                proof {
                    assert(leaf_coord(nodes@, i as int) == c0@);
                    assert(in_box(lo@, hi@, leaf_coord(nodes@, i as int)));
                    assert(sub_map(nodes@, i as int).contains_key(c0@));
                    assert(out@[out@.len() - 1] == i);
                }
            } else {
                proof {
                    assert(!in_box(lo@, hi@, c0@));
                    assert forall|c: Seq<i32>|
                        sub_map(nodes@, i as int).dom().contains(c) implies !in_box(
                        lo@,
                        hi@,
                        c,
                    ) by {
                        assert(c == c0@);
                    }
                }
            }
        },
        Some(Node::Partition { split, axis }) => {
            let ax = *axis;
            let sp = *split;
            proof {
                assert(sub_wf(nodes@, i as int, lo@.len() as int));
                assert(2 * (i as int) + 2 < nodes@.len());
                assert(nodes@.len() == nodes.len());
                assert(lo@.len() == lo.len() && hi@.len() == hi.len());
            }
            let li = 2 * i + 1;
            let ri = 2 * i + 2;
            let ghost mid = out@.len();
            if lo[ax] < sp {
                range_at(nodes, li, lo, hi, out);
            } else {
                proof {
                    assert forall|c: Seq<i32>|
                        sub_map(nodes@, li as int).dom().contains(c) implies !in_box(
                        lo@,
                        hi@,
                        c,
                    ) by {
                        assert(c[ax as int] < sp);
                    }
                }
            }
            let ghost mid2 = out@.len();
            if hi[ax] >= sp {
                range_at(nodes, ri, lo, hi, out);
            } else {
                proof {
                    assert forall|c: Seq<i32>|
                        sub_map(nodes@, ri as int).dom().contains(c) implies !in_box(
                        lo@,
                        hi@,
                        c,
                    ) by {
                        assert(c[ax as int] >= sp);
                    }
                }
            }
            proof {
                assert forall|c: Seq<i32>|
                    sub_map(nodes@, i as int).dom().contains(c) && in_box(
                        lo@,
                        hi@,
                        c,
                    ) implies exists|t: int|
                    mid <= t < out@.len() && leaf_coord(nodes@, #[trigger] out@[t] as int) == c by {
                    assert(sub_map(nodes@, li as int).dom().contains(c) || sub_map(
                        nodes@,
                        ri as int,
                    ).dom().contains(c));
                }
                assert forall|t1: int, t2: int| mid <= t1 < t2 < out@.len() implies leaf_coord(
                    nodes@,
                    #[trigger] out@[t1] as int,
                ) != leaf_coord(nodes@, #[trigger] out@[t2] as int) by {
                    if t1 < mid2 && mid2 <= t2 {
                        let ca = leaf_coord(nodes@, out@[t1] as int);
                        let cb = leaf_coord(nodes@, out@[t2] as int);
                        assert(sub_map(nodes@, li as int).dom().contains(ca));
                        assert(sub_map(nodes@, ri as int).dom().contains(cb));
                        assert(ca[ax as int] < sp && cb[ax as int] >= sp);
                    }
                }
            }
        },
    }
}

/// Sum of the squared component differences of `a` and `b` over the first
/// `n` components.
pub open spec fn sq_dist_upto(a: Seq<i32>, b: Seq<i32>, n: int) -> int
    decreases n,
{
    if n <= 0 {
        0
    } else {
        sq_dist_upto(a, b, n - 1) + (a[n - 1] - b[n - 1]) * (a[n - 1] - b[n - 1])
    }
}

/// The squared Euclidean distance between two coordinates of equal
/// dimensionality: the sum over all axes of the squared component
/// difference.
pub open spec fn sq_dist(a: Seq<i32>, b: Seq<i32>) -> int {
    sq_dist_upto(a, b, a.len() as int)
}

proof fn lemma_square_nonneg(x: int)
    ensures
        x * x >= 0,
{
    assert(x * x >= 0) by (nonlinear_arith);
}

proof fn lemma_square_pos(x: int)
    requires
        x != 0,
    ensures
        x * x > 0,
{
    assert(x != 0 ==> x * x > 0) by (nonlinear_arith);
}

proof fn lemma_square_mono(x: int, y: int)
    requires
        0 <= y <= x,
    ensures
        y * y <= x * x,
{
    assert(0 <= y <= x ==> y * y <= x * x) by (nonlinear_arith);
}

proof fn lemma_square_sym(x: int, y: int)
    ensures
        (x - y) * (x - y) == (y - x) * (y - x),
{
    assert((x - y) * (x - y) == (y - x) * (y - x)) by (nonlinear_arith);
}

/// A squared distance is never negative.
pub proof fn lemma_sq_dist_nonneg(a: Seq<i32>, b: Seq<i32>, n: int)
    ensures
        sq_dist_upto(a, b, n) >= 0,
    decreases n,
{
    if n > 0 {
        lemma_sq_dist_nonneg(a, b, n - 1);
        lemma_square_nonneg(a[n - 1] - b[n - 1]);
    }
}

/// A squared distance dominates the squared difference on any single axis.
pub proof fn lemma_sq_dist_term(a: Seq<i32>, b: Seq<i32>, j: int, n: int)
    requires
        0 <= j < n,
    ensures
        sq_dist_upto(a, b, n) >= (a[j] - b[j]) * (a[j] - b[j]),
    decreases n,
{
    lemma_square_nonneg(a[n - 1] - b[n - 1]);
    if j == n - 1 {
        lemma_sq_dist_nonneg(a, b, n - 1);
    } else {
        lemma_sq_dist_term(a, b, j, n - 1);
    }
}

/// Two coordinates of equal dimensionality are at squared distance zero
/// exactly when they are the same point.
pub proof fn lemma_sq_dist_zero(a: Seq<i32>, b: Seq<i32>)
    requires
        a.len() == b.len(),
    ensures
        (sq_dist(a, b) == 0) <==> (a =~= b),
{
    if a =~= b {
        lemma_sq_dist_self(a, b, a.len() as int);
    } else {
        let j = choose|j: int| 0 <= j < a.len() && a[j] != b[j];
        assert(0 <= j < a.len() && a[j] != b[j]) by {
            assert(!(a =~= b));
        }
        lemma_square_pos(a[j] - b[j]);
        lemma_sq_dist_term(a, b, j, a.len() as int);
    }
}

proof fn lemma_sq_dist_self(a: Seq<i32>, b: Seq<i32>, n: int)
    requires
        forall|m: int| 0 <= m < n ==> a[m] == b[m],
    ensures
        sq_dist_upto(a, b, n) == 0,
    decreases n,
{
    if n > 0 {
        lemma_sq_dist_self(a, b, n - 1);
        let x = a[n - 1];
        let y = b[n - 1];
        assert(x == y);
        assert((x - y) * (x - y) == 0) by (nonlinear_arith)
            requires
                x == y;
    }
}

/// The squared difference of two components, computed without overflow.
fn axis_gap_sq(a: i32, b: i32) -> (d: u128)
    ensures
        d == (a - b) * (a - b),
{
    let da = (a as i64) - (b as i64);
    proof {
        assert(0 <= (da as int) * (da as int) < 0x10000000000000000) by (nonlinear_arith)
            requires
                -0x100000000 < (da as int),
                (da as int) < 0x100000000;
    }
    let dd = (da as i128) * (da as i128);
    dd as u128
}

/// The squared Euclidean distance between two coordinates.
fn sq_dist_exec(a: &Vec<i32>, b: &Vec<i32>) -> (d: u128)
    requires
        a@.len() == b@.len(),
    ensures
        d == sq_dist(a@, b@),
{
    let mut acc: u128 = 0;
    let mut j: usize = 0;
    while j < a.len()
        invariant
            j <= a@.len(),
            a@.len() == b@.len(),
            acc == sq_dist_upto(a@, b@, j as int),
            acc <= (j as int) * 0xffffffffffffffff,
        decreases a@.len() - j,
    {
        let da = (a[j] as i64) - (b[j] as i64);
        proof {
            assert(0 <= (da as int) * (da as int) <= 0xffffffffffffffff) by (nonlinear_arith)
                requires
                    -0x100000000 < (da as int),
                    (da as int) < 0x100000000;
            assert(a@.len() == a.len());
            assert((j as int) * 0xffffffffffffffff + 0xffffffffffffffff == ((j as int) + 1)
                * 0xffffffffffffffff) by (nonlinear_arith);
            assert(((j as int) + 1) * 0xffffffffffffffff <= 0xffffffffffffffffffffffffffffffff)
                by (nonlinear_arith)
                requires
                    0 <= (j as int) + 1,
                    (j as int) + 1 <= 0x10000000000000000;
        }
        let dd = (da as i128) * (da as i128);
        let sq = dd as u128;
        acc = acc + sq;
        j = j + 1;
    }
    acc
}

/// Branch-and-bound descent below slot `i`: returns the slot of a leaf at
/// least as close to `q` as the incumbent `best` and as every point in the
/// subtree, with its squared distance. The near side of every partition is
/// searched first; the far side only if the squared distance from `q` to the
/// splitting hyperplane still undercuts the incumbent.
fn nearest_at<V>(
    nodes: &Vec<Option<Node<V>>>,
    i: usize,
    q: &Vec<i32>,
    best: Option<(usize, u128)>,
) -> (r: Option<(usize, u128)>)
    requires
        sub_wf(nodes@, i as int, q@.len() as int),
        match best {
            Some(b) => leaf_at(nodes@, b.0 as int) && leaf_coord(nodes@, b.0 as int).len()
                == q@.len() && b.1 == sq_dist(q@, leaf_coord(nodes@, b.0 as int)),
            None => true,
        },
    ensures
        match r {
            None => best is None && sub_map(nodes@, i as int) == Map::<Seq<i32>, V>::empty(),
            Some(rb) => {
                &&& leaf_at(nodes@, rb.0 as int)
                &&& leaf_coord(nodes@, rb.0 as int).len() == q@.len()
                &&& rb.1 == sq_dist(q@, leaf_coord(nodes@, rb.0 as int))
                &&& (match best {
                    Some(b) => rb.1 <= b.1,
                    None => true,
                })
                &&& (best == Some(rb) || (sub_map(nodes@, i as int).contains_key(
                    leaf_coord(nodes@, rb.0 as int),
                ) && sub_map(nodes@, i as int)[leaf_coord(nodes@, rb.0 as int)] == leaf_value(
                    nodes@,
                    rb.0 as int,
                )))
                &&& forall|c: Seq<i32>|
                    #[trigger] sub_map(nodes@, i as int).dom().contains(c) ==> sq_dist(q@, c)
                        >= rb.1
            },
        },
    decreases sub_height(nodes@, i as int),
{
    if i >= nodes.len() {
        return best;
    }
    match &nodes[i] {
        None => best,
        Some(Node::Leaf { coord: c0, value: _ }) => {
            let d = sq_dist_exec(q, c0);
            proof {
                assert(sub_map(nodes@, i as int).contains_key(c0@));
            }
            match best {
                Some(b) => {
                    if d < b.1 {
                        Some((i, d))
                    } else {
                        Some(b)
                    }
                },
                None => Some((i, d)),
            }
        },
        Some(Node::Partition { split, axis }) => {
            let ax = *axis;
            let sp = *split;
            proof {
                assert(sub_wf(nodes@, i as int, q@.len() as int));
                assert(2 * (i as int) + 2 < nodes@.len());
                assert(nodes@.len() == nodes.len());
                assert(q@.len() == q.len());
            }
            let go_left = q[ax] < sp;
            let near = if go_left {
                2 * i + 1
            } else {
                2 * i + 2
            };
            let far = if go_left {
                2 * i + 2
            } else {
                2 * i + 1
            };
            proof {
                assert(sub_height(nodes@, near as int) < sub_height(nodes@, i as int));
                assert(sub_height(nodes@, far as int) < sub_height(nodes@, i as int));
            }
            let b1 = nearest_at(nodes, near, q, best);
            let explore = match b1 {
                None => true,
                Some(bb) => {
                    let gap = axis_gap_sq(q[ax], sp);
                    gap < bb.1
                },
            };
            let res = if explore {
                nearest_at(nodes, far, q, b1)
            } else {
                b1
            };
            proof {
                lemma_keys_dim(nodes@, far as int, q@.len() as int);
                if !explore {
                    let bb = b1.unwrap();
                    assert forall|c: Seq<i32>|
                        #[trigger] sub_map(nodes@, far as int).dom().contains(c) implies sq_dist(
                        q@,
                        c,
                    ) >= bb.1 by {
                        lemma_sq_dist_term(q@, c, ax as int, q@.len() as int);
                        lemma_square_sym(q@[ax as int] as int, sp as int);
                        lemma_square_sym(q@[ax as int] as int, c[ax as int] as int);
                        if go_left {
                            assert(c[ax as int] >= sp);
                            lemma_square_mono(
                                c[ax as int] - q@[ax as int],
                                sp - q@[ax as int],
                            );
                        } else {
                            assert(c[ax as int] < sp);
                            lemma_square_mono(
                                q@[ax as int] - c[ax as int],
                                q@[ax as int] - sp,
                            );
                        }
                    }
                }
                assert forall|c: Seq<i32>|
                    #[trigger] sub_map(nodes@, i as int).dom().contains(c) implies sub_map(
                    nodes@,
                    near as int,
                ).dom().contains(c) || sub_map(nodes@, far as int).dom().contains(c) by {}
                if res is None {
                    assert(sub_map(nodes@, i as int) =~= Map::<Seq<i32>, V>::empty());
                }
                if res is Some {
                    let rb = res.unwrap();
                    let lc = leaf_coord(nodes@, rb.0 as int);
                    let l = 2 * (i as int) + 1;
                    let rr = 2 * (i as int) + 2;
                    if !(best == Some(rb)) {
                        assert(sub_map(nodes@, l).contains_key(lc) || sub_map(
                            nodes@,
                            rr,
                        ).contains_key(lc));
                        if sub_map(nodes@, l).dom().contains(lc) {
                            assert(lc[ax as int] < sp);
                            assert(!sub_map(nodes@, rr).dom().contains(lc));
                        }
                    }
                }
            }
            res
        },
    }
}

/// Whether slot `j` of the store is empty.
fn slot_is_empty<V>(nodes: &Vec<Option<Node<V>>>, j: usize) -> (r: bool)
    requires
        j < nodes@.len(),
    ensures
        r <==> slot(nodes@, j as int) is None,
{
    match &nodes[j] {
        None => true,
        Some(_) => false,
    }
}

/// Removes the point at `coord` from the subtree rooted at slot `i`,
/// clearing the leaf that held it and collapsing every partition on the way
/// back up whose two children have both become empty.
fn remove_at<V>(nodes: &mut Vec<Option<Node<V>>>, i: usize, coord: &Vec<i32>) -> (r: Option<V>)
    requires
        sub_wf(old(nodes)@, i as int, coord@.len() as int),
    ensures
        final(nodes)@.len() == old(nodes)@.len(),
        forall|j: int| !in_sub(i as int, j) ==> #[trigger] slot(final(nodes)@, j) == slot(
            old(nodes)@,
            j,
        ),
        sub_wf(final(nodes)@, i as int, coord@.len() as int),
        sub_map(final(nodes)@, i as int) == sub_map(old(nodes)@, i as int).remove(coord@),
        match r {
            Some(v) => sub_map(old(nodes)@, i as int).contains_key(coord@) && v == sub_map(
                old(nodes)@,
                i as int,
            )[coord@],
            None => !sub_map(old(nodes)@, i as int).contains_key(coord@),
        },
    decreases sub_height(old(nodes)@, i as int),
{
    let ghost s_in = old(nodes)@;
    let ghost k = coord@.len() as int;
    proof {
        lemma_in_sub_child(i as int);
    }
    if i >= nodes.len() {
        proof {
            assert(sub_map(s_in, i as int) =~= sub_map(s_in, i as int).remove(coord@));
        }
        return None;
    }
    match &nodes[i] {
        None => {
            proof {
                assert(sub_map(s_in, i as int) =~= sub_map(s_in, i as int).remove(coord@));
            }
            None
        },
        Some(Node::Leaf { coord: c0, value: _ }) => {
            if coords_eq(c0, coord) {
                let n = take_slot(nodes, i);
                let v = match n {
                    Some(Node::Leaf { value: v, .. }) => v,
                    _ => vstd::pervasive::unreached(),
                };
                proof {
                    assert(sub_map(nodes@, i as int) =~= sub_map(s_in, i as int).remove(coord@));
                    assert forall|j: int| !in_sub(i as int, j) implies slot(nodes@, j) == slot(
                        s_in,
                        j,
                    ) by {
                        assert(j != i as int);
                    }
                }
                Some(v)
            } else {
                proof {
                    assert(sub_map(s_in, i as int) =~= sub_map(s_in, i as int).remove(coord@));
                }
                None
            }
        },
        Some(Node::Partition { split, axis }) => {
            let ax = *axis;
            let sp = *split;
            proof {
                assert(sub_wf(s_in, i as int, k));
                assert(2 * (i as int) + 2 < s_in.len());
                assert(nodes@.len() == nodes.len());
                assert(coord@.len() == coord.len());
            }
            let go_left = coord[ax] < sp;
            let child = if go_left {
                2 * i + 1
            } else {
                2 * i + 2
            };
            let ghost sib = if go_left {
                2 * (i as int) + 2
            } else {
                2 * (i as int) + 1
            };
            proof {
                assert(sub_height(s_in, child as int) < sub_height(s_in, i as int));
                assert(!sub_map(s_in, sib).dom().contains(coord@));
            }
            let r = remove_at(nodes, child, coord);
            let ghost s_1 = nodes@;
            proof {
                assert(!in_sub(child as int, i as int));
                assert(slot(s_1, i as int) == slot(s_in, i as int));
                assert forall|j: int| #[trigger] in_sub(sib, j) implies slot(s_in, j) == slot(
                    s_1,
                    j,
                ) by {
                    lemma_siblings_disjoint(i as int, j);
                }
                lemma_sub_agree(s_in, s_1, sib, k);
                assert(sub_map(s_1, i as int) =~= sub_map(s_in, i as int).remove(coord@));
                assert forall|j: int| !in_sub(i as int, j) implies slot(s_1, j) == slot(
                    s_in,
                    j,
                ) by {
                    if in_sub(child as int, j) {
                        lemma_in_sub_trans(i as int, child as int, j);
                    }
                }
            }
            let li = 2 * i + 1;
            let ri = 2 * i + 2;
            if slot_is_empty(nodes, li) && slot_is_empty(nodes, ri) {
                let _ = take_slot(nodes, i);
                proof {
                    let s_2 = nodes@;
                    assert(sub_map(s_1, li as int) =~= Map::<Seq<i32>, V>::empty());
                    assert(sub_map(s_1, ri as int) =~= Map::<Seq<i32>, V>::empty());
                    assert(sub_map(s_1, i as int) =~= Map::<Seq<i32>, V>::empty());
                    assert(sub_map(s_2, i as int) =~= sub_map(s_in, i as int).remove(coord@));
                    assert forall|j: int| !in_sub(i as int, j) implies slot(s_2, j) == slot(
                        s_in,
                        j,
                    ) by {
                        assert(j != i as int);
                        assert(slot(s_2, j) == slot(s_1, j));
                    }
                }
            } else {
                proof {
                    assert forall|c: Seq<i32>|
                        #[trigger] sub_map(s_1, 2 * (i as int) + 1).dom().contains(c) implies c[ax as int]
                        < sp by {
                        assert(sub_map(s_in, 2 * (i as int) + 1).dom().contains(c));
                    }
                    assert forall|c: Seq<i32>|
                        #[trigger] sub_map(s_1, 2 * (i as int) + 2).dom().contains(c) implies c[ax as int]
                        >= sp by {
                        assert(sub_map(s_in, 2 * (i as int) + 2).dom().contains(c));
                    }
                    assert(sub_wf(s_1, i as int, k));
                }
            }
            r
        },
    }
}

/// A store of `capacity` empty slots.
fn empty_store<V>(capacity: usize) -> (nodes: Vec<Option<Node<V>>>)
    ensures
        nodes@.len() == capacity,
        forall|j: int| 0 <= j < capacity ==> nodes@[j] is None,
{
    let mut nodes: Vec<Option<Node<V>>> = Vec::new();
    let mut i: usize = 0;
    while i < capacity
        invariant
            i <= capacity,
            nodes@.len() == i,
            forall|j: int| 0 <= j < i ==> nodes@[j] is None,
        decreases capacity - i,
    {
        nodes.push(None);
        i = i + 1;
    }
    nodes
}

/// Empties the subtree rooted at slot `i`, moving every stored
/// (coordinate, value) pair into `out` by a full traversal. Partition nodes
/// are left behind as husks: the caller discards the store afterwards.
fn collect_at<V>(
    nodes: &mut Vec<Option<Node<V>>>,
    i: usize,
    out: &mut Vec<(Vec<i32>, V)>,
    Ghost(k): Ghost<int>,
)
    requires
        sub_wf(old(nodes)@, i as int, k),
    ensures
        final(nodes)@.len() == old(nodes)@.len(),
        forall|j: int| !in_sub(i as int, j) ==> #[trigger] slot(final(nodes)@, j) == slot(
            old(nodes)@,
            j,
        ),
        final(out)@.len() >= old(out)@.len(),
        forall|t: int| 0 <= t < old(out)@.len() ==> final(out)@[t] == old(out)@[t],
        forall|t: int|
            old(out)@.len() <= t < final(out)@.len() ==> sub_map(
                old(nodes)@,
                i as int,
            ).contains_key((#[trigger] final(out)@[t]).0@) && sub_map(
                old(nodes)@,
                i as int,
            )[final(out)@[t].0@] == final(out)@[t].1,
        forall|c: Seq<i32>|
            sub_map(old(nodes)@, i as int).dom().contains(c) ==> exists|t: int|
                old(out)@.len() <= t < final(out)@.len() && (#[trigger] final(out)@[t]).0@ == c,
    decreases sub_height(old(nodes)@, i as int),
{
    let ghost s_in = nodes@;
    proof {
        lemma_in_sub_child(i as int);
    }
    if i >= nodes.len() {
        return;
    }
    let is_leaf = match &nodes[i] {
        Some(Node::Leaf { .. }) => true,
        _ => false,
    };
    let is_part = match &nodes[i] {
        Some(Node::Partition { .. }) => true,
        _ => false,
    };
    if is_leaf {
        let n = take_slot(nodes, i);
        match n {
            Some(Node::Leaf { coord, value }) => {
                let ghost cl = coord@;
                out.push((coord, value));
                proof {
                    assert(sub_map(s_in, i as int).contains_key(cl));
                    assert((out@[out@.len() - 1]).0@ == cl);
                    assert forall|j: int| !in_sub(i as int, j) implies slot(nodes@, j) == slot(
                        s_in,
                        j,
                    ) by {
                        assert(j != i as int);
                    }
                }
            },
            _ => {
                proof {
                    assert(false);
                }
            },
        }
    } else if is_part {
        proof {
            assert(sub_wf(s_in, i as int, k));
            assert(2 * (i as int) + 2 < s_in.len());
            assert(nodes@.len() == nodes.len());
        }
        let li = 2 * i + 1;
        let ri = 2 * i + 2;
        proof {
            assert(sub_height(s_in, li as int) < sub_height(s_in, i as int));
            assert(sub_height(s_in, ri as int) < sub_height(s_in, i as int));
        }
        let ghost out0 = out@.len() as int;
        collect_at(nodes, li, out, Ghost(k));
        let ghost s_mid = nodes@;
        let ghost out1 = out@.len() as int;
        proof {
            assert forall|j: int| #[trigger] in_sub(ri as int, j) implies slot(s_in, j) == slot(
                s_mid,
                j,
            ) by {
                lemma_siblings_disjoint(i as int, j);
            }
            lemma_sub_agree(s_in, s_mid, ri as int, k);
            assert(sub_height(s_mid, ri as int) < sub_height(s_in, i as int));
        }
        collect_at(nodes, ri, out, Ghost(k));
        proof {
            let s_f = nodes@;
            assert forall|j: int| !in_sub(i as int, j) implies slot(s_f, j) == slot(s_in, j) by {
                if in_sub(li as int, j) {
                    lemma_in_sub_trans(i as int, li as int, j);
                }
                if in_sub(ri as int, j) {
                    lemma_in_sub_trans(i as int, ri as int, j);
                }
            }
            let lm = sub_map(s_in, li as int);
            let rm = sub_map(s_in, ri as int);
            assert forall|t: int| out0 <= t < out@.len() implies sub_map(
                s_in,
                i as int,
            ).contains_key((#[trigger] out@[t]).0@) && sub_map(s_in, i as int)[out@[t].0@]
                == out@[t].1 by {
                let c = out@[t].0@;
                if t < out1 {
                    assert(lm.contains_key(c) && lm[c] == out@[t].1);
                    assert(c[spec_axis(s_in, i as int)] < spec_split(s_in, i as int));
                    assert(!rm.dom().contains(c));
                } else {
                    assert(rm.contains_key(c) && rm[c] == out@[t].1);
                }
            }
            assert forall|c: Seq<i32>|
                sub_map(s_in, i as int).dom().contains(c) implies exists|t: int|
                out0 <= t < out@.len() && (#[trigger] out@[t]).0@ == c by {
                assert(lm.dom().contains(c) || rm.dom().contains(c));
            }
        }
    }
}

/// The split value of the partition in slot `i`.
spec fn spec_split<V>(s: Seq<Option<Node<V>>>, i: int) -> i32 {
    match slot(s, i) {
        Some(Node::Partition { split, .. }) => split,
        _ => 0,
    }
}

/// The split axis of the partition in slot `i`.
spec fn spec_axis<V>(s: Seq<Option<Node<V>>>, i: int) -> int {
    match slot(s, i) {
        Some(Node::Partition { axis, .. }) => axis as int,
        _ => 0,
    }
}

/// Descends from slot `i` (a well-formed subtree at cyclic axis `d`) to place
/// the point, splitting the leaf it collides with. `Err` means the split
/// would address a slot beyond the largest index the store can hold; the
/// subtree is then left as it was.
fn insert_at<V>(
    nodes: &mut Vec<Option<Node<V>>>,
    i: usize,
    d: usize,
    coord: Vec<i32>,
    value: V,
) -> (r: Result<bool, ()>)
    requires
        sub_wf(old(nodes)@, i as int, coord@.len() as int),
        (d as int) < coord@.len() || coord@.len() == 0,
    ensures
        final(nodes)@.len() >= old(nodes)@.len(),
        final(nodes)@.len() == old(nodes)@.len() || slot(
            final(nodes)@,
            final(nodes)@.len() - 1,
        ) is Some,
        forall|j: int| slot(old(nodes)@, j) is Some ==> #[trigger] slot(final(nodes)@, j) is Some,
        forall|j: int| !in_sub(i as int, j) ==> #[trigger] slot(final(nodes)@, j) == slot(
            old(nodes)@,
            j,
        ),
        sub_wf(final(nodes)@, i as int, coord@.len() as int),
        match r {
            Ok(grew) => {
                &&& sub_map(final(nodes)@, i as int) == sub_map(old(nodes)@, i as int).insert(
                    coord@,
                    value,
                )
                &&& slot(final(nodes)@, i as int) is Some
                &&& (grew <==> !sub_map(old(nodes)@, i as int).contains_key(coord@))
            },
            Err(_) => {
                &&& sub_map(final(nodes)@, i as int) == sub_map(old(nodes)@, i as int)
                &&& slot(final(nodes)@, i as int) == slot(old(nodes)@, i as int)
                &&& final(nodes)@.len() > (usize::MAX - 2) / 2
            },
        },
    decreases sub_height(old(nodes)@, i as int),
{
    ensure_capacity(nodes, i);
    let ghost s_in = old(nodes)@;
    let ghost s_g = nodes@;
    let ghost k = coord@.len() as int;
    proof {
        lemma_sub_agree(s_in, s_g, i as int, k);
        lemma_in_sub_child(i as int);
    }
    match &nodes[i] {
        None => {
            nodes[i] = Some(Node::Leaf { coord, value });
            proof {
                assert(sub_map(nodes@, i as int) =~= sub_map(s_in, i as int).insert(
                    coord@,
                    value,
                ));
                assert forall|j: int| !in_sub(i as int, j) implies slot(nodes@, j) == slot(
                    s_in,
                    j,
                ) by {
                    assert(j != i as int);
                    assert(slot(nodes@, j) == slot(s_g, j));
                }
                assert forall|j: int| slot(s_in, j) is Some implies slot(nodes@, j) is Some by {
                    if j != i as int {
                        assert(slot(nodes@, j) == slot(s_g, j));
                        assert(slot(s_g, j) == slot(s_in, j));
                    }
                }
            }
            Ok(true)
        },
        Some(Node::Leaf { coord: c0, value: _ }) => {
            if coords_eq(c0, &coord) {
                nodes[i] = Some(Node::Leaf { coord, value });
                proof {
                    assert(sub_map(nodes@, i as int) =~= sub_map(s_in, i as int).insert(
                        coord@,
                        value,
                    ));
                    assert forall|j: int| !in_sub(i as int, j) implies slot(nodes@, j) == slot(
                        s_in,
                        j,
                    ) by {
                        assert(j != i as int);
                        assert(slot(nodes@, j) == slot(s_g, j));
                    }
                    assert forall|j: int| slot(s_in, j) is Some implies slot(
                        nodes@,
                        j,
                    ) is Some by {
                        if j != i as int {
                            assert(slot(nodes@, j) == slot(s_g, j));
                            assert(slot(s_g, j) == slot(s_in, j));
                        }
                    }
                }
                Ok(false)
            } else {
                proof {
                    if coord@.len() == 0 {
                        assert(c0@ =~= coord@);
                    }
                }
                let ax = choose_axis(c0, &coord, d);
                let a0 = c0[ax];
                let b0 = coord[ax];
                if i > (usize::MAX - 2) / 2 {
                    proof {
                        assert(slot(s_g, i as int) is Some);
                        assert(nodes@.len() > i);
                        assert forall|j: int| !in_sub(i as int, j) implies slot(nodes@, j) == slot(
                            s_in,
                            j,
                        ) by {
                            assert(slot(nodes@, j) == slot(s_g, j));
                        }
                        assert forall|j: int| slot(s_in, j) is Some implies slot(
                            nodes@,
                            j,
                        ) is Some by {
                            assert(slot(nodes@, j) == slot(s_g, j));
                            assert(slot(s_g, j) == slot(s_in, j));
                        }
                    }
                    return Err(());
                }
                let ghost coordv = coord@;
                let ghost valueg = value;
                let ghost c0v = c0@;
                let old_node = take_slot(nodes, i);
                let ghost s_t = nodes@;
                let (c_old, v_old) = match old_node {
                    Some(Node::Leaf { coord: c, value: v }) => (c, v),
                    _ => vstd::pervasive::unreached(),
                };
                let ghost c_oldv = c_old@;
                let ghost v_oldg = v_old;
                let sp = if a0 < b0 {
                    split_value(a0, b0)
                } else {
                    split_value(b0, a0)
                };
                let old_left = a0 < b0;
                ensure_capacity(nodes, 2 * i + 2);
                let ghost s_g2 = nodes@;
                let li = 2 * i + 1;
                let ri = 2 * i + 2;
                if old_left {
                    nodes[li] = Some(Node::Leaf { coord: c_old, value: v_old });
                    nodes[ri] = Some(Node::Leaf { coord, value });
                } else {
                    nodes[li] = Some(Node::Leaf { coord, value });
                    nodes[ri] = Some(Node::Leaf { coord: c_old, value: v_old });
                }
                nodes[i] = Some(Node::Partition { split: sp, axis: ax });
                proof {
                    let s_f = nodes@;
                    let cl = if old_left { c_oldv } else { coordv };
                    let cr = if old_left { coordv } else { c_oldv };
                    assert(slot(s_f, li as int) is Some);
                    assert(slot(s_f, ri as int) is Some);
                    assert(c_oldv == c0v);
                    assert(c_oldv != coordv);
                    assert(a0 == c0v[ax as int] && b0 == coordv[ax as int]);
                    assert(sub_map(s_f, li as int) =~= Map::<Seq<i32>, V>::empty().insert(
                        cl,
                        if old_left { v_oldg } else { valueg },
                    ));
                    assert(sub_map(s_f, ri as int) =~= Map::<Seq<i32>, V>::empty().insert(
                        cr,
                        if old_left { valueg } else { v_oldg },
                    ));
                    assert(sub_map(s_in, i as int) =~= Map::<Seq<i32>, V>::empty().insert(
                        c_oldv,
                        v_oldg,
                    ));
                    assert(sub_map(s_f, i as int) =~= sub_map(s_in, i as int).insert(
                        coordv,
                        valueg,
                    ));
                    assert forall|j: int| !in_sub(i as int, j) implies slot(s_f, j) == slot(
                        s_in,
                        j,
                    ) by {
                        assert(j != i as int && j != li as int && j != ri as int);
                        assert(slot(s_g2, j) == slot(s_t, j));
                        assert(slot(s_t, j) == slot(s_g, j));
                        assert(slot(s_g, j) == slot(s_in, j));
                    }
                    assert forall|c: Seq<i32>|
                        #[trigger] sub_map(s_f, li as int).dom().contains(c) implies c[ax as int]
                        < sp by {
                        assert(c == cl);
                    }
                    assert forall|c: Seq<i32>|
                        #[trigger] sub_map(s_f, ri as int).dom().contains(c) implies c[ax as int]
                        >= sp by {
                        assert(c == cr);
                    }
                    assert forall|j: int| slot(s_in, j) is Some implies slot(s_f, j) is Some by {
                        if j != i as int && j != li as int && j != ri as int {
                            assert(slot(s_g2, j) == slot(s_t, j));
                            assert(slot(s_t, j) == slot(s_g, j));
                            assert(slot(s_g, j) == slot(s_in, j));
                        }
                    }
                    assert(sub_wf(s_f, li as int, k));
                    assert(sub_wf(s_f, ri as int, k));
                    assert(sub_wf(s_f, i as int, k));
                }
                Ok(true)
            }
        },
        Some(Node::Partition { split, axis }) => {
            let ax = *axis;
            let sp = *split;
            proof {
                assert(sub_wf(s_g, i as int, k));
                assert(coord@.len() > 0);
                assert(coord@.len() == coord.len());
                assert(2 * (i as int) + 2 < s_g.len());
                assert(nodes@.len() == nodes.len());
            }
            let next_d = if d + 1 >= coord.len() {
                0
            } else {
                d + 1
            };
            let ghost coordv = coord@;
            let ghost valueg = value;
            let go_left = coord[ax] < sp;
            let child = if go_left {
                2 * i + 1
            } else {
                2 * i + 2
            };
            let ghost sib = if go_left {
                2 * (i as int) + 2
            } else {
                2 * (i as int) + 1
            };
            proof {
                assert(sub_height(s_g, child as int) < sub_height(s_g, i as int));
                assert(!sub_map(s_g, sib).dom().contains(coordv));
            }
            let res = insert_at(nodes, child, next_d, coord, value);
            proof {
                let s_f = nodes@;
                assert(!in_sub(child as int, i as int));
                assert(slot(s_f, i as int) == slot(s_g, i as int));
                assert forall|j: int| #[trigger] in_sub(sib, j) implies slot(s_g, j) == slot(
                    s_f,
                    j,
                ) by {
                    lemma_siblings_disjoint(i as int, j);
                }
                lemma_sub_agree(s_g, s_f, sib, k);
                assert forall|j: int| !in_sub(i as int, j) implies slot(s_f, j) == slot(
                    s_in,
                    j,
                ) by {
                    if in_sub(child as int, j) {
                        lemma_in_sub_trans(i as int, child as int, j);
                    }
                }
                assert forall|j: int| slot(s_in, j) is Some implies slot(s_f, j) is Some by {
                    assert(slot(s_g, j) == slot(s_in, j));
                }
                if res is Ok {
                    assert(sub_map(s_f, i as int) =~= sub_map(s_in, i as int).insert(
                        coordv,
                        valueg,
                    ));
                    assert forall|c: Seq<i32>|
                        #[trigger] sub_map(s_f, child as int).dom().contains(c) implies (if go_left {
                        c[ax as int] < sp
                    } else {
                        c[ax as int] >= sp
                    }) by {
                        assert(sub_map(s_f, child as int).dom() =~= sub_map(
                            s_g,
                            child as int,
                        ).dom().insert(coordv));
                    }
                    assert(sub_wf(s_f, i as int, k));
                } else {
                    assert(sub_map(s_f, i as int) =~= sub_map(s_in, i as int));
                    assert(sub_wf(s_f, i as int, k));
                }
            }
            match res {
                Ok(grew) => Ok(grew),
                Err(e) => Err(e),
            }
        },
    }
}

impl<V> KdTree<V> {
    /// The points held by the tree, as a map from coordinates to values.
    pub closed spec fn as_points(self) -> Map<Seq<i32>, V> {
        sub_map(self.nodes@, 0)
    }

    /// Number of slots in the node store.
    pub closed spec fn spec_capacity(self) -> nat {
        self.nodes@.len()
    }

    /// The dimensionality the tree is keyed on; meaningful once a point has
    /// been inserted.
    pub closed spec fn spec_dim(self) -> int {
        self.dim as int
    }

    /// Structural well-formedness: the tree of slots is well-formed for the
    /// stored dimensionality, and the live count equals the number of stored
    /// points.
    pub closed spec fn inv(self) -> bool {
        &&& sub_wf(self.nodes@, 0, self.dim as int)
        &&& self.size == sub_map(self.nodes@, 0).dom().len()
    }

    /// Preallocates a store of `capacity` empty slots holding no points.
    pub fn with_capacity(capacity: usize) -> (tree: Self)
        ensures
            tree.inv(),
            tree@ == Map::<Seq<i32>, V>::empty(),
            tree.spec_capacity() == capacity,
            tree.spec_dim() == 0,
    {
        let mut nodes: Vec<Option<Node<V>>> = Vec::new();
        let mut i: usize = 0;
        while i < capacity
            invariant
                i <= capacity,
                nodes@.len() == i,
                forall|j: int| 0 <= j < i ==> nodes@[j] is None,
            decreases capacity - i,
        {
            nodes.push(None);
            i = i + 1;
        }
        proof {
            assert(sub_map(nodes@, 0) =~= Map::<Seq<i32>, V>::empty());
            assert(sub_map(nodes@, 0).dom() =~= Set::<Seq<i32>>::empty());
        }
        KdTree { nodes, size: 0, dim: 0 }
    }

    /// A tree with the default store size.
    pub fn new() -> (tree: Self)
        ensures
            tree.inv(),
            tree@ == Map::<Seq<i32>, V>::empty(),
            tree.spec_capacity() == DEFAULT_CAPACITY,
            tree.spec_dim() == 0,
    {
        Self::with_capacity(DEFAULT_CAPACITY)
    }

    /// Current slot count of the node store.
    pub fn capacity(&self) -> (n: usize)
        ensures
            n == self.spec_capacity(),
    {
        self.nodes.len()
    }

    /// Number of live points in the tree.
    pub fn len(&self) -> (n: usize)
        requires
            self.inv(),
        ensures
            n == self@.dom().len(),
    {
        self.size
    }

    /// Exact-match descent below slot `i`.
    fn get_at(&self, i: usize, coord: &Vec<i32>) -> (r: Option<&V>)
        requires
            sub_wf(self.nodes@, i as int, coord@.len() as int),
        ensures
            match r {
                Some(v) => sub_map(self.nodes@, i as int).contains_key(coord@) && *v == sub_map(
                    self.nodes@,
                    i as int,
                )[coord@],
                None => !sub_map(self.nodes@, i as int).contains_key(coord@),
            },
        decreases sub_height(self.nodes@, i as int),
    {
        if i >= self.nodes.len() {
            return None;
        }
        match &self.nodes[i] {
            None => None,
            Some(Node::Leaf { coord: c, value }) => {
                if coords_eq(c, coord) {
                    Some(value)
                } else {
                    None
                }
            },
            Some(Node::Partition { split, axis }) => {
                let ax = *axis;
                let sp = *split;
                if coord[ax] < sp {
                    proof {
                        assert(!sub_map(self.nodes@, 2 * (i as int) + 2).dom().contains(coord@));
                    }
                    self.get_at(2 * i + 1, coord)
                } else {
                    proof {
                        assert(!sub_map(self.nodes@, 2 * (i as int) + 1).dom().contains(coord@));
                    }
                    self.get_at(2 * i + 2, coord)
                }
            },
        }
    }

    /// Stores `value` at `coord`, splitting the leaf the descent collides
    /// with into a partition whose hyperplane separates the two points, on
    /// the first separating axis in cycle order from the collision depth.
    /// Inserting at a coordinate already present overwrites its value and
    /// never duplicates it. The store only ever grows; an empty tree adopts
    /// the dimensionality of the first point stored.
    pub fn insert(&mut self, coord: Vec<i32>, value: V) -> (r: Result<(), KdError>)
        requires
            old(self).inv(),
        ensures
            final(self).inv(),
            final(self).spec_capacity() >= old(self).spec_capacity(),
            final(self).spec_capacity() == old(self).spec_capacity()
                || final(self).slot_occupied(final(self).spec_capacity() - 1),
            forall|i: int| old(self).slot_occupied(i) ==> #[trigger] final(self).slot_occupied(i),
            match r {
                Ok(_) => final(self)@ == old(self)@.insert(coord@, value)
                    && final(self).spec_dim() == coord@.len()
                    && (old(self)@.dom().len() == 0 || coord@.len() == old(self).spec_dim()),
                Err(e) => {
                    &&& final(self)@ == old(self)@
                    &&& final(self).spec_dim() == old(self).spec_dim()
                    &&& (e == KdError::DimensionMismatch <==> (old(self)@.dom().len() != 0
                        && coord@.len() != old(self).spec_dim()))
                    &&& (e == KdError::AllocationFailure ==> final(self).spec_capacity() > (
                    usize::MAX - 2) / 2)
                },
            },
    {
        let ghost s0 = self.nodes@;
        proof {
            lemma_sub_map_finite(s0, 0);
        }
        if self.size == 0 {
            proof {
                if slot(s0, 0) is Some {
                    lemma_occupied_nonempty(s0, 0, self.dim as int);
                    let c = choose|c: Seq<i32>| sub_map(s0, 0).dom().contains(c);
                    lemma_contains_len(sub_map(s0, 0).dom(), c);
                }
                assert(slot(s0, 0) is None);
                assert(sub_wf(s0, 0, coord@.len() as int));
            }
        } else if coord.len() != self.dim {
            return Err(KdError::DimensionMismatch);
        }
        let ghost coordv = coord@;
        let coord_len = coord.len();
        let res = insert_at(&mut self.nodes, 0, 0, coord, value);
        match res {
            Ok(grew) => {
                proof {
                    lemma_size_bound(self.nodes@, 0);
                    assert(sub_map(self.nodes@, 0).dom() =~= sub_map(s0, 0).dom().insert(coordv));
                    vstd::set::axiom_set_insert_len(sub_map(s0, 0).dom(), coordv);
                    assert(self.nodes@.len() == self.nodes.len());
                }
                if grew {
                    self.size = self.size + 1;
                } else {
                    proof {
                        assert(sub_map(self.nodes@, 0).dom() =~= sub_map(s0, 0).dom());
                    }
                }
                self.dim = coord_len;
                Ok(())
            },
            Err(_) => {
                proof {
                    assert(sub_wf(self.nodes@, 0, self.dim as int));
                }
                Err(KdError::AllocationFailure)
            },
        }
    }

    /// Deletes the point stored at exactly `coord` and returns its value,
    /// or reports it absent. The slot that held the leaf becomes empty, and
    /// every partition left with two empty children collapses, bottom-up
    /// along the traversed path. The store never shrinks on removal: space
    /// is reclaimed only by `rebuild`.
    pub fn remove(&mut self, coord: &Vec<i32>) -> (r: Option<V>)
        requires
            old(self).inv(),
        ensures
            final(self).inv(),
            final(self)@ == old(self)@.remove(coord@),
            final(self).spec_capacity() == old(self).spec_capacity(),
            final(self).spec_dim() == old(self).spec_dim(),
            match r {
                Some(v) => old(self)@.contains_key(coord@) && v == old(self)@[coord@],
                None => !old(self)@.contains_key(coord@),
            },
    {
        let ghost s0 = self.nodes@;
        proof {
            lemma_sub_map_finite(s0, 0);
        }
        if coord.len() != self.dim {
            proof {
                lemma_keys_dim(s0, 0, self.dim as int);
                assert(sub_map(s0, 0) =~= sub_map(s0, 0).remove(coord@));
            }
            return None;
        }
        let r = remove_at(&mut self.nodes, 0, coord);
        if r.is_some() {
            proof {
                sub_map(s0, 0).lemma_remove_key_len(coord@);
            }
            self.size = self.size - 1;
        } else {
            proof {
                assert(sub_map(self.nodes@, 0).dom() =~= sub_map(s0, 0).dom());
            }
        }
        r
    }

    /// Returns every stored (coordinate, value) pair whose coordinate lies
    /// in the axis-aligned box `[lo, hi]` (inclusive on both ends,
    /// component-wise), each exactly once, in tree-traversal order. Sides of
    /// a partition that the box cannot reach are not visited.
    #[verifier::rlimit(100)]
    pub fn range_query<'a>(&'a self, lo: &Vec<i32>, hi: &Vec<i32>) -> (r: Vec<(&'a Vec<i32>, &'a V)>)
        requires
            self.inv(),
        ensures
            forall|t: int|
                0 <= t < r@.len() ==> self@.contains_key(#[trigger] r@[t].0@) && in_box(
                    lo@,
                    hi@,
                    r@[t].0@,
                ) && *r@[t].1 == self@[r@[t].0@],
            forall|c: Seq<i32>|
                self@.contains_key(c) && in_box(lo@, hi@, c) ==> exists|t: int|
                    0 <= t < r@.len() && #[trigger] r@[t].0@ == c,
            forall|t1: int, t2: int| 0 <= t1 < t2 < r@.len() ==> r@[t1].0@ != r@[t2].0@,
    {
        if lo.len() != self.dim || hi.len() != lo.len() {
            proof {
                lemma_keys_dim(self.nodes@, 0, self.dim as int);
            }
            let empty: Vec<(&'a Vec<i32>, &'a V)> = Vec::new();
            return empty;
        }
        let mut idxs: Vec<usize> = Vec::new();
        range_at(&self.nodes, 0, lo, hi, &mut idxs);
        let mut r: Vec<(&Vec<i32>, &V)> = Vec::new();
        let mut t: usize = 0;
        while t < idxs.len()
            invariant
                t <= idxs@.len(),
                r@.len() == t,
                sub_wf(self.nodes@, 0, lo@.len() as int),
                hi@.len() == lo@.len(),
                forall|u: int|
                    0 <= u < idxs@.len() ==> {
                        let j = #[trigger] idxs@[u] as int;
                        &&& leaf_at(self.nodes@, j)
                        &&& in_box(lo@, hi@, leaf_coord(self.nodes@, j))
                        &&& sub_map(self.nodes@, 0).contains_key(leaf_coord(self.nodes@, j))
                        &&& sub_map(self.nodes@, 0)[leaf_coord(self.nodes@, j)] == leaf_value(
                            self.nodes@,
                            j,
                        )
                    },
                forall|u1: int, u2: int|
                    0 <= u1 < u2 < idxs@.len() ==> leaf_coord(self.nodes@, #[trigger] idxs@[u1] as int)
                        != leaf_coord(self.nodes@, #[trigger] idxs@[u2] as int),
                forall|u: int|
                    0 <= u < t ==> #[trigger] r@[u].0@ == leaf_coord(
                        self.nodes@,
                        idxs@[u] as int,
                    ) && *r@[u].1 == leaf_value(self.nodes@, idxs@[u] as int),
            decreases idxs@.len() - t,
        {
            let j = idxs[t];
            proof {
                assert(leaf_at(self.nodes@, j as int));
            }
            match &self.nodes[j] {
                Some(Node::Leaf { coord, value }) => {
                    r.push((coord, value));
                    proof {
                        assert(coord@ == leaf_coord(self.nodes@, j as int));
                        assert(r@[t as int].0@ == leaf_coord(self.nodes@, j as int));
                        assert(*r@[t as int].1 == leaf_value(self.nodes@, j as int));
                    }
                },
                _ => {
                    proof {
                        assert(false);
                    }
                },
            }
            t = t + 1;
        }
        proof {
            assert forall|c: Seq<i32>| self@.contains_key(c) && in_box(lo@, hi@, c) implies exists|
                t: int,
            | 0 <= t < r@.len() && #[trigger] r@[t].0@ == c by {
                assert(sub_map(self.nodes@, 0).dom().contains(c));
                let u = choose|u: int|
                    0 <= u < idxs@.len() && leaf_coord(self.nodes@, #[trigger] idxs@[u] as int)
                        == c;
                assert(r@[u].0@ == c);
            }
        }
        r
    }

    /// Finds a stored point at minimal squared Euclidean distance to
    /// `coord`, returning its coordinate, its value and that distance, or
    /// nothing when the tree is empty. Among points at equal distance the
    /// first one found in traversal order is kept, so ties depend on the
    /// tree's internal layout.
    pub fn nearest<'a>(&'a self, coord: &Vec<i32>) -> (r: Option<(&'a Vec<i32>, &'a V, u128)>)
        requires
            self.inv(),
            self@.dom().len() == 0 || coord@.len() == self.spec_dim(),
        ensures
            match r {
                None => self@.dom().len() == 0,
                Some(p) => {
                    &&& self@.contains_key(p.0@)
                    &&& *p.1 == self@[p.0@]
                    &&& p.2 == sq_dist(coord@, p.0@)
                    &&& forall|c: Seq<i32>|
                        #[trigger] self@.contains_key(c) ==> sq_dist(coord@, c) >= p.2
                },
            },
    {
        if self.size == 0 {
            return None;
        }
        let res = nearest_at(&self.nodes, 0, coord, None);
        proof {
            lemma_sub_map_finite(self.nodes@, 0);
        }
        match res {
            None => {
                proof {
                    assert(false);
                }
                None
            },
            Some((j, d)) => {
                proof {
                    assert(leaf_at(self.nodes@, j as int));
                }
                match &self.nodes[j] {
                    Some(Node::Leaf { coord: c, value: v }) => Some((c, v, d)),
                    _ => {
                        proof {
                            assert(false);
                        }
                        None
                    },
                }
            },
        }
    }

    /// Rebuilds the tree from scratch: collects every stored pair, discards
    /// the grown store in favor of a freshly sized one, and reinserts the
    /// pairs. The stored points are exactly preserved; only the internal
    /// layout changes, and the new store holds nothing beyond what the
    /// rebuilt layout addresses: it has the default size, or its last slot
    /// is occupied. The pairs are reinserted in collection order, not by
    /// median selection along the cycling axis, so the rebuild reclaims
    /// space but does not enforce a balanced layout. This is the one way
    /// space is reclaimed after many removals. On resource exhaustion (the
    /// store cannot address a slot a reinsertion split needs) the rebuild
    /// stops with `AllocationFailure` and the tree holds a subset of its
    /// former points.
    pub fn rebuild(&mut self) -> (r: Result<(), KdError>)
        requires
            old(self).inv(),
        ensures
            final(self).inv(),
            final(self).spec_dim() == old(self).spec_dim(),
            match r {
                Ok(_) => final(self)@ == old(self)@ && (final(self).spec_capacity()
                    == DEFAULT_CAPACITY || final(self).slot_occupied(
                    final(self).spec_capacity() - 1,
                )) && (old(self)@.dom().len() == 0 ==> final(self).spec_capacity()
                    == DEFAULT_CAPACITY),
                Err(e) => e == KdError::AllocationFailure && final(self).spec_capacity() > (
                usize::MAX - 2) / 2 && (forall|c: Seq<i32>|
                    #[trigger] final(self)@.contains_key(c) ==> old(self)@.contains_key(c)
                        && final(self)@[c] == old(self)@[c]),
            },
    {
        let ghost m0 = sub_map(self.nodes@, 0);
        let ghost dim0 = self.dim as int;
        proof {
            lemma_keys_dim(self.nodes@, 0, dim0);
            lemma_sub_map_finite(self.nodes@, 0);
        }
        let mut pairs: Vec<(Vec<i32>, V)> = Vec::new();
        collect_at(&mut self.nodes, 0, &mut pairs, Ghost(dim0));
        let ghost pairs0 = pairs@;
        self.nodes = empty_store(DEFAULT_CAPACITY);
        self.size = 0;
        proof {
            assert(slot(self.nodes@, 0) is None);
            assert(sub_map(self.nodes@, 0) =~= Map::<Seq<i32>, V>::empty());
            assert(sub_map(self.nodes@, 0).dom() =~= Set::<Seq<i32>>::empty());
            assert(sub_wf(self.nodes@, 0, self.dim as int));
            assert(pairs@ =~= pairs0.subrange(0, pairs@.len() as int));
        }
        while pairs.len() > 0
            invariant
                self.inv(),
                m0 == old(self)@,
                dim0 == old(self).spec_dim(),
                self.spec_dim() == dim0,
                m0.dom().finite(),
                self.spec_capacity() == DEFAULT_CAPACITY || self.slot_occupied(
                    self.spec_capacity() - 1,
                ),
                pairs0.len() == 0 ==> self.spec_capacity() == DEFAULT_CAPACITY,
                pairs@.len() <= pairs0.len(),
                pairs@ == pairs0.subrange(0, pairs@.len() as int),
                forall|u: int|
                    0 <= u < pairs0.len() ==> m0.contains_key((#[trigger] pairs0[u]).0@)
                        && m0[pairs0[u].0@] == pairs0[u].1,
                forall|c: Seq<i32>|
                    #[trigger] m0.dom().contains(c) ==> c.len() == dim0 && (exists|u: int|
                        0 <= u < pairs0.len() && (#[trigger] pairs0[u]).0@ == c),
                forall|c: Seq<i32>|
                    #[trigger] self@.contains_key(c) ==> m0.contains_key(c) && self@[c] == m0[c],
                forall|c: Seq<i32>|
                    self@.contains_key(c) <==> (exists|u: int|
                        pairs@.len() <= u < pairs0.len() && (#[trigger] pairs0[u]).0@ == c),
            decreases pairs@.len(),
        {
            let p = match pairs.pop() {
                Some(p) => p,
                None => vstd::pervasive::unreached(),
            };
            let (c, v) = p;
            let ghost cl = c@;
            let ghost before = self@;
            proof {
                assert(pairs@ =~= pairs0.subrange(0, pairs@.len() as int));
                assert((pairs0[pairs@.len() as int]).0@ == cl);
                assert(m0.contains_key(cl));
                assert(cl.len() == dim0);
                if self@.dom().len() != 0 {
                    lemma_sub_map_finite(self.nodes@, 0);
                }
            }
            let res = self.insert(c, v);
            match res {
                Ok(_) => {
                    proof {
                        assert forall|cc: Seq<i32>| self@.contains_key(cc) implies (exists|u: int|
                            pairs@.len() <= u < pairs0.len() && (#[trigger] pairs0[u]).0@
                                == cc) by {
                            if cc == cl {
                                assert((pairs0[pairs@.len() as int]).0@ == cc);
                            }
                        }
                        assert forall|cc: Seq<i32>| (exists|u: int|
                            pairs@.len() <= u < pairs0.len() && (#[trigger] pairs0[u]).0@
                                == cc) implies self@.contains_key(cc) by {
                            if cc != cl {
                                assert(before.contains_key(cc));
                            }
                        }
                    }
                },
                Err(e) => {
                    proof {
                        assert(e != KdError::DimensionMismatch);
                        assert(e == KdError::AllocationFailure);
                    }
                    return Err(KdError::AllocationFailure);
                },
            }
        }
        proof {
            if m0.dom().len() == 0 {
                if pairs0.len() > 0 {
                    assert(m0.contains_key(pairs0[0].0@));
                    lemma_contains_len(m0.dom(), pairs0[0].0@);
                }
            }
            assert forall|c: Seq<i32>| #[trigger] m0.dom().contains(c) implies self@.contains_key(
                c,
            ) by {
                let u = choose|u: int| 0 <= u < pairs0.len() && (#[trigger] pairs0[u]).0@ == c;
                assert(pairs@.len() <= u < pairs0.len() && pairs0[u].0@ == c);
            }
            assert forall|c: Seq<i32>|
                #[trigger] self@.dom().contains(c) implies m0.dom().contains(c) && self@[c]
                == m0[c] by {
                assert(self@.contains_key(c));
            }
            assert(self@.dom() =~= m0.dom());
            assert(self@ =~= m0);
        }
        Ok(())
    }

    /// Looks up the value stored at exactly `coord`: absence is the normal
    /// not-found outcome, never an error. A coordinate whose component count
    /// differs from the tree's dimensionality is stored nowhere, so the
    /// lookup reports it absent.
    pub fn get(&self, coord: &Vec<i32>) -> (r: Option<&V>)
        requires
            self.inv(),
        ensures
            match r {
                Some(v) => self@.contains_key(coord@) && *v == self@[coord@],
                None => !self@.contains_key(coord@),
            },
    {
        if coord.len() != self.dim {
            proof {
                lemma_keys_dim(self.nodes@, 0, self.dim as int);
            }
            return None;
        }
        self.get_at(0, coord)
    }
}

impl<V> KdTree<V> {
    /// Whether slot `i` of the store holds a partition.
    pub closed spec fn slot_is_partition(self, i: int) -> bool {
        slot(self.nodes@, i) matches Some(Node::Partition { .. })
    }

    /// Whether slot `i` of the store holds a node.
    pub closed spec fn slot_occupied(self, i: int) -> bool {
        slot(self.nodes@, i) is Some
    }

    /// The points stored beneath slot `i`.
    pub closed spec fn subtree_points(self, i: int) -> Map<Seq<i32>, V> {
        sub_map(self.nodes@, i)
    }

    /// The subtree rooted at slot `i` is well-formed for the tree's
    /// dimensionality.
    pub closed spec fn wf_at(self, i: int) -> bool {
        0 <= i && sub_wf(self.nodes@, i, self.dim as int)
    }
}

/// A tree that satisfies its invariant is well-formed from the root down.
pub proof fn lemma_root_wf<V>(tree: KdTree<V>)
    requires
        tree.inv(),
    ensures
        tree.wf_at(0),
{
}

/// Well-formedness descends along child links: both subtrees of a
/// well-formed partition slot are well-formed.
pub proof fn lemma_wf_children<V>(tree: KdTree<V>, i: int)
    requires
        tree.wf_at(i),
        tree.slot_is_partition(i),
    ensures
        tree.wf_at(2 * i + 1),
        tree.wf_at(2 * i + 2),
{
}

/// A partition slot never outlives its points: beneath every well-formed
/// partition slot at least one point is still stored. Removal maintains this
/// by clearing a partition's slot the moment both its children have become
/// empty, so a partition whose descendant leaves are all gone does not
/// survive in the store.
pub proof fn lemma_partition_has_point<V>(tree: KdTree<V>, i: int)
    requires
        tree.wf_at(i),
        tree.slot_is_partition(i),
    ensures
        exists|c: Seq<i32>| tree.subtree_points(i).dom().contains(c),
{
    lemma_occupied_nonempty(tree.nodes@, i, tree.dim as int);
    let c = choose|c: Seq<i32>| #[trigger] sub_map(tree.nodes@, i).dom().contains(c);
    assert(tree.subtree_points(i).dom().contains(c));
}

/// Every stored coordinate has the tree's dimensionality: a coordinate of
/// any other component count is never stored, so an insertion that reports
/// success was dimension-checked.
pub proof fn lemma_keys_have_dim<V>(tree: KdTree<V>)
    requires
        tree.inv(),
    ensures
        forall|c: Seq<i32>| #[trigger] tree@.contains_key(c) ==> c.len() == tree.spec_dim(),
{
    lemma_keys_dim(tree.nodes@, 0, tree.dim as int);
}

/// The set of stored points is finite.
pub proof fn lemma_points_finite<V>(tree: KdTree<V>)
    ensures
        tree@.dom().finite(),
{
    lemma_sub_map_finite(tree.nodes@, 0);
}

impl<V> View for KdTree<V> {
    type V = Map<Seq<i32>, V>;

    open spec fn view(&self) -> Map<Seq<i32>, V> {
        self.as_points()
    }
}

impl<V> Default for KdTree<V> {
    /// Same as `KdTree::new`: an empty tree with the default store size.
    fn default() -> (tree: Self)
        ensures
            tree.inv(),
            tree@ == Map::<Seq<i32>, V>::empty(),
            tree.spec_capacity() == DEFAULT_CAPACITY,
    {
        Self::new()
    }
}

} // verus!
