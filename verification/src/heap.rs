use vstd::prelude::*;
use vstd::pervasive::VecAdditionalExecFns;

use crate::order::TotalOrder;

verus! {

/// Every pair of positions drawn in order from `[lo, hi)` is ordered by `le`.
pub open spec fn sorted_between<T: TotalOrder>(s: Seq<T>, lo: int, hi: int) -> bool {
    forall|i: int, j: int| lo <= i < j < hi ==> #[trigger] s[i].le(s[j])
}

/// The whole sequence is in non-descending order.
pub open spec fn sorted<T: TotalOrder>(s: Seq<T>) -> bool {
    sorted_between(s, 0, s.len() as int)
}

/// Position `p` dominates whichever of its children lie below `bound`.
pub open spec fn node_ok<T: TotalOrder>(s: Seq<T>, p: int, bound: int) -> bool {
    &&& (2 * p + 1 < bound ==> s[2 * p + 1].le(s[p]))
    &&& (2 * p + 2 < bound ==> s[2 * p + 2].le(s[p]))
}

/// The max-heap property holds at every position in `[lo, bound)`.
pub open spec fn heap_span<T: TotalOrder>(s: Seq<T>, lo: int, bound: int) -> bool {
    forall|p: int| lo <= p < bound ==> #[trigger] node_ok(s, p, bound)
}

/// `j` lies in the subtree rooted at `root`, under the implicit binary-tree
/// shape where position `p` has children `2p+1` and `2p+2`.
pub open spec fn in_subtree(root: int, j: int) -> bool
    decreases j,
{
    if j <= root {
        j == root
    } else if j < 1 {
        false
    } else {
        in_subtree(root, (j - 1) / 2)
    }
}

/// The max-heap property holds at every position of the subtree rooted at
/// `root` that lies below `bound`.
pub open spec fn heap_subtree<T: TotalOrder>(s: Seq<T>, root: int, bound: int) -> bool {
    forall|j: int|
        #![trigger node_ok(s, j, bound)]
        #![trigger in_subtree(root, j)]
        in_subtree(root, j) && j < bound ==> node_ok(s, j, bound)
}

/// The value standing at `p` in `t` stood, in `s`, at `p` itself or at
/// whichever of `p`'s children lie below `bound`.
pub open spec fn root_from_top<T>(s: Seq<T>, t: Seq<T>, p: int, bound: int) -> bool {
    ||| t[p] == s[p]
    ||| (2 * p + 1 < bound && t[p] == s[2 * p + 1])
    ||| (2 * p + 2 < bound && t[p] == s[2 * p + 2])
}

/// A subtree member never precedes its root.
pub proof fn lemma_subtree_ge(root: int, j: int)
    requires
        in_subtree(root, j),
    ensures
        j >= root,
{
}

/// Subtree membership is transitive.
pub proof fn lemma_subtree_trans(a: int, b: int, j: int)
    requires
        0 <= a,
        in_subtree(a, b),
        in_subtree(b, j),
    ensures
        in_subtree(a, j),
    decreases j,
{
    lemma_subtree_ge(a, b);
    if j != b {
        lemma_subtree_ge(b, j);
        lemma_subtree_trans(a, b, (j - 1) / 2);
    }
}

/// A strict descendant of `p` lies in the subtree of one of its children.
pub proof fn lemma_subtree_split(p: int, j: int)
    requires
        0 <= p,
        in_subtree(p, j),
        j != p,
    ensures
        in_subtree(2 * p + 1, j) || in_subtree(2 * p + 2, j),
    decreases j,
{
    lemma_subtree_ge(p, j);
    let q: int = (j - 1) / 2;
    assert(j - 1 == 2 * q + ((j - 1) % 2));
    if q == p {
        assert(j == 2 * p + 1 || j == 2 * p + 2);
    } else {
        lemma_subtree_split(p, q);
        if in_subtree(2 * p + 1, q) {
            lemma_subtree_ge(2 * p + 1, q);
        } else {
            lemma_subtree_ge(2 * p + 2, q);
        }
    }
}

/// Two subtrees that share a member are nested one inside the other.
pub proof fn lemma_subtree_meet(a: int, b: int, j: int)
    requires
        0 <= a,
        0 <= b,
        in_subtree(a, j),
        in_subtree(b, j),
    ensures
        in_subtree(a, b) || in_subtree(b, a),
    decreases j,
{
    if j != a && j != b {
        lemma_subtree_ge(a, j);
        lemma_subtree_ge(b, j);
        lemma_subtree_meet(a, b, (j - 1) / 2);
    }
}

/// Every non-negative position lies in the subtree rooted at position zero.
pub proof fn lemma_root_spans(j: int)
    requires
        0 <= j,
    ensures
        in_subtree(0, j),
    decreases j,
{
    if j > 0 {
        lemma_root_spans((j - 1) / 2);
    }
}

/// In a heap span that starts at the root, no element exceeds the root.
pub proof fn lemma_heap_root_max<T: TotalOrder>(s: Seq<T>, bound: int, k: int)
    requires
        bound <= s.len(),
        heap_span(s, 0, bound),
        0 <= k < bound,
    ensures
        s[k].le(s[0]),
    decreases k,
{
    if k == 0 {
        T::lemma_le_total(s[0], s[0]);
    } else {
        let q: int = (k - 1) / 2;
        assert(k - 1 == 2 * q + ((k - 1) % 2));
        assert(node_ok(s, q, bound));
        lemma_heap_root_max(s, bound, q);
        T::lemma_le_transitive(s[k], s[q], s[0]);
    }
}

/// A heap span covers every subtree rooted at or after its start.
pub proof fn lemma_span_gives_subtree<T: TotalOrder>(s: Seq<T>, lo: int, root: int, bound: int)
    requires
        heap_span(s, lo, bound),
        lo <= root,
    ensures
        heap_subtree(s, root, bound),
{
    assert forall|j: int| in_subtree(root, j) && j < bound implies node_ok(s, j, bound) by {
        lemma_subtree_ge(root, j);
    }
}

/// Restoring the subtree at `p` extends a heap span one position to the
/// left, provided everything outside that subtree kept its value.
pub proof fn lemma_span_extends<T: TotalOrder>(s0: Seq<T>, s1: Seq<T>, p: int, bound: int)
    requires
        0 <= p,
        bound <= s0.len(),
        s1.len() == s0.len(),
        heap_span(s0, p + 1, bound),
        heap_subtree(s1, p, bound),
        forall|j: int| 0 <= j < s0.len() && !in_subtree(p, j) ==> s1[j] == s0[j],
    ensures
        heap_span(s1, p, bound),
{
    assert forall|q: int| p <= q < bound implies node_ok(s1, q, bound) by {
        if in_subtree(p, q) {
            assert(node_ok(s1, q, bound));
        } else {
            assert(node_ok(s0, q, bound));
            if 2 * q + 1 < bound && in_subtree(p, 2 * q + 1) {
                assert((2 * q + 1 - 1) / 2 == q);
                assert(in_subtree(p, q));
            }
            if 2 * q + 2 < bound && in_subtree(p, 2 * q + 2) {
                assert((2 * q + 2 - 1) / 2 == q);
                assert(in_subtree(p, q));
            }
            assert(node_ok(s1, q, bound));
        }
    }
}

/// A sequence with fewer than two elements is already sorted, so sorting
/// leaves an empty or singleton sequence unchanged.
pub proof fn lemma_short_sorted<T: TotalOrder>(s: Seq<T>)
    requires
        s.len() <= 1,
    ensures
        sorted(s),
{
}

/// When the order is antisymmetric, a multiset of elements has exactly one
/// sorted arrangement. In particular sorting is idempotent: sorting an
/// already sorted sequence reproduces it, since both are sorted
/// arrangements of the same elements.
pub proof fn lemma_sorted_unique<T: TotalOrder>(s: Seq<T>, t: Seq<T>)
    requires
        sorted(s),
        sorted(t),
        s.to_multiset() == t.to_multiset(),
        forall|x: T, y: T| #![trigger x.le(y), y.le(x)] x.le(y) && y.le(x) ==> x == y,
    ensures
        s == t,
    decreases s.len(),
{
    broadcast use vstd::seq_lib::group_to_multiset_ensures;

    assert(s.len() == s.to_multiset().len());
    assert(t.len() == t.to_multiset().len());
    if s.len() == 0 {
        assert(s =~= t);
    } else {
        assert(s.contains(s[0]));
        assert(s.to_multiset().count(s[0]) > 0);
        assert(t.to_multiset().count(s[0]) > 0);
        assert(t.contains(s[0]));
        let i: int = choose|i: int| 0 <= i < t.len() && t[i] == s[0];
        if i == 0 {
            T::lemma_le_total(t[0], t[0]);
        }
        assert(t[0].le(s[0]));
        assert(t.contains(t[0]));
        assert(t.to_multiset().count(t[0]) > 0);
        assert(s.to_multiset().count(t[0]) > 0);
        assert(s.contains(t[0]));
        let k: int = choose|k: int| 0 <= k < s.len() && s[k] == t[0];
        if k == 0 {
            T::lemma_le_total(s[0], s[0]);
        }
        assert(s[0].le(t[0]));
        assert(s[0] == t[0]);
        let s1 = s.drop_first();
        let t1 = t.drop_first();
        assert(s.remove(0) =~= s1);
        assert(t.remove(0) =~= t1);
        assert(s1.to_multiset() == t1.to_multiset());
        assert forall|x: int, y: int| 0 <= x < y < s1.len() implies #[trigger] s1[x].le(s1[y]) by {
            assert(s[x + 1].le(s[y + 1]));
        }
        assert forall|x: int, y: int| 0 <= x < y < t1.len() implies #[trigger] t1[x].le(t1[y]) by {
            assert(t[x + 1].le(t[y + 1]));
        }
        lemma_sorted_unique(s1, t1);
        assert forall|x: int| 0 <= x < s.len() implies s[x] == t[x] by {
            if x > 0 {
                assert(s1[x - 1] == t1[x - 1]);
            }
        }
        assert(s =~= t);
    }
}

/// The two children of position `p` are members of its subtree, and the
/// subtree of neither child contains the other child.
pub proof fn lemma_children_of(p: int)
    requires
        0 <= p,
    ensures
        in_subtree(p, 2 * p + 1),
        in_subtree(p, 2 * p + 2),
        !in_subtree(2 * p + 1, 2 * p + 2),
        !in_subtree(2 * p + 2, 2 * p + 1),
{
    assert((2 * p + 1 - 1) / 2 == p);
    assert((2 * p + 2 - 1) / 2 == p);
    assert(in_subtree(p, p));
    if in_subtree(2 * p + 1, 2 * p + 2) {
        assert(in_subtree(2 * p + 1, p));
        lemma_subtree_ge(2 * p + 1, p);
    }
    if in_subtree(2 * p + 2, 2 * p + 1) {
        lemma_subtree_ge(2 * p + 2, 2 * p + 1);
    }
}

/// Swapping two positions leaves the multiset of elements unchanged.
pub proof fn lemma_swap_multiset<T>(s: Seq<T>, a: int, b: int)
    requires
        0 <= a < s.len(),
        0 <= b < s.len(),
    ensures
        s.update(a, s[b]).update(b, s[a]).to_multiset() == s.to_multiset(),
{
    broadcast use vstd::seq_lib::group_to_multiset_ensures;
    broadcast use vstd::multiset::group_multiset_axioms;

    if a == b {
        assert(s.update(a, s[b]).update(b, s[a]) =~= s);
    } else {
        let s1 = s.update(a, s[b]);
        let s2 = s1.update(b, s[a]);
        assert(s.contains(s[a]));
        assert(s1.contains(s1[b]));
        assert(s1[b] == s[b]);
        assert forall|x: T| s2.to_multiset().count(x) == s.to_multiset().count(x) by {
            assert(s1.to_multiset() == s.to_multiset().insert(s[b]).remove(s[a]));
            assert(s2.to_multiset() == s1.to_multiset().insert(s[a]).remove(s[b]));
        }
        assert(s2.to_multiset() =~= s.to_multiset());
    }
}

/// Two sequences of the same length that agree from `j` onward and carry
/// the same multiset also carry the same multiset on their prefixes.
pub proof fn lemma_prefix_multiset<T>(s0: Seq<T>, s1: Seq<T>, j: int)
    requires
        s0.len() == s1.len(),
        0 <= j <= s0.len(),
        s0.to_multiset() == s1.to_multiset(),
        forall|k: int| j <= k < s0.len() ==> s0[k] == s1[k],
    ensures
        s0.subrange(0, j).to_multiset() == s1.subrange(0, j).to_multiset(),
{
    broadcast use vstd::multiset::group_multiset_axioms;

    let len: int = s0.len() as int;
    let p0 = s0.subrange(0, j);
    let t0 = s0.subrange(j, len);
    let p1 = s1.subrange(0, j);
    let t1 = s1.subrange(j, len);
    assert(t0 =~= t1);
    assert(s0 =~= p0 + t0);
    assert(s1 =~= p1 + t1);
    vstd::seq_lib::lemma_multiset_commutative(p0, t0);
    vstd::seq_lib::lemma_multiset_commutative(p1, t1);
    assert forall|x: T| p0.to_multiset().count(x) == p1.to_multiset().count(x) by {
        assert((p0 + t0).to_multiset().count(x) == p0.to_multiset().count(x) + t0.to_multiset().count(
            x,
        ));
        assert((p1 + t1).to_multiset().count(x) == p1.to_multiset().count(x) + t1.to_multiset().count(
            x,
        ));
    }
    assert(p0.to_multiset() =~= p1.to_multiset());
}

/// Under the hypotheses of `lemma_prefix_multiset`, every prefix element
/// of `s1` equals some prefix element of `s0`.
pub proof fn lemma_prefix_source<T>(s0: Seq<T>, s1: Seq<T>, j: int, a: int)
    requires
        s0.len() == s1.len(),
        0 <= a < j <= s0.len(),
        s0.to_multiset() == s1.to_multiset(),
        forall|k: int| j <= k < s0.len() ==> s0[k] == s1[k],
    ensures
        exists|k: int| 0 <= k < j && s0[k] == s1[a],
{
    broadcast use vstd::seq_lib::group_to_multiset_ensures;

    lemma_prefix_multiset(s0, s1, j);
    let p0 = s0.subrange(0, j);
    let p1 = s1.subrange(0, j);
    assert(p1[a] == s1[a]);
    assert(p1.contains(s1[a]));
    assert(p1.to_multiset().count(s1[a]) > 0);
    assert(p0.contains(s1[a]));
    let k: int = choose|k: int| 0 <= k < p0.len() && p0[k] == s1[a];
    assert(s0[k] == s1[a]);
}

/// Exchange the elements at positions `a` and `b`.
fn swap_elements<T: TotalOrder>(v: &mut Vec<T>, a: usize, b: usize)
    requires
        a < old(v).len(),
        b < old(v).len(),
    ensures
        final(v)@ == old(v)@.update(a as int, old(v)@[b as int]).update(b as int, old(v)@[a as int]),
{
    let x: T = v[a].copy_val();
    let y: T = v[b].copy_val();
    v.set(a, y);
    v.set(b, x);
}

/// Sink the element at `parent` until the subtree rooted there regains the
/// max-heap property, assuming the subtrees of both children already have
/// it. Positions outside that subtree, and positions at or beyond `bound`,
/// keep their values, the elements are only rearranged, and the value that
/// ends up at `parent` is the largest of the old parent and child values.
pub fn heapify<T: TotalOrder>(v: &mut Vec<T>, parent: usize, bound: usize)
    requires
        parent < bound,
        bound <= old(v).len(),
        heap_subtree(old(v)@, 2 * (parent as int) + 1, bound as int),
        heap_subtree(old(v)@, 2 * (parent as int) + 2, bound as int),
    ensures
        final(v)@.len() == old(v)@.len(),
        heap_subtree(final(v)@, parent as int, bound as int),
        forall|j: int|
            0 <= j < old(v)@.len() && !in_subtree(parent as int, j) ==> final(v)@[j] == old(
                v,
            )@[j],
        forall|j: int| bound <= j < old(v)@.len() ==> final(v)@[j] == old(v)@[j],
        final(v)@.to_multiset() == old(v)@.to_multiset(),
        root_from_top(old(v)@, final(v)@, parent as int, bound as int),
    decreases bound - parent,
{
    let ghost s0 = v@;
    let ghost p: int = parent as int;
    let ghost b: int = bound as int;

    if parent >= bound / 2 {
        // Both child positions lie at or beyond `bound`: nothing to sink.
        proof {
            assert(b == 2 * (b / 2) + b % 2);
            assert forall|j: int| in_subtree(p, j) && j < b implies node_ok(v@, j, b) by {
                lemma_subtree_ge(p, j);
            }
        }
        return ;
    }
    proof {
        assert(b == 2 * (b / 2) + b % 2);
        assert(2 * p + 1 < b);
        assert(2 * p + 2 <= b);
    }
    let child1: usize = 2 * parent + 1;
    let child2: usize = 2 * parent + 2;
    let first_wins = v[child1].gt(&v[parent]);
    let mut largest: usize = parent;
    if first_wins {
        largest = child1;
    }
    let second_wins = if child2 < bound {
        v[child2].gt(&v[largest])
    } else {
        false
    };
    if second_wins {
        largest = child2;
    }
    let ghost m: int = largest as int;
    let ghost c1: int = 2 * p + 1;
    let ghost c2: int = 2 * p + 2;

    if largest == parent {
        proof {
            assert(s0[c1].le(s0[p]));
            assert(c2 < b ==> s0[c2].le(s0[p]));
            assert(node_ok(v@, p, b));
            assert forall|j: int| in_subtree(p, j) && j < b implies node_ok(v@, j, b) by {
                if j != p {
                    lemma_subtree_split(p, j);
                }
            }
        }
        return ;
    }

    proof {
        // The value at `largest` is the strict maximum of the three.
        if m == c1 {
            T::lemma_le_total(s0[c1], s0[p]);
            if c2 < b {
                assert(s0[c2].le(s0[c1]));
            }
        } else {
            assert(m == c2);
            if first_wins {
                T::lemma_le_total(s0[c2], s0[c1]);
                T::lemma_le_total(s0[c1], s0[p]);
                T::lemma_le_transitive(s0[p], s0[c1], s0[c2]);
            } else {
                T::lemma_le_total(s0[c2], s0[p]);
                T::lemma_le_transitive(s0[c1], s0[p], s0[c2]);
            }
        }
        assert(s0[p].le(s0[m]));
        lemma_children_of(p);
        lemma_children_of(m);
    }
    let ghost oc: int = if m == c1 { c2 } else { c1 };

    swap_elements(v, parent, largest);
    let ghost s1 = v@;
    proof {
        lemma_swap_multiset(s0, p, m);
        // The subtrees of both children of `m` are untouched by the swap
        // and were heaps before it.
        assert forall|j: int| in_subtree(2 * m + 1, j) && j < b implies node_ok(s1, j, b) by {
            lemma_subtree_ge(2 * m + 1, j);
            lemma_subtree_trans(m, 2 * m + 1, j);
            assert(node_ok(s0, j, b));
        }
        assert forall|j: int| in_subtree(2 * m + 2, j) && j < b implies node_ok(s1, j, b) by {
            lemma_subtree_ge(2 * m + 2, j);
            lemma_subtree_trans(m, 2 * m + 2, j);
            assert(node_ok(s0, j, b));
        }
    }
    heapify(v, largest, bound);
    let ghost s2 = v@;
    proof {
        assert(!in_subtree(m, p)) by {
            if in_subtree(m, p) {
                lemma_subtree_ge(m, p);
            }
        }
        assert(s2[p] == s0[m]);
        assert(!in_subtree(m, oc));
        assert(oc < b ==> s2[oc] == s0[oc]);
        assert(node_ok(s0, m, b));
        // The subtree at `parent` is now a heap.
        assert forall|j: int| in_subtree(p, j) && j < b implies node_ok(s2, j, b) by {
            if j == p {
                // Whatever rose to `m` is one of the old values of `m`'s
                // subtree top, all of which stay at or below old `s0[m]`.
                assert(s2[m].le(s2[p])) by {
                    if s2[m] == s1[m] {
                        assert(s2[m] == s0[p]);
                    } else if 2 * m + 1 < b && s2[m] == s1[2 * m + 1] {
                        assert(s2[m] == s0[2 * m + 1]);
                    } else {
                        assert(s2[m] == s0[2 * m + 2]);
                    }
                }
                assert(oc < b ==> s2[oc].le(s2[p])) by {
                    if oc < b {
                        assert(s0[oc].le(s0[m]));
                    }
                }
                assert(node_ok(s2, p, b));
            } else {
                lemma_subtree_split(p, j);
                if in_subtree(m, j) {
                    assert(node_ok(s2, j, b));
                } else {
                    assert(in_subtree(oc, j));
                    lemma_subtree_ge(oc, j);
                    // Neither `j` nor its children lie in `m`'s subtree.
                    assert((2 * j + 1 - 1) / 2 == j);
                    assert((2 * j + 2 - 1) / 2 == j);
                    assert(in_subtree(oc, 2 * j + 1));
                    assert(in_subtree(oc, 2 * j + 2));
                    if in_subtree(m, 2 * j + 1) {
                        lemma_subtree_meet(m, oc, 2 * j + 1);
                    }
                    if in_subtree(m, 2 * j + 2) {
                        lemma_subtree_meet(m, oc, 2 * j + 2);
                    }
                    assert(node_ok(s0, j, b));
                    assert(node_ok(s2, j, b));
                }
            }
        }
        // Frame: nothing outside the subtree of `parent` moved.
        assert forall|j: int| 0 <= j < s0.len() && !in_subtree(p, j) implies s2[j] == s0[j] by {
            if in_subtree(m, j) {
                lemma_subtree_trans(p, m, j);
            }
        }
    }
}

/// Sort the sequence in place into non-descending order by binary
/// max-heap construction followed by repeated extraction of the maximum.
/// The result holds exactly the elements it was given.
pub fn heapsort<T: TotalOrder>(v: &mut Vec<T>)
    ensures
        final(v)@.len() == old(v)@.len(),
        sorted(final(v)@),
        final(v)@.to_multiset() == old(v)@.to_multiset(),
{
    let n: usize = v.len();
    if n <= 1 {
        return ;
    }
    let ghost orig = v@;

    // Phase 1: turn the whole sequence into a max-heap, walking from the
    // last internal node down to the root.
    let mut i: usize = (n - 1) / 2;
    proof {
        assert(n - 1 == 2 * ((n - 1) / 2) + ((n - 1) % 2));
        assert forall|q: int| i + 1 <= q < n implies node_ok(v@, q, n as int) by {
            assert(2 * q + 1 >= n);
        }
    }
    while 0 < i
        invariant
            2 <= n == v@.len(),
            i <= (n - 1) / 2,
            heap_span(v@, i + 1, n as int),
            v@.to_multiset() == orig.to_multiset(),
        decreases i,
    {
        proof {
            lemma_span_gives_subtree(v@, i + 1, 2 * (i as int) + 1, n as int);
            lemma_span_gives_subtree(v@, i + 1, 2 * (i as int) + 2, n as int);
        }
        let ghost before = v@;
        heapify(v, i, n);
        proof {
            lemma_span_extends(before, v@, i as int, n as int);
        }
        i -= 1;
    }
    proof {
        lemma_span_gives_subtree(v@, 1, 1, n as int);
        lemma_span_gives_subtree(v@, 1, 2, n as int);
    }
    let ghost before0 = v@;
    heapify(v, 0, n);
    proof {
        lemma_span_extends(before0, v@, 0, n as int);
    }

    // Phase 2: repeatedly move the root (the maximum of the active
    // region) to the end of that region and restore the heap below it.
    let mut j: usize = n - 1;
    while 0 < j
        invariant
            2 <= n == v@.len(),
            j < n,
            heap_span(v@, 0, j + 1),
            sorted_between(v@, j + 1, n as int),
            forall|a: int, c: int| 0 <= a <= j < c < n ==> #[trigger] v@[a].le(v@[c]),
            v@.to_multiset() == orig.to_multiset(),
        decreases j,
    {
        let ghost s_pre = v@;
        swap_elements(v, 0, j);
        let ghost s_swp = v@;
        proof {
            lemma_swap_multiset(s_pre, 0, j as int);
            assert forall|k: int| in_subtree(1, k) && k < j implies node_ok(s_swp, k, j as int) by {
                lemma_subtree_ge(1, k);
                assert(node_ok(s_pre, k, (j + 1) as int));
            }
            assert forall|k: int| in_subtree(2, k) && k < j implies node_ok(s_swp, k, j as int) by {
                lemma_subtree_ge(2, k);
                assert(node_ok(s_pre, k, (j + 1) as int));
            }
        }
        heapify(v, 0, j);
        let ghost s_post = v@;
        proof {
            // The heap region shrank by one; it is again a heap span.
            assert forall|q: int| 0 <= q < j implies node_ok(s_post, q, j as int) by {
                lemma_root_spans(q);
            }
            // Everything that was in the old heap region stays at or
            // below the extracted maximum, which now sits at `j`.
            assert(s_post[j as int] == s_pre[0]);
            assert forall|a: int, c: int| 0 <= a <= j - 1 < c < n implies #[trigger] s_post[a].le(
                s_post[c],
            ) by {
                lemma_prefix_source(s_swp, s_post, j as int, a);
                let k: int = choose|k: int| 0 <= k < j && s_swp[k] == s_post[a];
                if k == 0 {
                    assert(s_swp[k] == s_pre[j as int]);
                } else {
                    assert(s_swp[k] == s_pre[k]);
                }
                if c == j {
                    lemma_heap_root_max(s_pre, (j + 1) as int, k);
                    if k == 0 {
                        lemma_heap_root_max(s_pre, (j + 1) as int, j as int);
                    }
                } else {
                    assert(s_post[c] == s_pre[c]);
                    assert(s_pre[k].le(s_pre[c]) || k == 0);
                    if k == 0 {
                        assert(s_pre[j as int].le(s_pre[c]));
                    }
                }
            }
            // The sorted tail grew by one position.
            assert forall|x: int, y: int| j <= x < y < n implies #[trigger] s_post[x].le(
                s_post[y],
            ) by {
                if x == j {
                    lemma_heap_root_max(s_pre, (j + 1) as int, 0);
                    assert(s_pre[0].le(s_pre[y]));
                }
            }
        }
        j -= 1;
    }
    proof {
        assert forall|x: int, y: int| 0 <= x < y < n implies #[trigger] v@[x].le(v@[y]) by {
            if x > 0 {
                assert(sorted_between(v@, 1, n as int));
            }
        }
    }
}

} // verus!
