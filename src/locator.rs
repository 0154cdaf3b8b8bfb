use crate::heap::{heap_ordered, MinHeap, Node, PriorityQueue};
use vstd::multiset::Multiset;
use vstd::prelude::*;
use vstd::string::StringExecFns;

verus! {

broadcast use vstd::seq_lib::group_to_multiset_ensures;

/// Absolute value of an integer.
pub open spec fn abs_int(v: int) -> int {
    if v < 0 { -v } else { v }
}

/// Manhattan ("orthogonal") distance between two points.
pub open spec fn spec_distance(p1: (i32, i32), p2: (i32, i32)) -> int {
    abs_int(p1.0 - p2.0) + abs_int(p1.1 - p2.1)
}

/// Computes the orthogonal distance `|x1 - x2| + |y1 - y2|` between two points.
pub fn distance(p1: (i32, i32), p2: (i32, i32)) -> (r: i32)
    requires
        spec_distance(p1, p2) <= i32::MAX,
    ensures
        r == spec_distance(p1, p2),
{
    let (x1, y1) = p1;
    let (x2, y2) = p2;
    let dx: i64 = x1 as i64 - x2 as i64;
    let dy: i64 = y1 as i64 - y2 as i64;
    let ax: i64 = if dx < 0 { -dx } else { dx };
    let ay: i64 = if dy < 0 { -dy } else { dy };
    (ax + ay) as i32
}

/// Same as [`distance`]: the orthogonal distance between two points.
pub fn calculate_orthogonal_distance(point1: (i32, i32), point2: (i32, i32)) -> (r: i32)
    requires
        spec_distance(point1, point2) <= i32::MAX,
    ensures
        r == spec_distance(point1, point2),
{
    distance(point1, point2)
}

/// A named group of points: each entry is a name and its coordinate.
pub type Group = Vec<(String, (i32, i32))>;

/// Distance between member `i` of `g1` and member `j` of `g2`.
pub open spec fn pair_distance(
    g1: Seq<(String, (i32, i32))>,
    g2: Seq<(String, (i32, i32))>,
    i: int,
    j: int,
) -> int {
    spec_distance(g1[i].1, g2[j].1)
}

/// Every pairwise distance between the two groups fits in an `i32`.
pub open spec fn distances_fit(g1: Seq<(String, (i32, i32))>, g2: Seq<(String, (i32, i32))>) -> bool {
    forall|i: int, j: int|
        0 <= i < g1.len() && 0 <= j < g2.len() ==> #[trigger] pair_distance(g1, g2, i, j)
            <= i32::MAX
}

/// No two members of the group share a name.
pub open spec fn names_unique(g: Seq<(String, (i32, i32))>) -> bool {
    forall|a: int, b: int| 0 <= a < b < g.len() ==> #[trigger] g[a].0@ != #[trigger] g[b].0@
}

/// A one-to-one partial matching between `n1` and `n2` members, kept from both
/// sides: `p1[i] == Some(j)` exactly when `p2[j] == Some(i)`.
pub open spec fn consistent(p1: Seq<Option<usize>>, p2: Seq<Option<usize>>, n1: int, n2: int) -> bool {
    &&& p1.len() == n1
    &&& p2.len() == n2
    &&& forall|i: int|
        0 <= i < n1 && (#[trigger] p1[i]) is Some ==> p1[i].unwrap() < n2 && p2[p1[i].unwrap() as int] is Some
            && p2[p1[i].unwrap() as int].unwrap() == i
    &&& forall|j: int|
        0 <= j < n2 && (#[trigger] p2[j]) is Some ==> p2[j].unwrap() < n1 && p1[p2[j].unwrap() as int] is Some
            && p1[p2[j].unwrap() as int].unwrap() == j
}

/// The pair `(i, j)` cannot improve the matching: `i` already has a partner
/// at most as far as `j`, or `j` already has one at most as far as `i`.
pub open spec fn settled(
    g1: Seq<(String, (i32, i32))>,
    g2: Seq<(String, (i32, i32))>,
    p1: Seq<Option<usize>>,
    p2: Seq<Option<usize>>,
    i: int,
    j: int,
) -> bool {
    ||| p1[i] is Some && pair_distance(g1, g2, i, p1[i].unwrap() as int) <= pair_distance(g1, g2, i, j)
    ||| p2[j] is Some && pair_distance(g1, g2, p2[j].unwrap() as int, j) <= pair_distance(g1, g2, i, j)
}

/// What a greedy pass in order of increasing distance produces: a one-to-one
/// matching in which every pair of the two groups is settled.
pub open spec fn greedy_matching(
    g1: Seq<(String, (i32, i32))>,
    g2: Seq<(String, (i32, i32))>,
    p1: Seq<Option<usize>>,
    p2: Seq<Option<usize>>,
) -> bool {
    &&& consistent(p1, p2, g1.len() as int, g2.len() as int)
    &&& forall|i: int, j: int|
        0 <= i < g1.len() && 0 <= j < g2.len() ==> #[trigger] settled(g1, g2, p1, p2, i, j)
}

/// Number of members that have a partner.
pub open spec fn count_matched(s: Seq<Option<usize>>) -> nat
    decreases s.len(),
{
    if s.len() == 0 {
        0
    } else {
        count_matched(s.drop_last()) + if s.last() is Some {
            1nat
        } else {
            0nat
        }
    }
}

proof fn lemma_count_le(s: Seq<Option<usize>>)
    ensures
        count_matched(s) <= s.len(),
    decreases s.len(),
{
    if s.len() > 0 {
        lemma_count_le(s.drop_last());
    }
}

proof fn lemma_count_all_none(s: Seq<Option<usize>>)
    requires
        forall|i: int| 0 <= i < s.len() ==> s[i] is None,
    ensures
        count_matched(s) == 0,
    decreases s.len(),
{
    if s.len() > 0 {
        lemma_count_all_none(s.drop_last());
    }
}

proof fn lemma_count_add(s: Seq<Option<usize>>, i: int, v: usize)
    requires
        0 <= i < s.len(),
        s[i] is None,
    ensures
        count_matched(s.update(i, Some(v))) == count_matched(s) + 1,
    decreases s.len(),
{
    let t = s.update(i, Some(v));
    if i == s.len() - 1 {
        assert(t.drop_last() =~= s.drop_last());
    } else {
        assert(t.drop_last() =~= s.drop_last().update(i, Some(v)));
        lemma_count_add(s.drop_last(), i, v);
    }
}

proof fn lemma_count_full(s: Seq<Option<usize>>)
    requires
        count_matched(s) == s.len(),
    ensures
        forall|i: int| 0 <= i < s.len() ==> s[i] is Some,
    decreases s.len(),
{
    if s.len() > 0 {
        lemma_count_le(s.drop_last());
        lemma_count_full(s.drop_last());
        assert forall|i: int| 0 <= i < s.len() implies s[i] is Some by {
            if i < s.len() - 1 {
                assert(s.drop_last()[i] == s[i]);
            }
        }
    }
}

/// The heap entry for the pair `(i, j)`.
pub open spec fn pair_node(
    g1: Seq<(String, (i32, i32))>,
    g2: Seq<(String, (i32, i32))>,
    i: int,
    j: int,
) -> Node<(usize, usize)> {
    Node { priority: pair_distance(g1, g2, i, j) as i32, data: (i as usize, j as usize) }
}

/// Every entry is the entry of a pair of the two groups.
pub open spec fn valid_entries(
    g1: Seq<(String, (i32, i32))>,
    g2: Seq<(String, (i32, i32))>,
    m: Multiset<Node<(usize, usize)>>,
) -> bool {
    forall|x: Node<(usize, usize)>|
        #[trigger] m.contains(x) ==> x.data.0 < g1.len() && x.data.1 < g2.len() && x
            == pair_node(g1, g2, x.data.0 as int, x.data.1 as int)
}

/// The result of matching two groups, seen from each side: `first[i]` is the
/// partner in the second group of member `i` of the first, and `second[j]`
/// the partner in the first group of member `j` of the second.
pub struct Matching {
    pub first: Vec<Option<usize>>,
    pub second: Vec<Option<usize>>,
}

fn unmatched(n: usize) -> (v: Vec<Option<usize>>)
    ensures
        v@.len() == n,
        forall|i: int| 0 <= i < n ==> v@[i] is None,
        count_matched(v@) == 0,
{
    let mut v: Vec<Option<usize>> = Vec::new();
    while v.len() < n
        invariant
            v@.len() <= n,
            forall|i: int| 0 <= i < v@.len() ==> v@[i] is None,
        decreases n - v@.len(),
    {
        v.push(None);
    }
    proof {
        lemma_count_all_none(v@);
    }
    v
}

/// Matches the two groups greedily: all pairs are taken in order of increasing
/// distance, and a pair is kept when neither member has a partner yet. The pass
/// stops as soon as one group is fully matched.
pub fn greedy_match(group1: &Group, group2: &Group) -> (m: Matching)
    requires
        distances_fit(group1@, group2@),
    ensures
        greedy_matching(group1@, group2@, m.first@, m.second@),
{
    let n1 = group1.len();
    let n2 = group2.len();
    let ghost g1 = group1@;
    let ghost g2 = group2@;
    let mut heap: MinHeap<(usize, usize)> = MinHeap::new();
    assert(heap.entries().to_multiset().len() == 0);
    let mut i: usize = 0;
    while i < n1
        invariant
            n1 == g1.len(),
            n2 == g2.len(),
            g1 == group1@,
            g2 == group2@,
            i <= n1,
            distances_fit(g1, g2),
            heap_ordered(heap.entries()),
            valid_entries(g1, g2, heap.entries().to_multiset()),
            forall|a: int, b: int|
                0 <= a < i && 0 <= b < n2 ==> heap.entries().to_multiset().contains(
                    #[trigger] pair_node(g1, g2, a, b),
                ),
        decreases n1 - i,
    {
        let mut j: usize = 0;
        while j < n2
            invariant
                n1 == g1.len(),
                n2 == g2.len(),
                g1 == group1@,
                g2 == group2@,
                i < n1,
                j <= n2,
                distances_fit(g1, g2),
                heap_ordered(heap.entries()),
                valid_entries(g1, g2, heap.entries().to_multiset()),
                forall|a: int, b: int|
                    (0 <= a < i && 0 <= b < n2) || (a == i && 0 <= b < j)
                        ==> heap.entries().to_multiset().contains(
                        #[trigger] pair_node(g1, g2, a, b),
                    ),
            decreases n2 - j,
        {
            assert(pair_distance(g1, g2, i as int, j as int) <= i32::MAX);
            let d = distance(group1[i].1, group2[j].1);
            let ghost old_entries = heap.entries().to_multiset();
            let ele = Node { priority: d, data: (i, j) };
            assert(ele == pair_node(g1, g2, i as int, j as int));
            heap.enqueue(ele);
            assert forall|x: Node<(usize, usize)>| #[trigger] heap.entries().to_multiset().contains(x) implies old_entries.contains(x) || x == ele by {}
            j = j + 1;
        }
        i = i + 1;
    }
    let mut first = unmatched(n1);
    let mut second = unmatched(n2);
    let mut matched: usize = 0;
    loop
        invariant
            n1 == g1.len(),
            n2 == g2.len(),
            g1 == group1@,
            g2 == group2@,
            heap_ordered(heap.entries()),
            valid_entries(g1, g2, heap.entries().to_multiset()),
            consistent(first@, second@, n1 as int, n2 as int),
            count_matched(first@) == matched,
            count_matched(second@) == matched,
            matched <= n1,
            matched <= n2,
            distances_fit(g1, g2),
            forall|a: int, b: int|
                0 <= a < n1 && 0 <= b < n2 ==> heap.entries().to_multiset().contains(
                    pair_node(g1, g2, a, b),
                ) || #[trigger] settled(g1, g2, first@, second@, a, b),
            forall|a: int, x: Node<(usize, usize)>|
                0 <= a < n1 && (#[trigger] first@[a]) is Some && #[trigger] heap.entries().to_multiset().contains(x)
                    ==> pair_distance(g1, g2, a, first@[a].unwrap() as int) <= x.priority,
            forall|b: int, x: Node<(usize, usize)>|
                0 <= b < n2 && (#[trigger] second@[b]) is Some && #[trigger] heap.entries().to_multiset().contains(x)
                    ==> pair_distance(g1, g2, second@[b].unwrap() as int, b) <= x.priority,
        ensures
            greedy_matching(g1, g2, first@, second@),
        decreases heap.entries().len(),
    {
        if matched == n1 || matched == n2 {
            proof {
                if matched == n1 {
                    lemma_count_full(first@);
                } else {
                    lemma_count_full(second@);
                }
            }
            break;
        }
        let ghost before = heap.entries().to_multiset();
        let ghost p1 = first@;
        let ghost p2 = second@;
        match heap.dequeue() {
            None => {
                assert(heap.entries().to_multiset().len() == 0);
                break;
            },
            Some(node) => {
                let a = node.data.0;
                let b = node.data.1;
                assert(before.contains(node));
                if first[a].is_none() && second[b].is_none() {
                    proof {
                        lemma_count_add(first@, a as int, b);
                        lemma_count_add(second@, b as int, a);
                    }
                    first.set(a, Some(b));
                    second.set(b, Some(a));
                    matched = matched + 1;
                }
                assert forall|x: Node<(usize, usize)>| #[trigger] heap.entries().to_multiset().contains(x) implies before.contains(x) by {}
                assert forall|u: int, x: Node<(usize, usize)>|
                    0 <= u < n1 && (#[trigger] first@[u]) is Some && #[trigger] heap.entries().to_multiset().contains(x)
                    implies pair_distance(g1, g2, u, first@[u].unwrap() as int) <= x.priority by {
                    assert(before.contains(x));
                    if p1[u] is None {
                        assert(u == a);
                        assert(pair_distance(g1, g2, a as int, b as int) <= i32::MAX);
                        assert(node == pair_node(g1, g2, a as int, b as int));
                    }
                }
                assert forall|v: int, x: Node<(usize, usize)>|
                    0 <= v < n2 && (#[trigger] second@[v]) is Some && #[trigger] heap.entries().to_multiset().contains(x)
                    implies pair_distance(g1, g2, second@[v].unwrap() as int, v) <= x.priority by {
                    assert(before.contains(x));
                    if p2[v] is None {
                        assert(v == b);
                        assert(pair_distance(g1, g2, a as int, b as int) <= i32::MAX);
                        assert(node == pair_node(g1, g2, a as int, b as int));
                    }
                }
                assert forall|u: int, v: int|
                    0 <= u < n1 && 0 <= v < n2 implies heap.entries().to_multiset().contains(
                    pair_node(g1, g2, u, v),
                ) || #[trigger] settled(g1, g2, first@, second@, u, v) by {
                    if !settled(g1, g2, p1, p2, u, v) {
                        assert(before.contains(pair_node(g1, g2, u, v)));
                        if pair_node(g1, g2, u, v) != node {
                            assert(heap.entries().to_multiset().count(pair_node(g1, g2, u, v)) == before.count(pair_node(g1, g2, u, v)));
                        }
                    }
                }
            },
        }
    }
    Matching { first, second }
}

/// Every pair of two groups is settled in a greedy matching, so one of the two
/// groups is matched in full.
pub proof fn lemma_matching_exhausts_one_side(
    g1: Seq<(String, (i32, i32))>,
    g2: Seq<(String, (i32, i32))>,
    p1: Seq<Option<usize>>,
    p2: Seq<Option<usize>>,
)
    requires
        greedy_matching(g1, g2, p1, p2),
    ensures
        (forall|i: int| 0 <= i < g1.len() ==> (#[trigger] p1[i]) is Some) || (forall|j: int|
            0 <= j < g2.len() ==> (#[trigger] p2[j]) is Some),
{
    if exists|i: int| 0 <= i < g1.len() && (#[trigger] p1[i]) is None {
        let i = choose|i: int| 0 <= i < g1.len() && (#[trigger] p1[i]) is None;
        assert forall|j: int| 0 <= j < g2.len() implies (#[trigger] p2[j]) is Some by {
            assert(settled(g1, g2, p1, p2, i, j));
        }
    }
}

proof fn lemma_count_all_some(s: Seq<Option<usize>>)
    requires
        forall|i: int| 0 <= i < s.len() ==> (#[trigger] s[i]) is Some,
    ensures
        count_matched(s) == s.len(),
    decreases s.len(),
{
    if s.len() > 0 {
        assert forall|i: int| 0 <= i < s.len() - 1 implies (#[trigger] s.drop_last()[i]) is Some by {
            assert(s.drop_last()[i] == s[i]);
        }
        lemma_count_all_some(s.drop_last());
    }
}

/// Both sides of a one-to-one matching count the same number of pairs.
proof fn lemma_count_both_sides(p1: Seq<Option<usize>>, p2: Seq<Option<usize>>, n1: int, n2: int)
    requires
        consistent(p1, p2, n1, n2),
    ensures
        count_matched(p1) == count_matched(p2),
    decreases n1,
{
    if n1 == 0 {
        assert forall|j: int| 0 <= j < n2 implies (#[trigger] p2[j]) is None by {
            if p2[j] is Some {
                assert(p2[j].unwrap() < n1);
            }
        }
        lemma_count_all_none(p2);
        return;
    }
    let q1 = p1.drop_last();
    let last = n1 - 1;
    if p1[last] is None {
        assert forall|j: int| 0 <= j < n2 && (#[trigger] p2[j]) is Some implies p2[j].unwrap() < n1 - 1 by {
            if p2[j].unwrap() == last {
                assert(p1[last] is Some);
            }
        }
        assert(consistent(q1, p2, n1 - 1, n2));
        lemma_count_both_sides(q1, p2, n1 - 1, n2);
    } else {
        let j = p1[last].unwrap() as int;
        let q2 = p2.update(j, None);
        assert forall|b: int| 0 <= b < n2 && (#[trigger] q2[b]) is Some implies q2[b].unwrap() < n1 - 1
            && q1[q2[b].unwrap() as int] is Some && q1[q2[b].unwrap() as int].unwrap() == b by {
            assert(b != j);
            assert(q2[b] == p2[b]);
            if p2[b].unwrap() == last {
                assert(p1[last].unwrap() == b);
            }
        }
        assert forall|a: int| 0 <= a < n1 - 1 && (#[trigger] q1[a]) is Some implies q1[a].unwrap() < n2
            && q2[q1[a].unwrap() as int] is Some && q2[q1[a].unwrap() as int].unwrap() == a by {
            assert(q1[a] == p1[a]);
            if p1[a].unwrap() == j {
                assert(p2[j].unwrap() == last);
            }
        }
        assert(consistent(q1, q2, n1 - 1, n2));
        lemma_count_both_sides(q1, q2, n1 - 1, n2);
        lemma_count_add(q2, j, p2[j].unwrap());
        assert(q2.update(j, Some(p2[j].unwrap())) =~= p2);
    }
}

/// A greedy matching pairs off as many members as the smaller group has, and
/// both sides count the same number of pairs.
pub proof fn lemma_matching_size(
    g1: Seq<(String, (i32, i32))>,
    g2: Seq<(String, (i32, i32))>,
    p1: Seq<Option<usize>>,
    p2: Seq<Option<usize>>,
)
    requires
        greedy_matching(g1, g2, p1, p2),
    ensures
        count_matched(p1) == count_matched(p2),
        count_matched(p1) == if g1.len() <= g2.len() {
            g1.len()
        } else {
            g2.len()
        },
{
    lemma_count_both_sides(p1, p2, g1.len() as int, g2.len() as int);
    lemma_count_le(p1);
    lemma_count_le(p2);
    lemma_matching_exhausts_one_side(g1, g2, p1, p2);
    if forall|i: int| 0 <= i < g1.len() ==> (#[trigger] p1[i]) is Some {
        lemma_count_all_some(p1);
    } else {
        lemma_count_all_some(p2);
    }
}

/// A greedy matching is one-to-one: no member of either group is the partner
/// of two members of the other.
pub proof fn lemma_matching_one_to_one(
    g1: Seq<(String, (i32, i32))>,
    g2: Seq<(String, (i32, i32))>,
    p1: Seq<Option<usize>>,
    p2: Seq<Option<usize>>,
)
    requires
        greedy_matching(g1, g2, p1, p2),
    ensures
        forall|a: int, b: int|
            0 <= a < b < g1.len() && (#[trigger] p1[a]) is Some && (#[trigger] p1[b]) is Some
                ==> p1[a] != p1[b],
        forall|a: int, b: int|
            0 <= a < b < g2.len() && (#[trigger] p2[a]) is Some && (#[trigger] p2[b]) is Some
                ==> p2[a] != p2[b],
{
    assert forall|a: int, b: int|
        0 <= a < b < g1.len() && (#[trigger] p1[a]) is Some && (#[trigger] p1[b]) is Some
            implies p1[a] != p1[b] by {

    }
    assert forall|a: int, b: int|
        0 <= a < b < g2.len() && (#[trigger] p2[a]) is Some && (#[trigger] p2[b]) is Some
            implies p2[a] != p2[b] by {

    }
}

/// The single closest pair of the two groups is always matched.
pub proof fn lemma_closest_pair_matched(
    g1: Seq<(String, (i32, i32))>,
    g2: Seq<(String, (i32, i32))>,
    p1: Seq<Option<usize>>,
    p2: Seq<Option<usize>>,
    a: int,
    b: int,
)
    requires
        greedy_matching(g1, g2, p1, p2),
        0 <= a < g1.len(),
        0 <= b < g2.len(),
        forall|i: int, j: int|
            0 <= i < g1.len() && 0 <= j < g2.len() && (i != a || j != b) ==> pair_distance(g1, g2, a, b)
                < #[trigger] pair_distance(g1, g2, i, j),
    ensures
        p1[a] is Some && p1[a].unwrap() == b,
        p2[b] is Some && p2[b].unwrap() == a,
{
    assert(settled(g1, g2, p1, p2, a, b));
}

/// Why a lookup gave no partner.
#[derive(Debug, PartialEq, Eq, Structural)]
pub enum LocateError {
    /// The name is no member of the first group, or that member has no partner.
    NotFound,
}

/// The answer for member `j` of the second group: its name and coordinate.
pub open spec fn answer(g2: Seq<(String, (i32, i32))>, j: int) -> (String, i32, i32) {
    (g2[j].0, g2[j].1.0, g2[j].1.1)
}

/// Member `k` of the first group is named `q` and has a partner.
pub open spec fn matched_under(g1: Seq<(String, (i32, i32))>, p1: Seq<Option<usize>>, q: Seq<char>, k: int) -> bool {
    0 <= k < g1.len() && g1[k].0@ == q && p1[k] is Some
}

/// `r` is the lookup of the name `q` in the matching `p1`: the partner of the
/// member named `q` when there is one, else `NotFound`.
pub open spec fn located(
    g1: Seq<(String, (i32, i32))>,
    g2: Seq<(String, (i32, i32))>,
    p1: Seq<Option<usize>>,
    q: Seq<char>,
    r: Result<(String, i32, i32), LocateError>,
) -> bool {
    &&& (r is Ok <==> exists|k: int| #[trigger] matched_under(g1, p1, q, k))
    &&& (r is Err ==> r == Err::<(String, i32, i32), LocateError>(LocateError::NotFound))
    &&& forall|k: int| #[trigger] matched_under(g1, p1, q, k) ==> r == Ok::<(String, i32, i32), LocateError>(answer(g2, p1[k].unwrap() as int))
}

/// Looks up the partner of the member of `group1` named `specific_element`.
pub fn find_match(group1: &Group, group2: &Group, matching: &Matching, specific_element: &str) -> (r: Result<(String, i32, i32), LocateError>)
    requires
        names_unique(group1@),
        matching.first@.len() == group1@.len(),
        forall|i: int| 0 <= i < group1@.len() && (#[trigger] matching.first@[i]) is Some ==> matching.first@[i].unwrap() < group2@.len(),
    ensures
        located(group1@, group2@, matching.first@, specific_element@, r),
{
    let target = String::from_str(specific_element);
    let mut k: usize = 0;
    while k < group1.len()
        invariant
            k <= group1@.len(),
            target@ == specific_element@,
            names_unique(group1@),
            matching.first@.len() == group1@.len(),
            forall|i: int| 0 <= i < group1@.len() && (#[trigger] matching.first@[i]) is Some ==> matching.first@[i].unwrap() < group2@.len(),
            forall|i: int| 0 <= i < k ==> group1@[i].0@ != target@,
        decreases group1@.len() - k,
    {
        if group1[k].0 == target {
            match matching.first[k] {
                Some(j) => {
                    let name = group2[j].0.clone();
                    let r = Ok((name, group2[j].1.0, group2[j].1.1));
                    assert(matched_under(group1@, matching.first@, specific_element@, k as int));
                    return r;
                },
                None => {
                    assert forall|i: int| !#[trigger] matched_under(group1@, matching.first@, specific_element@, i) by {
                        if k < i < group1@.len() {
                            assert(group1@[k as int].0@ != group1@[i].0@);
                        }
                    }
                    return Err(LocateError::NotFound);
                },
            }
        }
        k = k + 1;
    }
    Err(LocateError::NotFound)
}

/// Matches `group1` with `group2` greedily by distance and returns the partner
/// of the member of `group1` named `specific_element`: its name and coordinate.
pub fn target_locator(group1: &Group, group2: &Group, specific_element: &str) -> (r: Result<(String, i32, i32), LocateError>)
    requires
        names_unique(group1@),
        distances_fit(group1@, group2@),
    ensures
        exists|p1: Seq<Option<usize>>, p2: Seq<Option<usize>>|
            greedy_matching(group1@, group2@, p1, p2) && located(group1@, group2@, p1, specific_element@, r),
{
    let matching = greedy_match(group1, group2);
    let r = find_match(group1, group2, &matching, specific_element);
    assert(greedy_matching(group1@, group2@, matching.first@, matching.second@));
    r
}

} // verus!
