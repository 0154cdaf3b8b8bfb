use vstd::prelude::*;

verus! {

broadcast use vstd::seq_lib::group_to_multiset_ensures;

/// An entry of a priority queue: a priority (lower comes first) and a payload
/// that is carried along and never compared.
pub struct Node<T> {
    pub priority: i32,
    pub data: T,
}

/// Index of the parent of slot `i` in the array form of a binary tree.
pub open spec fn parent(i: int) -> int {
    (i - 1) / 2
}

/// The binary min-heap property: no entry has a lower priority than its parent.
pub open spec fn heap_ordered<T>(s: Seq<Node<T>>) -> bool {
    forall|i: int| 0 < i < s.len() ==> #[trigger] s[parent(i)].priority <= s[i].priority
}

/// In a heap-ordered array the root has the lowest priority.
pub proof fn lemma_root_is_min<T>(s: Seq<Node<T>>, i: int)
    requires
        heap_ordered(s),
        0 <= i < s.len(),
    ensures
        s[0].priority <= s[i].priority,
    decreases i,
{
    if i > 0 {
        lemma_root_is_min(s, parent(i));
    }
}

/// Whatever a heap-ordered array holds has at least the priority of its root.
pub proof fn lemma_root_below_contents<T>(s: Seq<Node<T>>)
    requires
        heap_ordered(s),
        s.len() > 0,
    ensures
        forall|y: Node<T>| s.to_multiset().contains(y) ==> s[0].priority <= y.priority,
{
    assert forall|y: Node<T>| s.to_multiset().contains(y) implies s[0].priority <= y.priority by {
        assert(s.contains(y));
        let i = choose|i: int| 0 <= i < s.len() && s[i] == y;
        lemma_root_is_min(s, i);
    }
}

/// Dequeuing twice yields non-decreasing priorities: once the root of a
/// heap-ordered array is removed, the new root is no lower than the old one.
pub proof fn lemma_dequeue_order<T>(before: Seq<Node<T>>, after: Seq<Node<T>>)
    requires
        heap_ordered(before),
        heap_ordered(after),
        before.len() > 0,
        after.len() > 0,
        after.to_multiset() == before.to_multiset().remove(before[0]),
    ensures
        before[0].priority <= after[0].priority,
{
    assert(after.to_multiset().contains(after[0]));
    assert(before.to_multiset().contains(after[0]));
    lemma_root_below_contents(before);
}

/// Exchanging two slots keeps what the array holds.
proof fn lemma_swap_multiset<T>(s: Seq<Node<T>>, i: int, j: int)
    requires
        0 <= i < s.len(),
        0 <= j < s.len(),
    ensures
        s.update(i, s[j]).update(j, s[i]).to_multiset() =~= s.to_multiset(),
{
    let t = s.update(i, s[j]);
    assert(t[j] == s[j]);
}

/// Moving the last slot onto the root and dropping the last slot removes the root.
proof fn lemma_take_root_multiset<T>(s: Seq<Node<T>>)
    requires
        s.len() > 0,
    ensures
        s.update(0, s.last()).drop_last().to_multiset() =~= s.to_multiset().remove(s[0]),
{
    let t = s.update(0, s.last());
    assert(t.drop_last() =~= t.remove(t.len() - 1));
    assert(t[t.len() - 1] == s.last());
}

/// Relies on `<[T]>::swap`: the two slots exchange their values, the others stay.
#[verifier::external_body]
fn swap_slots<T>(v: &mut Vec<T>, i: usize, j: usize)
    requires
        i < old(v).len(),
        j < old(v).len(),
    ensures
        final(v)@ == old(v)@.update(i as int, old(v)@[j as int]).update(j as int, old(v)@[i as int]),
{
    v.swap(i, j)
}

/// A queue that hands out its entries lowest priority first.
pub trait PriorityQueue<T>: Sized {
    /// The entries in storage order.
    spec fn entries(&self) -> Seq<Node<T>>;

    /// Adds `ele`; the entries stay heap-ordered.
    fn enqueue(&mut self, ele: Node<T>)
        requires
            heap_ordered(old(self).entries()),
        ensures
            heap_ordered(final(self).entries()),
            final(self).entries().len() == old(self).entries().len() + 1,
            final(self).entries().to_multiset() == old(self).entries().to_multiset().insert(ele),
    ;

    /// Removes and returns an entry of lowest priority, or `None` when empty.
    fn dequeue(&mut self) -> (r: Option<Node<T>>)
        requires
            heap_ordered(old(self).entries()),
        ensures
            heap_ordered(final(self).entries()),
            old(self).entries().len() == 0 ==> r is None && final(self).entries() == old(
                self,
            ).entries(),
            old(self).entries().len() > 0 ==> {
                &&& r == Some(old(self).entries()[0])
                &&& final(self).entries().len() == old(self).entries().len() - 1
                &&& final(self).entries().to_multiset() == old(
                    self,
                ).entries().to_multiset().remove(old(self).entries()[0])
                &&& forall|y: Node<T>| #[trigger]
                    old(self).entries().to_multiset().contains(y)
                        ==> old(self).entries()[0].priority <= y.priority
            },
    ;

    /// The entry that `dequeue` would return, or `None` when empty.
    fn peek(&self) -> (r: Option<&Node<T>>)
        ensures
            self.entries().len() == 0 ==> r is None,
            self.entries().len() > 0 ==> r == Some(&self.entries()[0]),
    ;
}

/// A binary min-heap stored in a vector: the children of slot `i` sit at
/// `2i + 1` and `2i + 2`.
pub struct MinHeap<T> {
    items: Vec<Node<T>>,
}

impl<T> MinHeap<T> {
    /// An empty heap.
    pub fn new() -> (h: Self)
        ensures
            h.entries() == Seq::<Node<T>>::empty(),
    {
        MinHeap { items: Vec::new() }
    }

    /// Number of entries.
    pub fn len(&self) -> (n: usize)
        ensures
            n == self.entries().len(),
    {
        self.items.len()
    }

    /// Whether the heap holds no entry.
    pub fn is_empty(&self) -> (b: bool)
        ensures
            b == (self.entries().len() == 0),
    {
        self.items.len() == 0
    }
}

impl<T> PriorityQueue<T> for MinHeap<T> {
    closed spec fn entries(&self) -> Seq<Node<T>> {
        self.items@
    }

    fn enqueue(&mut self, ele: Node<T>) {
        self.items.push(ele);
        let mut current: usize = self.items.len() - 1;
        while current > 0 && self.items[current].priority < self.items[(current - 1) / 2].priority
            invariant
                current < self.items@.len(),
                self.items@.len() == old(self).items@.len() + 1,
                self.items@.to_multiset() == old(self).items@.to_multiset().insert(ele),
                forall|i: int|
                    0 < i < self.items@.len() && i != current ==> #[trigger] self.items@[parent(
                        i,
                    )].priority <= self.items@[i].priority,
                current > 0 ==> forall|c: int|
                    0 < c < self.items@.len() && parent(c) == current ==> self.items@[parent(
                        current as int,
                    )].priority <= #[trigger] self.items@[c].priority,
            decreases current,
        {
            let p: usize = (current - 1) / 2;
            proof {
                lemma_swap_multiset(self.items@, current as int, p as int);
            }
            swap_slots(&mut self.items, current, p);
            current = p;
        }
    }

    fn dequeue(&mut self) -> (r: Option<Node<T>>) {
        if self.items.len() == 0 {
            return None;
        }
        proof {
            lemma_root_below_contents(self.items@);
            lemma_take_root_multiset(self.items@);
        }
        let top = self.items.swap_remove(0);
        let mut current: usize = 0;
        while current < self.items.len() / 2
            invariant
                current < self.items@.len() || self.items@.len() == 0,
                self.items@.len() == old(self).items@.len() - 1,
                self.items@.to_multiset() == old(self).items@.to_multiset().remove(
                    old(self).items@[0],
                ),
                forall|i: int|
                    0 < i < self.items@.len() && parent(i) != current ==> #[trigger] self.items@[parent(
                        i,
                    )].priority <= self.items@[i].priority,
                current > 0 ==> forall|c: int|
                    0 < c < self.items@.len() && parent(c) == current ==> self.items@[parent(
                        current as int,
                    )].priority <= #[trigger] self.items@[c].priority,
            ensures
                heap_ordered(self.items@),
                self.items@.to_multiset() == old(self).items@.to_multiset().remove(
                    old(self).items@[0],
                ),
            decreases self.items@.len() - current,
        {
            let mut child: usize = 2 * current + 1;
            if child + 1 < self.items.len() && self.items[child + 1].priority
                < self.items[child].priority {
                child = child + 1;
            }
            if self.items[current].priority <= self.items[child].priority {
                assert(heap_ordered(self.items@)) by {
                    assert forall|i: int| 0 < i < self.items@.len() implies #[trigger] self.items@[parent(
                        i,
                    )].priority <= self.items@[i].priority by {
                        if parent(i) == current {
                            assert(i == 2 * current + 1 || i == 2 * current + 2);
                        }
                    }
                }
                break;
            }
            proof {
                lemma_swap_multiset(self.items@, current as int, child as int);
            }
            swap_slots(&mut self.items, current, child);
            current = child;
        }
        Some(top)
    }

    fn peek(&self) -> (r: Option<&Node<T>>) {
        if self.items.len() == 0 {
            None
        } else {
            Some(&self.items[0])
        }
    }
}

} // verus!
