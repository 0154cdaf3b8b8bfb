use heap_locator::heap::{MinHeap, Node, PriorityQueue};

fn node(priority: i32, data: &str) -> Node<String> {
    Node { priority, data: data.to_string() }
}

#[test]
fn empty_queue_gives_nothing() {
    let mut h: MinHeap<String> = MinHeap::new();
    assert!(h.peek().is_none());
    assert!(h.dequeue().is_none());
    assert!(h.is_empty());
    assert_eq!(h.len(), 0);
}

#[test]
fn peek_follows_minimum_after_each_enqueue() {
    let mut h: MinHeap<String> = MinHeap::new();
    let values = [7, 3, 9, 3, -2, 5, 0, 12, -2, 4];
    let mut lowest = i32::MAX;
    for (k, v) in values.iter().enumerate() {
        h.enqueue(node(*v, "x"));
        lowest = lowest.min(*v);
        assert_eq!(h.peek().unwrap().priority, lowest);
        assert_eq!(h.len(), k + 1);
    }
}

#[test]
fn dequeue_yields_non_decreasing_order() {
    let mut h: MinHeap<usize> = MinHeap::new();
    let values = [15, 4, 8, 23, 4, 16, 42, 1, 0, -7, 8, 30];
    for (k, v) in values.iter().enumerate() {
        h.enqueue(Node { priority: *v, data: k });
    }
    let mut out = Vec::new();
    while let Some(n) = h.dequeue() {
        assert_eq!(values[n.data], n.priority);
        out.push(n.priority);
    }
    let mut sorted = values.to_vec();
    sorted.sort();
    assert_eq!(out, sorted);
    assert!(h.is_empty());
}

#[test]
fn peek_is_stable() {
    let mut h: MinHeap<String> = MinHeap::new();
    h.enqueue(node(5, "five"));
    h.enqueue(node(2, "two"));
    h.enqueue(node(8, "eight"));
    for _ in 0..5 {
        let top = h.peek().unwrap();
        assert_eq!(top.priority, 2);
        assert_eq!(top.data, "two");
        assert_eq!(h.len(), 3);
    }
    let d = h.dequeue().unwrap();
    assert_eq!(d.data, "two");
    assert_eq!(h.peek().unwrap().data, "five");
}

#[test]
fn payload_travels_with_priority() {
    let mut h: MinHeap<String> = MinHeap::new();
    h.enqueue(node(3, "c"));
    h.enqueue(node(1, "a"));
    h.enqueue(node(2, "b"));
    assert_eq!(h.dequeue().unwrap().data, "a");
    assert_eq!(h.dequeue().unwrap().data, "b");
    assert_eq!(h.dequeue().unwrap().data, "c");
    assert!(h.dequeue().is_none());
}
