use graph_distances::min_queue::MinQueue;

#[test]
fn queue_hands_out_in_ascending_order() {
    let mut queue = MinQueue::new();
    let costs: Vec<u64> = vec![5, 3, 9, 1, 7, 3, 8, 0, 6, 2, 4];
    for (vertex, cost) in costs.iter().enumerate() {
        queue.push(*cost, vertex);
    }
    assert_eq!(queue.len(), 11);
    let mut out: Vec<u64> = Vec::new();
    while let Some((cost, vertex)) = queue.pop_min() {
        assert_eq!(costs[vertex], cost);
        out.push(cost);
    }
    assert_eq!(out, vec![0, 1, 2, 3, 3, 4, 5, 6, 7, 8, 9]);
    assert!(queue.is_empty());
}

#[test]
fn empty_queue_hands_out_nothing() {
    let mut queue = MinQueue::new();
    assert!(queue.is_empty());
    assert_eq!(queue.len(), 0);
    assert_eq!(queue.pop_min(), None);
    queue.push(4, 2);
    assert!(!queue.is_empty());
    assert_eq!(queue.pop_min(), Some((4, 2)));
    assert_eq!(queue.pop_min(), None);
}

#[test]
fn queue_keeps_equal_entries() {
    let mut queue = MinQueue::new();
    queue.push(2, 1);
    queue.push(2, 1);
    queue.push(1, 1);
    assert_eq!(queue.len(), 3);
    assert_eq!(queue.pop_min(), Some((1, 1)));
    assert_eq!(queue.pop_min(), Some((2, 1)));
    assert_eq!(queue.pop_min(), Some((2, 1)));
    assert_eq!(queue.pop_min(), None);
}

#[test]
fn queue_interleaves_pushes_and_pops() {
    let mut queue = MinQueue::new();
    queue.push(10, 0);
    queue.push(20, 1);
    assert_eq!(queue.pop_min(), Some((10, 0)));
    queue.push(5, 2);
    queue.push(30, 3);
    queue.push(15, 4);
    assert_eq!(queue.pop_min(), Some((5, 2)));
    assert_eq!(queue.pop_min(), Some((15, 4)));
    assert_eq!(queue.pop_min(), Some((20, 1)));
    assert_eq!(queue.pop_min(), Some((30, 3)));
    assert!(queue.is_empty());
}
