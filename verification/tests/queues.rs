use msqueue::msq::Queue;
use msqueue::queue::Queue as OwnedQueue;

#[test]
fn push_try_pop_1() {
    let mut q: Queue<i64> = Queue::new();
    assert!(q.is_empty());

    q.push(37);
    assert!(!q.is_empty());
    assert_eq!(q.try_pop(), Some(37));
    assert!(q.is_empty());
}

#[test]
fn push_try_pop_2() {
    let mut q: Queue<i64> = Queue::new();
    assert!(q.is_empty());

    q.push(37);
    q.push(48);
    assert_eq!(q.try_pop(), Some(37));
    assert!(!q.is_empty());
    assert_eq!(q.try_pop(), Some(48));
    assert!(q.is_empty());
}

#[test]
fn push_try_pop_many_seq() {
    let mut q: Queue<i64> = Queue::new();
    assert!(q.is_empty());

    for i in 0..200 {
        q.push(i)
    }
    assert!(!q.is_empty());

    for i in 0..200 {
        assert_eq!(q.try_pop(), Some(i));
    }

    assert!(q.is_empty());
}

#[test]
fn push_pop_1() {
    let mut q: Queue<i64> = Queue::new();
    assert!(q.is_empty());

    q.push(37);
    assert!(!q.is_empty());
    assert_eq!(q.pop(), 37);
    assert!(q.is_empty());
}

#[test]
fn push_pop_2() {
    let mut q: Queue<i64> = Queue::new();
    q.push(37);
    q.push(48);
    assert_eq!(q.pop(), 37);
    assert_eq!(q.pop(), 48);
}

#[test]
fn push_pop_many_seq() {
    let mut q: Queue<i64> = Queue::new();
    assert!(q.is_empty());

    for i in 0..200 {
        q.push(i)
    }
    assert!(!q.is_empty());

    for i in 0..200 {
        assert_eq!(q.pop(), i);
    }
    assert!(q.is_empty());
}

#[test]
fn is_empty_dont_pop() {
    let mut q: Queue<i64> = Queue::new();
    q.push(20);
    q.push(20);
    assert!(!q.is_empty());
    assert!(!q.is_empty());
    assert!(q.try_pop().is_some());
}

#[test]
fn try_pop_empty_stays_empty() {
    let mut q: Queue<i64> = Queue::new();
    assert_eq!(q.try_pop(), None);
    assert_eq!(q.try_pop(), None);
    assert_eq!(q.try_pop(), None);
    assert!(q.is_empty());
    q.push(5);
    assert_eq!(q.try_pop(), Some(5));
    assert_eq!(q.try_pop(), None);
    assert_eq!(q.try_pop(), None);
}

#[test]
fn long_run_keeps_order() {
    let mut q: Queue<u32> = Queue::new();
    for i in 0..1000 {
        q.push(i);
    }
    for i in 0..1000 {
        assert_eq!(q.pop(), i);
    }
    assert!(q.is_empty());
}

#[test]
fn tagged_streams_keep_their_order() {
    // two producers' sequences, interleaved; each tag's relative order
    // must survive
    let mut q: Queue<(char, u32)> = Queue::new();
    for i in 0..50 {
        q.push(('a', i));
        q.push(('b', i));
    }
    let mut seen_a = Vec::new();
    let mut seen_b = Vec::new();
    while let Some((tag, v)) = q.try_pop() {
        match tag {
            'a' => seen_a.push(v),
            _ => seen_b.push(v),
        }
    }
    let expected: Vec<u32> = (0..50).collect();
    assert_eq!(seen_a, expected);
    assert_eq!(seen_b, expected);
}

#[test]
fn no_value_lost_or_duplicated() {
    let mut q: Queue<u32> = Queue::new();
    let mut pushed = Vec::new();
    for i in 0..100 {
        q.push(i % 7);
        pushed.push(i % 7);
    }
    let mut popped = Vec::new();
    for _ in 0..40 {
        popped.push(q.pop());
    }
    let mut remaining = q.teardown();
    popped.append(&mut remaining);
    popped.sort();
    pushed.sort();
    assert_eq!(popped, pushed);
}

#[test]
fn teardown_hands_every_payload_back_once() {
    let mut q: Queue<String> = Queue::new();
    q.push("one".to_string());
    q.push("two".to_string());
    q.push("three".to_string());
    assert_eq!(q.pop(), "one".to_string());
    let rest = q.teardown();
    assert_eq!(rest, vec!["two".to_string(), "three".to_string()]);
}

#[test]
fn push_pop_should_work() {
    let mut q = OwnedQueue::new();

    q.push("elem1".to_owned());
    q.push("elem2".to_owned());

    assert_eq!(Some("elem1".to_owned()), q.pop());
    assert_eq!(Some("elem2".to_owned()), q.pop());
    assert_eq!(None, q.pop());

    q.push("elem3".to_owned());
    q.push("elem4".to_owned());
    assert_eq!(Some("elem3".to_owned()), q.pop());
    assert_eq!(Some("elem4".to_owned()), q.pop());
    assert_eq!(None, q.pop());
}

#[test]
fn push_pop2_should_work() {
    let mut q = OwnedQueue::new();

    q.push("elem1".to_owned());
    q.push("elem2".to_owned());

    assert_eq!(Some("elem1".to_owned()), q.pop2());
    assert_eq!(Some("elem2".to_owned()), q.pop2());
    assert_eq!(None, q.pop2());

    q.push("elem3".to_owned());
    q.push("elem4".to_owned());
    assert_eq!(Some("elem3".to_owned()), q.pop2());
    assert_eq!(Some("elem4".to_owned()), q.pop2());
    assert_eq!(None, q.pop2());
}
