use msqueue::stack::{Stack, Stack2};

#[test]
fn stack_last_in_first_out() {
    let mut stack = Stack::new();

    stack.push(1);
    assert_eq!(Some(1), stack.pop());
    assert_eq!(None, stack.pop());

    stack.push(2);
    stack.push(3);
    assert_eq!(Some(3), stack.pop());
    assert_eq!(Some(2), stack.pop());
    assert_eq!(None, stack.pop());
}

#[test]
fn stack2_peek() {
    let mut stack = Stack2::new();

    stack.push(1);
    stack.push(2);
    stack.push(3);

    assert_eq!(Some(&3), stack.peek());

    assert_eq!(Some(&1), stack.peek_nth(2));
    assert_eq!(Some(&2), stack.peek_nth(1));
    assert_eq!(Some(&3), stack.peek_nth(0));
    assert_eq!(None, stack.peek_nth(3));
}

#[test]
fn stack2_pop_order() {
    let mut stack = Stack2::new();
    stack.push("a");
    stack.push("b");
    assert_eq!(Some("b"), stack.pop());
    assert_eq!(Some("a"), stack.pop());
    assert_eq!(None, stack.pop());
}

#[test]
fn stack2_peek_empty() {
    let stack: Stack2<u8> = Stack2::new();
    assert_eq!(None, stack.peek());
    assert_eq!(None, stack.peek_nth(0));
}
