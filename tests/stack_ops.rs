use corrode::error::StackError;
use corrode::stack::Stack;

#[test]
fn test_new_empty_stack() {
    let stack = Stack::<u8>::new();
    assert_eq!(stack.state, []);
}

#[test]
fn test_new_stack_with_values() {
    let stack = Stack::from(&[1, 5, 78]);
    assert_eq!(stack.state, [1, 5, 78]);
}

#[test]
fn test_push() {
    let mut stack = Stack::from(&[1]);
    stack.push(5).unwrap();
    assert_eq!(stack.state, [1, 5]);
}

#[test]
fn test_pop() {
    let mut stack = Stack::from(&[1, 5]);
    let popped = stack.pop().unwrap();
    assert_eq!(popped, 5);
    assert_eq!(stack.state, [1]);
}

#[test]
fn test_peek() {
    let stack = Stack::from(&[1, 5]);
    let popped = stack.peek().unwrap();
    assert_eq!(popped, &5);
    assert_eq!(stack.state, [1, 5]);
}

#[test]
fn pop_on_empty_reports_position_and_keeps_stack_empty() {
    let mut stack = Stack::<i64>::new();
    stack.idx = 7;
    stack.op = 0x22;
    let r = stack.pop();
    assert!(matches!(r, Err(StackError::EmptyStack { idx: 7, op: 0x22 })));
    assert!(stack.state.is_empty());
    assert_eq!(stack.idx, 7);
}

#[test]
fn peek_on_empty_is_none() {
    let stack = Stack::<i64>::new();
    assert!(stack.peek().is_none());
}

#[test]
fn default_stack_is_empty() {
    let stack: Stack<i32> = Stack::default();
    assert!(stack.state.is_empty());
    assert_eq!(stack.idx, 0);
    assert_eq!(stack.op, 0);
}

#[test]
fn step_moves_unknown_opcode_position_only() {
    let e = StackError::UnknownOp { idx: 3, byte: 0x99 };
    assert!(matches!(e.step(), StackError::UnknownOp { idx: 4, byte: 0x99 }));
    let e = StackError::EmptyStack { idx: 3, op: 0x01 };
    assert!(matches!(e.step(), StackError::EmptyStack { idx: 3, op: 0x01 }));
}
