use corrode::error::StackError;
use corrode::machine::{Emit, Outcome};
use corrode::stack::Stack;

#[test]
fn add() {
    let code: Vec<u8> = vec![0x20, 0x05, 0x20, 0x06, 0x01, 0x12];
    let mut stack = Stack::<i64>::new();
    let retval = stack.execute(&code).unwrap();
    assert_eq!(retval, 11);
    assert_eq!(stack.state, [11]);
}

#[test]
fn sub() {
    let code: Vec<u8> = vec![0x20, 0x05, 0x20, 0x06, 0x02, 0x12];
    let mut stack = Stack::<i64>::new();
    let retval = stack.execute(&code).unwrap();
    assert_eq!(retval, -1);
    assert_eq!(stack.state, [-1]);
}

#[test]
fn mul() {
    let code: Vec<u8> = vec![0x20, 0x05, 0x20, 0x06, 0x03, 0x12];
    let mut stack = Stack::<i64>::new();
    let retval = stack.execute(&code).unwrap();
    assert_eq!(retval, 30);
    assert_eq!(stack.state, [30]);
}

#[test]
fn div() {
    let code: Vec<u8> = vec![0x20, 0x06, 0x20, 0x03, 0x04, 0x12];
    let mut stack = Stack::<i64>::new();
    let retval = stack.execute(&code).unwrap();
    assert_eq!(retval, 2);
    assert_eq!(stack.state, [2]);
}

#[test]
fn modulus() {
    let code: Vec<u8> = vec![0x20, 0x05, 0x20, 0x03, 0x05, 0x12];
    let mut stack = Stack::<i64>::new();
    let retval = stack.execute(&code).unwrap();
    assert_eq!(retval, 2);
    assert_eq!(stack.state, [2]);
}

#[test]
fn jmp() {
    let code: Vec<u8> = vec![0x20, 0x05, 0x30, 0x06, 0x20, 0x03, 0x12];
    let mut stack = Stack::<i64>::new();
    let retval = stack.execute(&code).unwrap();
    assert_eq!(retval, 5);
    assert_eq!(stack.state, [5]);
}

#[test]
fn jnz() {
    let code: Vec<u8> = vec![0x20, 0x05, 0x20, 0x01, 0x02, 0x31, 0x02, 0x20, 0x03, 0x12];
    let mut stack = Stack::<i64>::new();
    let retval = stack.execute(&code).unwrap();
    assert_eq!(retval, 3);
    assert_eq!(stack.state, [0, 3]);
}

#[test]
fn jmp_on_empty_stack_still_jumps() {
    let code: Vec<u8> = vec![0x30, 0x04, 0x20, 0x09, 0x20, 0x02, 0x12];
    let mut stack = Stack::<i64>::new();
    assert_eq!(stack.execute(&code).unwrap(), 2);
    assert_eq!(stack.state, [2]);
}

#[test]
fn jnz_jumps_on_non_zero_top_and_keeps_it() {
    let code: Vec<u8> = vec![0x20, 0x07, 0x31, 0x05, 0x00, 0x12];
    let mut stack = Stack::<i64>::new();
    assert_eq!(stack.execute(&code).unwrap(), 7);
    assert_eq!(stack.state, [7]);
}

#[test]
fn unknown_opcode_at_start() {
    let code: Vec<u8> = vec![0x99];
    let mut stack = Stack::<i64>::new();
    let r = stack.execute(&code);
    assert!(matches!(r, Err(StackError::UnknownOp { idx: 0, byte: 0x99 })));
}

#[test]
fn exit_returns_255_whatever_the_stack() {
    let code: Vec<u8> = vec![0x20, 0x04, 0xFF, 0x12];
    let mut stack = Stack::<i64>::new();
    assert_eq!(stack.execute(&code).unwrap(), 255);
    assert_eq!(stack.state, [4]);
}

#[test]
fn end_of_program_returns_zero() {
    let code: Vec<u8> = vec![0x20, 0x04, 0x00];
    let mut stack = Stack::<i64>::new();
    assert_eq!(stack.execute(&code).unwrap(), 0);
    assert_eq!(stack.state, [4]);
    let mut stack = Stack::<i64>::new();
    assert_eq!(stack.execute(&[]).unwrap(), 0);
}

#[test]
fn push_without_operand_ends_the_program() {
    let code: Vec<u8> = vec![0x20];
    let mut stack = Stack::<i64>::new();
    assert_eq!(stack.execute(&code).unwrap(), 0);
    assert!(stack.state.is_empty());
    assert_eq!(stack.idx, 1);
}

#[test]
fn ret_on_empty_stack_underflows() {
    let code: Vec<u8> = vec![0x00, 0x12];
    let mut stack = Stack::<i64>::new();
    let r = stack.execute(&code);
    assert!(matches!(r, Err(StackError::EmptyStack { idx: 1, op: 0x12 })));
}

#[test]
fn add_with_one_value_underflows_and_consumes_it() {
    let code: Vec<u8> = vec![0x20, 0x01, 0x01];
    let mut stack = Stack::<i64>::new();
    let r = stack.execute(&code);
    assert!(matches!(r, Err(StackError::EmptyStack { idx: 2, op: 0x01 })));
    assert!(stack.state.is_empty());
}

#[test]
fn swap_dup_and_pop() {
    let code: Vec<u8> = vec![0x20, 0x01, 0x20, 0x02, 0x21, 0x23, 0x22, 0x22, 0x22, 0x22, 0x12];
    let mut stack = Stack::<i64>::new();
    let r = stack.execute(&code);
    assert!(matches!(r, Err(StackError::EmptyStack { idx: 10, op: 0x12 })));
    let code: Vec<u8> = vec![0x20, 0x01, 0x20, 0x02, 0x21, 0x23, 0x12];
    let mut stack = Stack::<i64>::new();
    assert_eq!(stack.execute(&code).unwrap(), 1);
    assert_eq!(stack.state, [2, 1, 1]);
}

#[test]
fn swap_and_dup_underflow_report_their_own_offset() {
    let code: Vec<u8> = vec![0x00, 0x21];
    let mut stack = Stack::<i64>::new();
    let r = stack.execute(&code);
    assert!(matches!(r, Err(StackError::EmptyStack { idx: 1, op: 0x21 })));
    assert_eq!(stack.idx, 1);
    let code: Vec<u8> = vec![0x23];
    let mut stack = Stack::<i64>::new();
    let r = stack.execute(&code);
    assert!(matches!(r, Err(StackError::EmptyStack { idx: 0, op: 0x23 })));
    let mut stack = Stack::from(&[4i64]);
    let r = stack.execute(&[0x21]);
    assert!(matches!(r, Err(StackError::EmptyStack { idx: 0, op: 0x21 })));
    assert!(stack.state.is_empty());
}

#[test]
fn pchar_consumes_only_the_terminator() {
    let code: Vec<u8> = vec![0x11, 0x12];
    let mut stack = Stack::from(&[9i64, 0, 104, 105]);
    let mut out: Vec<Emit> = Vec::new();
    let o = stack.run_machine(&code, 100, &mut out);
    assert!(matches!(o, Outcome::Returned(105)));
    assert_eq!(stack.state, [9, 104, 105]);
    assert_eq!(out.len(), 1);
    assert!(matches!(&out[0], Emit::Text(t) if t == b"hi"));
}

#[test]
fn pchar_without_terminator_keeps_the_bytes() {
    let code: Vec<u8> = vec![0x11];
    let mut stack = Stack::from(&[104i64, 105]);
    let mut out: Vec<Emit> = Vec::new();
    let o = stack.run_machine(&code, 100, &mut out);
    assert!(matches!(o, Outcome::Returned(0)));
    assert_eq!(stack.state, [104, 105]);
    let mut stack = Stack::from(&[104i64, 1000, 105]);
    let mut out: Vec<Emit> = Vec::new();
    stack.run_machine(&code, 100, &mut out);
    assert_eq!(stack.state, [104, 1000, 105]);
    assert!(matches!(&out[0], Emit::Text(t) if t == b"hi"));
}

#[test]
fn pchar_gives_back_values_that_are_not_bytes() {
    let mut stack = Stack::from(&[0i64, 300]);
    let r = stack.execute(&[0x11]);
    assert_eq!(r.unwrap(), 0);
    assert_eq!(stack.state, [300]);
}

#[test]
fn ret_alone_underflows_at_offset_zero() {
    let mut stack = Stack::<i64>::new();
    let r = stack.execute(&[0x12]);
    assert!(matches!(r, Err(StackError::EmptyStack { idx: 0, op: 0x12 })));
}

#[test]
fn jump_past_the_end_returns_zero() {
    let mut stack = Stack::<i64>::new();
    assert_eq!(stack.execute(&[0x30, 200, 0xFF]).unwrap(), 0);
    assert_eq!(stack.idx, 200);
}

#[test]
fn print_emits_top_value() {
    let code: Vec<u8> = vec![0x20, 0x2A, 0x10, 0x12];
    let mut stack = Stack::<i64>::new();
    let mut out: Vec<Emit> = Vec::new();
    let o = stack.run_machine(&code, 100, &mut out);
    assert!(matches!(o, Outcome::Returned(42)));
    assert!(matches!(out[..], [Emit::Value(42)]));
}

#[test]
fn division_by_zero_is_a_fault() {
    let code: Vec<u8> = vec![0x20, 0x01, 0x20, 0x00, 0x04, 0x12];
    let mut stack = Stack::<i64>::new();
    let mut out: Vec<Emit> = Vec::new();
    let o = stack.run_machine(&code, 100, &mut out);
    assert!(matches!(o, Outcome::Fault { idx: 4, op: 0x04 }));
}

#[test]
fn endless_loop_hits_the_step_limit() {
    let code: Vec<u8> = vec![0x30, 0x00];
    let mut stack = Stack::<i64>::new();
    let mut out: Vec<Emit> = Vec::new();
    let o = stack.run_machine(&code, 50, &mut out);
    assert!(matches!(o, Outcome::StepLimit));
}
