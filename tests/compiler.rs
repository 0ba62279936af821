use corrode::compile::{
    compile, parse_items, process_labels, tokenize, CompileError, InputParser, Item, Target,
};
use corrode::listing::{disassemble, Line, Role};
use corrode::stack::Stack;

fn address_of(table: &[(Vec<u8>, usize)], name: &str) -> Option<usize> {
    table.iter().find(|(n, _)| n.as_slice() == name.as_bytes()).map(|(_, a)| *a)
}

#[test]
fn label_test() {
    let test_string = "l1: push 1\nl2: push 2\nl3: add\nl4: ret\n";
    let tokens = tokenize(test_string.as_bytes());
    let items = parse_items(&tokens).unwrap();
    let labels = process_labels(&items);
    assert_eq!(address_of(&labels, "l1").unwrap(), 0);
    assert_eq!(address_of(&labels, "l2").unwrap(), 2);
    assert_eq!(address_of(&labels, "l3").unwrap(), 4);
    assert_eq!(address_of(&labels, "l4").unwrap(), 5);
}

#[test]
fn parse_testfile() {
    let retval = compile("push 10\npush 20\nadd\nret\n".as_bytes()).unwrap();
    assert_eq!(retval, [0x20, 0x0a, 0x20, 0x14, 0x01, 0x12, 0xFF]);
}

#[test]
fn run_test() {
    let code = compile("push 10\npush 20\nadd\nret\n".as_bytes()).unwrap();
    let mut stack = Stack::<i64>::new();
    let retval = stack.execute(&code).unwrap();
    assert_eq!(retval, 30);
}

#[test]
fn tokenize_splits_on_whitespace() {
    let t = tokenize(b"  push\t10\r\n\nadd ");
    assert_eq!(t, vec![b"push".to_vec(), b"10".to_vec(), b"add".to_vec()]);
    assert!(tokenize(b" \n ").is_empty());
}

#[test]
fn every_mnemonic_compiles_to_its_opcode() {
    let code = compile(b"nop add sub mul div mod print pchar ret swp pop dup exit").unwrap();
    assert_eq!(
        code,
        [0x00, 0x01, 0x02, 0x03, 0x04, 0x05, 0x10, 0x11, 0x12, 0x21, 0x22, 0x23, 0xFF, 0xFF]
    );
}

#[test]
fn jumps_to_labels_and_addresses() {
    let code = compile(b"jmp end\npush 1\nend: jnz 3\nret").unwrap();
    assert_eq!(code, [0x30, 0x04, 0x20, 0x01, 0x31, 0x03, 0x12, 0xFF]);
}

#[test]
fn label_after_push_uses_byte_offsets() {
    let code = compile(b"push 1\npush 2\nhere: add\njmp here").unwrap();
    assert_eq!(code, [0x20, 0x01, 0x20, 0x02, 0x01, 0x30, 0x04, 0xFF]);
}

#[test]
fn undefined_label_is_a_compile_error() {
    let r = compile(b"push 1\njmp nowhere\nret");
    assert_eq!(r, Err(CompileError::UndefinedLabel { token: 3 }));
}

#[test]
fn syntax_errors_name_the_word() {
    assert_eq!(compile(b"push 1\nfly"), Err(CompileError::Syntax { token: 2 }));
    assert_eq!(compile(b"push 256"), Err(CompileError::Syntax { token: 1 }));
    assert_eq!(compile(b"push x"), Err(CompileError::Syntax { token: 1 }));
    assert_eq!(compile(b"add push"), Err(CompileError::Syntax { token: 1 }));
    assert_eq!(compile(b"jmp 300"), Err(CompileError::Syntax { token: 1 }));
}

#[test]
fn largest_operand_and_empty_source() {
    assert_eq!(compile(b"push 255").unwrap(), [0x20, 0xFF, 0xFF]);
    assert_eq!(compile(b"").unwrap(), [0xFF]);
}

#[test]
fn label_beyond_one_byte_is_rejected() {
    let mut src = String::new();
    for _ in 0..130 {
        src.push_str("push 1\n");
    }
    src.push_str("far: ret\njmp far\n");
    assert_eq!(compile(src.as_bytes()), Err(CompileError::AddressOutOfRange { token: 263 }));
}

#[test]
fn disassemble_marks_operands_and_unknown_bytes() {
    let lines = disassemble(&[0x20, 0x05, 0x99, 0x21, 0x30]);
    assert_eq!(
        lines,
        vec![
            Line { idx: 0, byte: 0x20, role: Role::Instruction },
            Line { idx: 1, byte: 0x05, role: Role::Operand },
            Line { idx: 2, byte: 0x99, role: Role::Unknown },
            Line { idx: 3, byte: 0x21, role: Role::Instruction },
            Line { idx: 4, byte: 0x30, role: Role::Instruction },
            Line { idx: 5, byte: 0x00, role: Role::MissingOperand },
        ]
    );
}

#[test]
fn input_parser_reads_labels_and_instructions() {
    let items = InputParser::parse(b"top: push 3 jnz top").unwrap();
    assert_eq!(items.len(), 3);
    assert!(matches!(&items[0], Item::Label { name, token: 0 } if name == b"top"));
    assert!(matches!(&items[1], Item::Push(3)));
    assert!(matches!(&items[2], Item::Jump(0x31, Target::Label { name, token: 4 }) if name == b"top"));
}

#[test]
fn repeated_label_is_a_compile_error() {
    let r = compile(b"a: nop\na: nop\njmp a");
    assert_eq!(r, Err(CompileError::DuplicateLabel { token: 2 }));
}
