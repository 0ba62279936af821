//! Properties of the machine semantics, stated over `step` and `run`.
use crate::error::StackError;
use crate::machine::{arith, is_opcode, mk, pchar_split, run, step, EmitView, Machine, Outcome};
use crate::compile::{compile_spec, emit_from, item_bytes, label_addr, label_table, parse_from, shifted, table_lookup, words, CompileError, ItemView, TargetView};
use vstd::prelude::*;

verus! {

/// The exact value of arithmetic opcode `op` on two bytes `a` and `b`.
pub open spec fn arith_on_bytes(op: u8, a: u8, b: u8) -> int {
    if op == 0x01 {
        a + b
    } else if op == 0x02 {
        a - b
    } else if op == 0x03 {
        a * b
    } else if op == 0x04 {
        a as int / b as int
    } else {
        a as int % b as int
    }
}

/// `PUSH a; PUSH b; <op>; RET` returns `a <op> b`, with `b` the right-hand
/// operand, whatever the stack held before (division and remainder need a
/// non-zero `b`).
pub proof fn lemma_push_push_arith_ret(a: u8, b: u8, op: u8, s: Seq<i64>, op0: u8)
    requires
        0x01 <= op <= 0x05,
        op == 0x04 || op == 0x05 ==> b != 0,
    ensures
        run(seq![0x20u8, a, 0x20u8, b, op, 0x12u8], mk(0, op0, s), u64::MAX as nat).2
            == Outcome::Returned(arith_on_bytes(op, a, b) as i64),
        run(seq![0x20u8, a, 0x20u8, b, op, 0x12u8], mk(0, op0, s), u64::MAX as nat).0.stack
            == s.push(arith_on_bytes(op, a, b) as i64),
{
    let code = seq![0x20u8, a, 0x20u8, b, op, 0x12u8];
    let f = u64::MAX as nat;
    let m0 = mk(0, op0, s);
    let m1 = mk(2, 0x20, s.push(a as i64));
    let m2 = mk(4, 0x20, s.push(a as i64).push(b as i64));
    assert(step(code, m0) == (m1, Seq::<EmitView>::empty(), None::<Outcome>));
    assert(step(code, m1) == (m2, Seq::<EmitView>::empty(), None::<Outcome>));
    let t = m2.stack;
    assert(t[t.len() - 2] == a as i64 && t[t.len() - 1] == b as i64);
    let v = arith_on_bytes(op, a, b);
    assert(arith(op, a as i64, b as i64) == Some(v as i64)) by (nonlinear_arith)
        requires
            0x01 <= op <= 0x05,
            op == 0x04 || op == 0x05 ==> b != 0,
            v == arith_on_bytes(op, a, b),
            0 <= a <= 255,
            0 <= b <= 255,
    ;
    let m3 = mk(5, op, s.push(v as i64));
    assert(t.subrange(0, t.len() - 2) =~= s);
    assert(step(code, m2).0 == m3);
    assert(step(code, m2).2 == None::<Outcome>);
    assert(step(code, m3).2 == Some(Outcome::Returned(v as i64)));
    assert(run(code, m3, (f - 3) as nat).2 == Outcome::Returned(v as i64));
    assert(run(code, m3, (f - 3) as nat).0.stack == s.push(v as i64));
    assert(run(code, m2, (f - 2) as nat).2 == Outcome::Returned(v as i64));
    assert(run(code, m2, (f - 2) as nat).0.stack == s.push(v as i64));
    assert(run(code, m1, (f - 1) as nat).2 == Outcome::Returned(v as i64));
    assert(run(code, m1, (f - 1) as nat).0.stack == s.push(v as i64));
}

/// JMP moves the program counter to its address byte whatever the stack
/// holds, and leaves the stack alone.
pub proof fn lemma_jmp_always_jumps(code: Seq<u8>, m: Machine)
    requires
        0 <= m.pc,
        m.pc + 1 < code.len(),
        code[m.pc] == 0x30,
    ensures
        step(code, m) == (mk(code[m.pc + 1] as int, 0x30, m.stack), Seq::<EmitView>::empty(), None::<Outcome>),
{
}

/// JNZ jumps exactly when the top of the stack is there and not zero, else
/// skips its address byte; either way the stack is unchanged.
pub proof fn lemma_jnz_keeps_stack(code: Seq<u8>, m: Machine)
    requires
        0 <= m.pc,
        m.pc + 1 < code.len(),
        code[m.pc] == 0x31,
    ensures
        step(code, m).0.stack == m.stack,
        step(code, m).2 is None,
        step(code, m).0.pc == if m.stack.len() > 0 && m.stack.last() != 0 {
            code[m.pc + 1] as int
        } else {
            m.pc + 2
        },
{
}

/// A run that meets JMP goes on from its address byte with the stack it had,
/// one step of the budget spent, whatever the stack holds.
pub proof fn lemma_run_through_jmp(code: Seq<u8>, m: Machine, fuel: nat)
    requires
        0 <= m.pc,
        m.pc + 1 < code.len(),
        code[m.pc] == 0x30,
        fuel > 0,
    ensures
        run(code, m, fuel) == ({
            let r = run(code, mk(code[m.pc + 1] as int, 0x30, m.stack), (fuel - 1) as nat);
            (r.0, Seq::<EmitView>::empty() + r.1, r.2)
        }),
{
}

/// A run that meets JNZ goes on from its address byte when the top of the
/// stack is there and not zero, else from the next instruction; the stack is
/// kept either way, and one step of the budget is spent.
pub proof fn lemma_run_through_jnz(code: Seq<u8>, m: Machine, fuel: nat)
    requires
        0 <= m.pc,
        m.pc + 1 < code.len(),
        code[m.pc] == 0x31,
        fuel > 0,
    ensures
        run(code, m, fuel) == ({
            let next = if m.stack.len() > 0 && m.stack.last() != 0 {
                code[m.pc + 1] as int
            } else {
                m.pc + 2
            };
            let r = run(code, mk(next, 0x31, m.stack), (fuel - 1) as nat);
            (r.0, Seq::<EmitView>::empty() + r.1, r.2)
        }),
{
}

/// A byte that names no instruction stops the run at once, reporting its
/// offset and value.
pub proof fn lemma_unknown_opcode(code: Seq<u8>, m: Machine, fuel: nat)
    requires
        0 <= m.pc < code.len(),
        !is_opcode(code[m.pc]),
        fuel > 0,
    ensures
        run(code, m, fuel).2 == Outcome::Failed(
            StackError::UnknownOp { idx: m.pc as usize, byte: code[m.pc] },
        ),
        run(code, m, fuel).0.stack == m.stack,
{
}

proof fn lemma_pchar_split_no_zero(s: Seq<i64>)
    requires
        forall|i: int| 0 <= i < s.len() ==> #[trigger] s[i] != 0,
    ensures
        pchar_split(s) == (Seq::<i64>::empty(), s),
    decreases s.len(),
{
    if s.len() > 0 {
        let d = s.drop_last();
        assert forall|i: int| 0 <= i < d.len() implies #[trigger] d[i] != 0 by {
            assert(d[i] == s[i]);
        }
        lemma_pchar_split_no_zero(d);
        assert(d.push(s.last()) =~= s);
    } else {
        assert(s =~= Seq::<i64>::empty());
    }
}

proof fn lemma_pchar_split_terminated(below: Seq<i64>, t: Seq<i64>)
    requires
        forall|i: int| 0 <= i < t.len() ==> #[trigger] t[i] != 0,
    ensures
        pchar_split(below + seq![0i64] + t) == (below, t),
    decreases t.len(),
{
    let s = below + seq![0i64] + t;
    if t.len() == 0 {
        assert(s.drop_last() =~= below);
        assert(t =~= Seq::<i64>::empty());
    } else {
        let d = t.drop_last();
        assert forall|i: int| 0 <= i < d.len() implies #[trigger] d[i] != 0 by {
            assert(d[i] == t[i]);
        }
        lemma_pchar_split_terminated(below, d);
        assert(s.drop_last() =~= below + seq![0i64] + d);
        assert(t[t.len() - 1] == t.last());
        assert(d.push(t.last()) =~= t);
    }
}

/// PCHAR on a string `t` without zeros over a terminating zero over `below`
/// leaves `below` followed by `t`: only the zero is consumed. With no zero
/// under the string, the stack is left as it was.
pub proof fn lemma_pchar_stack_neutral(code: Seq<u8>, m: Machine, below: Seq<i64>, t: Seq<i64>, terminated: bool)
    requires
        0 <= m.pc < code.len(),
        code[m.pc] == 0x11,
        forall|i: int| 0 <= i < t.len() ==> #[trigger] t[i] != 0,
        m.stack == if terminated { below + seq![0i64] + t } else { t },
    ensures
        step(code, m).0.stack == if terminated { below + t } else { t },
        step(code, m).0.pc == m.pc + 1,
        step(code, m).2 is None,
{
    if terminated {
        lemma_pchar_split_terminated(below, t);
    } else {
        lemma_pchar_split_no_zero(t);
        assert(Seq::<i64>::empty() + t =~= t);
    }
}

proof fn lemma_emit_fails_from(items: Seq<ItemView>, i: int, j: int)
    requires
        0 <= i <= j < items.len(),
        item_bytes(items[j], items) is Err,
    ensures
        emit_from(items, i) is Err,
    decreases j - i,
{
    if i < j {
        lemma_emit_fails_from(items, i + 1, j);
    }
}

/// Source text that parses, and holds a jump to a label that it never
/// defines, does not compile: no byte program comes out.
pub proof fn lemma_undefined_label_fails(src: Seq<u8>, items: Seq<ItemView>, j: int)
    requires
        parse_from(words(src), 0) == Ok::<Seq<ItemView>, CompileError>(items),
        0 <= j < items.len(),
        items[j] matches ItemView::Jump(_, TargetView::Label { name, .. }) && label_addr(items, name) is None,
    ensures
        compile_spec(src) is Err,
{
    lemma_emit_fails_from(items, 0, j);
}

/// The label table gives each name the address that compilation resolves it
/// to: the first definition's byte offset (offset by the table's start).
pub proof fn lemma_label_table_agrees(items: Seq<ItemView>, name: Seq<u8>, off: nat)
    ensures
        table_lookup(label_table(items, off), name) == shifted(off, label_addr(items, name)),
    decreases items.len(),
{
    if items.len() > 0 {
        lemma_label_table_agrees(items.skip(1), name, off);
        if let ItemView::Label { name: n, .. } = items[0] {
            let t = seq![(n, off)] + label_table(items.skip(1), off);
            assert(t[0] == (n, off));
            assert(t.skip(1) =~= label_table(items.skip(1), off));
        } else {
            lemma_label_table_agrees(items.skip(1), name, off + crate::compile::width(items[0]));
        }
    }
}

} // verus!
