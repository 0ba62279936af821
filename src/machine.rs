//! The execution engine: the meaning of each opcode as a step on a machine
//! state, and the fetch-decode-execute loop that runs a byte program.
use crate::error::StackError;
use crate::stack::Stack;
use vstd::prelude::*;

verus! {

/// What a run hands to its output channel, in order.
#[derive(Debug)]
pub enum Emit {
    /// A value shown by PRINT.
    Value(i64),
    /// The bytes gathered by PCHAR, bottom of the stack first.
    Text(Vec<u8>),
}

/// The model of an `Emit`.
pub ghost enum EmitView {
    Value(i64),
    Text(Seq<u8>),
}

impl View for Emit {
    type V = EmitView;

    open spec fn view(&self) -> EmitView {
        match self {
            Emit::Value(v) => EmitView::Value(*v),
            Emit::Text(t) => EmitView::Text(t@),
        }
    }
}

/// The models of a sequence of emitted items.
pub open spec fn emitted(s: Seq<Emit>) -> Seq<EmitView> {
    s.map_values(|e: Emit| e@)
}

/// How a run of the machine ended.
#[derive(Debug, Clone)]
pub enum Outcome {
    /// RET, EXIT or the end of the program was reached, with this value.
    Returned(i64),
    /// A stack operation failed or an unknown opcode was met.
    Failed(StackError),
    /// The value type's own arithmetic, or a missing operand, would abort
    /// the process here: division or remainder by zero, overflow, PRINT on an
    /// empty stack, a jump without its address byte.
    Fault { idx: usize, op: u8 },
    /// The step budget ran out before the program stopped.
    StepLimit,
}

/// The model of a machine: program counter, last opcode, stack (bottom first).
pub ghost struct Machine {
    pub pc: int,
    pub op: u8,
    pub stack: Seq<i64>,
}

/// The model of a stack that runs a program.
pub open spec fn machine_of(s: Stack<i64>) -> Machine {
    Machine { pc: s.idx as int, op: s.op, stack: s.state@ }
}

/// A machine from its parts.
pub open spec fn mk(pc: int, op: u8, stack: Seq<i64>) -> Machine {
    Machine { pc, op, stack }
}

/// The bytes that name an instruction.
pub open spec fn is_opcode(b: u8) -> bool {
    b <= 0x05 || b == 0x10 || b == 0x11 || b == 0x12 || (0x20 <= b <= 0x23) || b == 0x30 || b
        == 0x31 || b == 0xFF
}

/// The result of the arithmetic opcode `op` on `lhs` and `rhs`; `None` where
/// `i64` arithmetic aborts.
pub open spec fn arith(op: u8, lhs: i64, rhs: i64) -> Option<i64> {
    if op == 0x01 {
        lhs.checked_add(rhs)
    } else if op == 0x02 {
        lhs.checked_sub(rhs)
    } else if op == 0x03 {
        lhs.checked_mul(rhs)
    } else if op == 0x04 {
        lhs.checked_div(rhs)
    } else {
        lhs.checked_rem(rhs)
    }
}

/// `v` as a byte, if it is one.
pub open spec fn byte_of(v: i64) -> Seq<u8> {
    if 0 <= v <= 255 {
        seq![v as u8]
    } else {
        seq![]
    }
}

/// The values of `s` that are bytes, in order.
pub open spec fn bytes_of(s: Seq<i64>) -> Seq<u8>
    decreases s.len(),
{
    if s.len() == 0 {
        seq![]
    } else {
        bytes_of(s.drop_last()) + byte_of(s.last())
    }
}

/// PCHAR on stack `s`: what stays below the string once the terminating zero
/// is consumed, and the values of the string, bottom first.
pub open spec fn pchar_split(s: Seq<i64>) -> (Seq<i64>, Seq<i64>)
    decreases s.len(),
{
    if s.len() == 0 {
        (s, seq![])
    } else if s.last() == 0 {
        (s.drop_last(), seq![])
    } else {
        let p = pchar_split(s.drop_last());
        (p.0, p.1.push(s.last()))
    }
}

/// A pop on an empty stack while the instruction at `at` runs.
pub open spec fn fail_empty(m: Machine, at: int) -> Option<Outcome> {
    Some(Outcome::Failed(StackError::EmptyStack { idx: at as usize, op: m.op }))
}

/// One instruction at `m0.pc` (which lies in `code`): the next machine, what
/// it emits, and the outcome if it stops the run. Pushes are taken to succeed.
pub open spec fn step(code: Seq<u8>, m0: Machine) -> (Machine, Seq<EmitView>, Option<Outcome>) {
    let op = code[m0.pc];
    let pc = m0.pc;
    let s = m0.stack;
    let n = s.len();
    let m = mk(pc, op, s);
    if op == 0x00 {
        (mk(pc + 1, op, s), seq![], None)
    } else if 0x01 <= op <= 0x05 {
        if n == 0 {
            (m, seq![], fail_empty(m, pc))
        } else if n == 1 {
            (mk(pc, op, seq![]), seq![], fail_empty(m, pc))
        } else {
            match arith(op, s[n - 2], s[n - 1]) {
                Some(v) => (mk(pc + 1, op, s.subrange(0, n - 2).push(v)), seq![], None),
                None => (
                    mk(pc, op, s.subrange(0, n - 2)),
                    seq![],
                    Some(Outcome::Fault { idx: pc as usize, op }),
                ),
            }
        }
    } else if op == 0x10 {
        if n == 0 {
            (m, seq![], Some(Outcome::Fault { idx: pc as usize, op }))
        } else {
            (mk(pc + 1, op, s), seq![EmitView::Value(s[n - 1])], None)
        }
    } else if op == 0x11 {
        let p = pchar_split(s);
        (mk(pc + 1, op, p.0 + p.1), seq![EmitView::Text(bytes_of(p.1))], None)
    } else if op == 0x12 {
        if n == 0 {
            (m, seq![], fail_empty(m, pc))
        } else {
            (m, seq![], Some(Outcome::Returned(s[n - 1])))
        }
    } else if op == 0x20 {
        if pc + 1 < code.len() {
            (mk(pc + 2, op, s.push(code[pc + 1] as i64)), seq![], None)
        } else {
            (mk(pc + 1, op, s), seq![], None)
        }
    } else if op == 0x21 {
        if n == 0 {
            (m, seq![], fail_empty(m, pc))
        } else if n == 1 {
            (mk(pc, op, seq![]), seq![], fail_empty(m, pc))
        } else {
            (mk(pc + 1, op, s.subrange(0, n - 2).push(s[n - 1]).push(s[n - 2])), seq![], None)
        }
    } else if op == 0x22 {
        (mk(pc + 1, op, if n == 0 { s } else { s.drop_last() }), seq![], None)
    } else if op == 0x23 {
        if n == 0 {
            (m, seq![], fail_empty(m, pc))
        } else {
            (mk(pc + 1, op, s.push(s[n - 1])), seq![], None)
        }
    } else if op == 0x30 || (op == 0x31 && n > 0 && s[n - 1] != 0) {
        if pc + 1 < code.len() {
            (mk(code[pc + 1] as int, op, s), seq![], None)
        } else {
            (m, seq![], Some(Outcome::Fault { idx: pc as usize, op }))
        }
    } else if op == 0x31 {
        (mk(pc + 2, op, s), seq![], None)
    } else if op == 0xFF {
        (m, seq![], Some(Outcome::Returned(255)))
    } else {
        (m, seq![], Some(Outcome::Failed(StackError::UnknownOp { idx: pc as usize, byte: op })))
    }
}

/// At most `fuel` instructions from machine `m`: the last machine, all that
/// was emitted, and how the run ended. Leaving the program returns 0.
pub open spec fn run(code: Seq<u8>, m: Machine, fuel: nat) -> (Machine, Seq<EmitView>, Outcome)
    decreases fuel,
{
    if m.pc < 0 || m.pc >= code.len() {
        (m, seq![], Outcome::Returned(0))
    } else if fuel == 0 {
        (m, seq![], Outcome::StepLimit)
    } else {
        let (m1, e1, o1) = step(code, m);
        match o1 {
            Some(o) => (m1, e1, o),
            None => {
                let (m2, e2, o2) = run(code, m1, (fuel - 1) as nat);
                (m2, e1 + e2, o2)
            },
        }
    }
}

/// The instruction at `m.pc` pushes a value (when pushes succeed).
pub open spec fn step_pushes(code: Seq<u8>, m: Machine) -> bool {
    let op = code[m.pc];
    let s = m.stack;
    let n = s.len();
    ||| (0x01 <= op <= 0x05 && n >= 2 && arith(op, s[n - 2], s[n - 1]) is Some)
    ||| (op == 0x11 && pchar_split(s).1.len() > 0)
    ||| (op == 0x20 && m.pc + 1 < code.len())
    ||| (op == 0x21 && n >= 2)
    ||| (op == 0x23 && n >= 1)
}

/// Some instruction of the run from `m`, within `fuel` steps, pushes a value:
/// only such a run can fail for want of memory.
pub open spec fn run_pushes(code: Seq<u8>, m: Machine, fuel: nat) -> bool
    decreases fuel,
{
    if m.pc < 0 || m.pc >= code.len() || fuel == 0 {
        false
    } else {
        step_pushes(code, m) || (step(code, m).2 is None && run_pushes(
            code,
            step(code, m).0,
            (fuel - 1) as nat,
        ))
    }
}

/// The run from `m` stops by RET, EXIT, the end of the program or a stack
/// error, within the largest step budget.
pub open spec fn halts_cleanly(code: Seq<u8>, m: Machine) -> bool {
    let o = run(code, m, u64::MAX as nat).2;
    !(o is Fault) && !(o is StepLimit)
}

/// The stack could not grow.
pub open spec fn is_reserve_failure(o: Outcome) -> bool {
    o matches Outcome::Failed(StackError::ReserveError { .. })
}

/// The model never runs out of memory.
proof fn lemma_run_not_reserve_failure(code: Seq<u8>, m: Machine, fuel: nat)
    ensures
        !is_reserve_failure(run(code, m, fuel).2),
    decreases fuel,
{
    if !(m.pc < 0 || m.pc >= code.len()) && fuel > 0 {
        lemma_run_not_reserve_failure(code, step(code, m).0, (fuel - 1) as nat);
    }
}

impl Stack<i64> {
    /// PCHAR: pops down to and including the topmost zero (or the whole
    /// stack), emits the popped values that are bytes, bottom first, and
    /// pushes every popped value but the zero back, in order.
    fn pchar(&mut self, out: &mut Vec<Emit>) -> (r: Result<(), StackError>)
        ensures
            final(self).idx == old(self).idx,
            final(self).op == old(self).op,
            r is Ok ==> {
                let p = pchar_split(old(self)@);
                &&& final(self)@ == p.0 + p.1
                &&& emitted(final(out)@) == emitted(old(out)@).push(EmitView::Text(bytes_of(p.1)))
            },
            r is Err ==> (r matches Err(StackError::ReserveError { .. })) && pchar_split(
                old(self)@,
            ).1.len() > 0,
    {
        let ghost s0 = self@;
        let ghost n0 = s0.len();
        let mut popped: Vec<i64> = Vec::new();
        loop
            invariant_except_break
                popped@.len() == n0 - self@.len(),
                forall|i: int|
                    0 <= i < popped@.len() ==> popped@[i] == s0[n0 - 1 - i],
                pchar_split(s0) == ({
                    let p = pchar_split(self@);
                    (p.0, p.1 + s0.subrange(self@.len() as int, n0 as int))
                }),
            invariant
                self.idx == old(self).idx,
                self.op == old(self).op,
                out@ == old(out)@,
                n0 == s0.len(),
                self@.len() <= n0,
                self@ == s0.subrange(0, self@.len() as int),
            ensures
                self.idx == old(self).idx,
                self.op == old(self).op,
                pchar_split(s0).0 == self@,
                popped@.len() == pchar_split(s0).1.len(),
                forall|i: int|
                    0 <= i < popped@.len() ==> popped@[i] == ({
                        let b = pchar_split(s0).1;
                        b[b.len() - 1 - i]
                    }),
            decreases self@.len(),
        {
            let ghost k = self@.len();
            let ghost before = self.state@;
            let ghost tail = s0.subrange(k as int, n0 as int);
            match self.state.pop() {
                None => {
                    assert(pchar_split(self@).1 + tail =~= tail);
                    assert(tail =~= s0);
                    break;
                },
                Some(v) => {
                    assert(before.len() > 0);
                    assert(v == before[before.len() - 1]);
                    assert(before[k - 1] == s0.subrange(0, k as int)[k - 1]);
                    assert(v == s0[k - 1]);
                    assert(s0.subrange(0, k as int).drop_last() =~= self@);
                    if v == 0 {
                        assert(Seq::<i64>::empty() + tail =~= tail);
                        assert(pchar_split(s0).1 == tail);
                        break;
                    } else {
                        assert(pchar_split(self@).1.push(v) + tail =~= pchar_split(self@).1
                            + s0.subrange(k - 1, n0 as int));
                        popped.push(v);
                    }
                },
            }
        }
        let ghost c = pchar_split(s0).1;
        let mut vals: Vec<i64> = Vec::new();
        let mut text: Vec<u8> = Vec::new();
        let mut j: usize = popped.len();
        while j > 0
            invariant
                j <= popped@.len(),
                popped@.len() == c.len(),
                forall|i: int| 0 <= i < popped@.len() ==> popped@[i] == c[c.len() - 1 - i],
                vals@ == c.subrange(0, c.len() - j),
                text@ == bytes_of(vals@),
            decreases j,
        {
            j = j - 1;
            let v = popped[j];
            let ghost v0 = vals@;
            vals.push(v);
            assert(vals@.drop_last() =~= v0);
            if 0 <= v && v <= 255 {
                text.push(v as u8);
            } else {
                assert(text@ =~= text@ + byte_of(v));
            }
            assert(vals@ =~= c.subrange(0, c.len() - j));
        }
        assert(vals@ =~= c);
        let ghost out0 = out@;
        let ghost t = text@;
        out.push(Emit::Text(text));
        assert(emitted(out@) =~= emitted(out0).push(EmitView::Text(bytes_of(c))));
        let ghost below = self@;
        let mut i: usize = 0;
        while i < vals.len()
            invariant
                i <= vals@.len(),
                vals@ == c,
                c == pchar_split(old(self)@).1,
                below == pchar_split(s0).0,
                self.idx == old(self).idx,
                self.op == old(self).op,
                self@ == below + c.subrange(0, i as int),
            decreases vals@.len() - i,
        {
            match self.push(vals[i]) {
                Ok(()) => {},
                Err(e) => {
                    return Err(e);
                },
            }
            i = i + 1;
            assert(self@ =~= below + c.subrange(0, i as int));
        }
        assert(c.subrange(0, i as int) =~= c);
        Ok(())
    }
}

impl Stack<i64> {
    /// Runs the instruction at the program counter. `None` means the run goes
    /// on; a failure to grow the stack may stop it at any push.
    #[verifier::rlimit(40)]
    fn exec_step(&mut self, code: &[u8], out: &mut Vec<Emit>) -> (r: Option<Outcome>)
        requires
            old(self).idx < code@.len(),
            code@.len() < usize::MAX,
        ensures
            r matches Some(o) && is_reserve_failure(o) || {
                let (m1, e1, o1) = step(code@, machine_of(*old(self)));
                &&& r == o1
                &&& machine_of(*final(self)) == m1
                &&& emitted(final(out)@) == emitted(old(out)@) + e1
            },
            (r matches Some(o) && is_reserve_failure(o)) ==> step_pushes(code@, machine_of(*old(self))),
    {
        let ghost out0 = out@;
        let op = code[self.idx];
        self.op = op;
        let pc = self.idx;
        assert(emitted(out0) + seq![] =~= emitted(out0));
        if op == 0x00 {
            self.idx = pc + 1;
            None
        } else if 0x01 <= op && op <= 0x05 {
            let rhs = match self.pop() {
                Ok(v) => v,
                Err(e) => {
                    assert(self.state@ =~= Seq::<i64>::empty());
                    return Some(Outcome::Failed(e));
                },
            };
            let lhs = match self.pop() {
                Ok(v) => v,
                Err(e) => {
                    assert(self.state@ =~= Seq::<i64>::empty());
                    return Some(Outcome::Failed(e));
                },
            };
            let res = if op == 0x01 {
                lhs.checked_add(rhs)
            } else if op == 0x02 {
                lhs.checked_sub(rhs)
            } else if op == 0x03 {
                lhs.checked_mul(rhs)
            } else if op == 0x04 {
                lhs.checked_div(rhs)
            } else {
                lhs.checked_rem(rhs)
            };
            assert(old(self)@.drop_last().drop_last() =~= old(self)@.subrange(0, old(self)@.len() - 2));
            match res {
                Some(v) => {
                    if let Err(e) = self.push(v) {
                        return Some(Outcome::Failed(e));
                    }
                    self.idx = pc + 1;
                    None
                },
                None => Some(Outcome::Fault { idx: pc, op }),
            }
        } else if op == 0x10 {
            match self.peek() {
                Some(v) => {
                    let v = *v;
                    out.push(Emit::Value(v));
                    assert(emitted(out@) =~= emitted(out0) + seq![EmitView::Value(v)]);
                    self.idx = pc + 1;
                    None
                },
                None => Some(Outcome::Fault { idx: pc, op }),
            }
        } else if op == 0x11 {
            match self.pchar(out) {
                Ok(()) => {
                    assert(emitted(out@) =~= emitted(out0) + seq![
                        EmitView::Text(bytes_of(pchar_split(old(self)@).1)),
                    ]);
                    self.idx = pc + 1;
                    None
                },
                Err(e) => Some(Outcome::Failed(e)),
            }
        } else if op == 0x12 {
            match self.peek() {
                Some(v) => Some(Outcome::Returned(*v)),
                None => Some(Outcome::Failed(StackError::EmptyStack { idx: pc, op })),
            }
        } else if op == 0x20 {
            self.idx = pc + 1;
            if pc + 1 < code.len() {
                if let Err(e) = self.push(code[pc + 1] as i64) {
                    return Some(Outcome::Failed(e));
                }
                self.idx = pc + 2;
            }
            None
        } else if op == 0x21 {
            let first = match self.pop() {
                Ok(v) => v,
                Err(e) => {
                    assert(self.state@ =~= Seq::<i64>::empty());
                    return Some(Outcome::Failed(e));
                },
            };
            let second = match self.pop() {
                Ok(v) => v,
                Err(e) => {
                    assert(self.state@ =~= Seq::<i64>::empty());
                    return Some(Outcome::Failed(e));
                },
            };
            assert(old(self)@.drop_last().drop_last() =~= old(self)@.subrange(0, old(self)@.len() - 2));
            self.idx = pc + 1;
            if let Err(e) = self.push(first) {
                return Some(Outcome::Failed(e));
            }
            if let Err(e) = self.push(second) {
                return Some(Outcome::Failed(e));
            }
            None
        } else if op == 0x22 {
            self.idx = pc + 1;
            let _ = self.pop();
            None
        } else if op == 0x23 {
            let top = match self.pop() {
                Ok(v) => v,
                Err(e) => {
                    assert(self.state@ =~= Seq::<i64>::empty());
                    return Some(Outcome::Failed(e));
                },
            };
            self.idx = pc + 1;
            if let Err(e) = self.push(top) {
                return Some(Outcome::Failed(e));
            }
            if let Err(e) = self.push(top) {
                return Some(Outcome::Failed(e));
            }
            assert(self@ =~= old(self)@.push(top));
            None
        } else if op == 0x30 || op == 0x31 {
            let jump = op == 0x30 || match self.peek() {
                Some(top) => *top != 0,
                None => false,
            };
            if !jump {
                self.idx = pc + 2;
                None
            } else if pc + 1 < code.len() {
                self.idx = code[pc + 1] as usize;
                None
            } else {
                Some(Outcome::Fault { idx: pc, op })
            }
        } else if op == 0xFF {
            Some(Outcome::Returned(255))
        } else {
            Some(Outcome::Failed(StackError::UnknownOp { idx: pc, byte: op }))
        }
    }

    /// Runs `code` from the current machine state for at most `fuel`
    /// instructions, appending what it emits to `out`.
    pub fn run_machine(&mut self, code: &[u8], fuel: u64, out: &mut Vec<Emit>) -> (r: Outcome)
        requires
            code@.len() < usize::MAX,
        ensures
            is_reserve_failure(r) || {
                let (m, e, o) = run(code@, machine_of(*old(self)), fuel as nat);
                &&& r == o
                &&& machine_of(*final(self)) == m
                &&& emitted(final(out)@) == emitted(old(out)@) + e
            },
            is_reserve_failure(r) ==> run_pushes(code@, machine_of(*old(self)), fuel as nat),
    {
        let mut left = fuel;
        let ghost total = run(code@, machine_of(*self), fuel as nat);
        let ghost done: Seq<EmitView> = seq![];
        loop
            invariant
                code@.len() < usize::MAX,
                emitted(out@) == emitted(old(out)@) + done,
                total == run(code@, machine_of(*old(self)), fuel as nat),
                run_pushes(code@, machine_of(*self), left as nat) ==> run_pushes(
                    code@,
                    machine_of(*old(self)),
                    fuel as nat,
                ),
                total == ({
                    let (m, e, o) = run(code@, machine_of(*self), left as nat);
                    (m, done + e, o)
                }),
            decreases left,
        {
            if self.idx >= code.len() {
                assert(done + seq![] =~= done);
                return Outcome::Returned(0);
            }
            if left == 0 {
                assert(done + seq![] =~= done);
                return Outcome::StepLimit;
            }
            let ghost m0 = machine_of(*self);
            let ghost e1 = step(code@, m0).1;
            match self.exec_step(code, out) {
                Some(o) => {
                    proof {
                        lemma_run_not_reserve_failure(code@, m0, left as nat);
                    }
                    return o;
                },
                None => {},
            }
            proof {
                assert(done + e1 + run(code@, machine_of(*self), (left - 1) as nat).1 =~= done + (e1
                    + run(code@, machine_of(*self), (left - 1) as nat).1));
                assert(emitted(old(out)@) + done + e1 =~= emitted(old(out)@) + (done + e1));
                done = done + e1;
            }
            left = left - 1;
        }
    }

    /// Runs `code` from the current machine state until RET or EXIT (their
    /// value), the end of the program (0) or a stack error. Runs that would
    /// abort in `i64` arithmetic (division or remainder by zero, overflow),
    /// PRINT on an empty stack, a jump without its address byte, and runs
    /// that never stop, are left out by `requires`: `run_machine` reports
    /// those as `Fault` or `StepLimit`.
    pub fn execute(&mut self, code: &[u8]) -> (r: Result<i64, StackError>)
        requires
            code@.len() < usize::MAX,
            halts_cleanly(code@, machine_of(*old(self))),
        ensures
            (r matches Err(StackError::ReserveError { .. })) || {
                let (m, e, o) = run(code@, machine_of(*old(self)), u64::MAX as nat);
                &&& machine_of(*final(self)) == m
                &&& match o {
                    Outcome::Returned(v) => r == Ok::<i64, StackError>(v),
                    Outcome::Failed(err) => r == Err::<i64, StackError>(err),
                    _ => false,
                }
            },
            (r matches Err(StackError::ReserveError { .. })) ==> run_pushes(
                code@,
                machine_of(*old(self)),
                u64::MAX as nat,
            ),
    {
        let mut out: Vec<Emit> = Vec::new();
        match self.run_machine(code, u64::MAX, &mut out) {
            Outcome::Returned(v) => Ok(v),
            Outcome::Failed(e) => Err(e),
            Outcome::Fault { .. } => Ok(0),
            Outcome::StepLimit => Ok(0),
        }
    }
}

} // verus!
