//! A model of the target machine, and what the generated code does on it:
//! the code of an expression pushes its value, the code of a statement
//! leaves exactly one value or returns, and a program returns what `main`
//! should.

use vstd::prelude::*;
use crate::parse::{NodeKind, NodeView, is_expr, is_stmt, are_stmts, if_count, if_count_seq};
use crate::codegen::{
    Cond, Instr, Label, Reg, gen_code, gen_block, gen_program_code, lval_code, op_code, label_count,
    epilogue, lemma_program_labels_distinct,
};

verus! {

/// `x` wrapped into the range of `i32`.
pub open spec fn wrap32(x: int) -> int {
    let m = x % 0x1_0000_0000;
    if m >= 0x8000_0000 {
        m - 0x1_0000_0000
    } else {
        m
    }
}

/// `x` wrapped into the range of `i64`: what a 64-bit register keeps.
pub open spec fn wrap64(x: int) -> int {
    let m = x % 0x1_0000_0000_0000_0000;
    if m >= 0x8000_0000_0000_0000 {
        m - 0x1_0000_0000_0000_0000
    } else {
        m
    }
}

pub open spec fn is_i32(x: int) -> bool {
    i32::MIN <= x <= i32::MAX
}

pub open spec fn is_i64(x: int) -> bool {
    i64::MIN <= x <= i64::MAX
}

/// Every variable holds a 32-bit value.
pub open spec fn values_i32(env: Map<int, int>) -> bool {
    forall|k: int| env.contains_key(k) ==> is_i32(#[trigger] env[k])
}

/// Signed division that rounds toward zero.
pub open spec fn trunc_div(a: int, b: int) -> int {
    let q = (if a < 0 { -a } else { a }) / (if b < 0 { -b } else { b });
    if (a < 0) != (b < 0) {
        -q
    } else {
        q
    }
}

/// A binary operation of the language on 32-bit values: `+ - * /` wrap,
/// `/` rounds toward zero and is undefined on a zero divisor (so
/// `i32::MIN / -1` wraps to `i32::MIN`), and a comparison gives 0 or 1.
pub open spec fn apply(kind: NodeKind, a: int, b: int) -> Option<int> {
    match kind {
        NodeKind::NdAdd => Some(wrap32(a + b)),
        NodeKind::NdSub => Some(wrap32(a - b)),
        NodeKind::NdMul => Some(wrap32(a * b)),
        NodeKind::NdDiv => if b == 0 {
            None
        } else {
            Some(wrap32(trunc_div(a, b)))
        },
        NodeKind::NdEq => Some(if a == b { 1 } else { 0 }),
        NodeKind::NdNEq => Some(if a != b { 1 } else { 0 }),
        NodeKind::NdLt => Some(if a < b { 1 } else { 0 }),
        NodeKind::NdLe => Some(if a <= b { 1 } else { 0 }),
        _ => None,
    }
}

/// The value of a well-formed expression and the variables after it, where
/// `env` maps the frame offset of each variable that holds a value to that
/// value. Operands are evaluated left to right; an assignment yields the
/// value it stores. `None` where an operation is undefined or a variable is
/// read before it is set.
pub open spec fn eval(n: NodeView, env: Map<int, int>) -> Option<(int, Map<int, int>)>
    decreases n,
{
    match n {
        NodeView::Number(v) => Some((v as int, env)),
        NodeView::LVar(off) => if env.contains_key(off as int) {
            Some((env[off as int], env))
        } else {
            None
        },
        NodeView::Operator { kind, lhs, rhs } => if kind == NodeKind::NdAssign {
            match (*lhs, eval(*rhs, env)) {
                (NodeView::LVar(off), Some((v, env1))) => Some((v, env1.insert(off as int, v))),
                _ => None,
            }
        } else {
            match eval(*lhs, env) {
                Some((a, env1)) => match eval(*rhs, env1) {
                    Some((b, env2)) => match apply(kind, a, b) {
                        Some(v) => Some((v, env2)),
                        None => None,
                    },
                    None => None,
                },
                None => None,
            }
        },
        _ => None,
    }
}

/// The memory of a frame whose base is `rbp` and whose variables hold `env`:
/// the variable at offset `off` lives at address `rbp - off`.
pub open spec fn frame(env: Map<int, int>, rbp: int) -> Map<int, int> {
    Map::new(|a: int| env.contains_key(rbp - a), |a: int| env[rbp - a])
}

/// The machine: registers, the flags of the last comparison, the stack
/// (top last) and memory.
pub struct MachineState {
    pub rax: int,
    pub rdi: int,
    pub rbp: int,
    pub al: int,
    pub cmp: (int, int),
    pub stack: Seq<int>,
    pub mem: Map<int, int>,
}

pub open spec fn set_reg(s: MachineState, r: Reg, v: int) -> MachineState {
    match r {
        Reg::Rax => MachineState { rax: v, ..s },
        Reg::Rdi => MachineState { rdi: v, ..s },
        Reg::Rbp => MachineState { rbp: v, ..s },
    }
}

pub open spec fn get_reg(s: MachineState, r: Reg) -> int {
    match r {
        Reg::Rax => s.rax,
        Reg::Rdi => s.rdi,
        Reg::Rbp => s.rbp,
    }
}

pub open spec fn cond_holds(c: Cond, a: int, b: int) -> bool {
    match c {
        Cond::Eq => a == b,
        Cond::Ne => a != b,
        Cond::Lt => a < b,
        Cond::Le => a <= b,
    }
}

/// One instruction of straight-line code; `None` where the machine faults
/// (an empty stack, unmapped memory, a division by zero or one whose
/// quotient does not fit in 64 bits) or where control leaves straight-line
/// code (a jump or a return). Registers are 64 bits wide: `add`, `sub` and
/// `imul` wrap at 64 bits, and only `movsxd rax, eax` cuts a value to 32.
pub open spec fn step(s: MachineState, i: Instr) -> Option<MachineState> {
    match i {
        Instr::PushImm(v) => Some(MachineState { stack: s.stack.push(v as int), ..s }),
        Instr::Push(r) => Some(MachineState { stack: s.stack.push(get_reg(s, r)), ..s }),
        Instr::Pop(r) => if s.stack.len() == 0 {
            None
        } else {
            Some(set_reg(MachineState { stack: s.stack.drop_last(), ..s }, r, s.stack.last()))
        },
        Instr::MovRaxRbp => Some(MachineState { rax: s.rbp, ..s }),
        Instr::SubRaxImm(v) => Some(MachineState { rax: s.rax - v, ..s }),
        Instr::Load => if s.mem.contains_key(s.rax) {
            Some(MachineState { rax: s.mem[s.rax], ..s })
        } else {
            None
        },
        Instr::Store => Some(MachineState { mem: s.mem.insert(s.rax, s.rdi), ..s }),
        Instr::Add => Some(MachineState { rax: wrap64(s.rax + s.rdi), ..s }),
        Instr::Sub => Some(MachineState { rax: wrap64(s.rax - s.rdi), ..s }),
        Instr::Imul => Some(MachineState { rax: wrap64(s.rax * s.rdi), ..s }),
        Instr::Cqo => Some(s),
        Instr::Idiv => if s.rdi == 0 || !is_i64(trunc_div(s.rax, s.rdi)) {
            None
        } else {
            Some(MachineState { rax: trunc_div(s.rax, s.rdi), ..s })
        },
        Instr::Movsxd => Some(MachineState { rax: wrap32(s.rax), ..s }),
        Instr::Cmp => Some(MachineState { cmp: (s.rax, s.rdi), ..s }),
        Instr::CmpZero => Some(MachineState { cmp: (s.rax, 0), ..s }),
        Instr::SetCc(c) => Some(
            MachineState { al: if cond_holds(c, s.cmp.0, s.cmp.1) { 1 } else { 0 }, ..s },
        ),
        Instr::Movzb => Some(MachineState { rax: s.al, ..s }),
        Instr::Label(_) => Some(s),
        _ => None,
    }
}

/// Runs straight-line code from the first instruction to the last.
pub open spec fn run(code: Seq<Instr>, s: MachineState) -> Option<MachineState>
    decreases code.len(),
{
    if code.len() == 0 {
        Some(s)
    } else {
        match step(s, code[0]) {
            Some(s1) => run(code.drop_first(), s1),
            None => None,
        }
    }
}

pub proof fn lemma_run_concat(a: Seq<Instr>, b: Seq<Instr>, s: MachineState)
    ensures
        run(a + b, s) == match run(a, s) {
            Some(s1) => run(b, s1),
            None => None,
        },
    decreases a.len(),
{
    if a.len() == 0 {
        assert(a + b =~= b);
    } else {
        assert((a + b).drop_first() =~= a.drop_first() + b);
        assert((a + b)[0] == a[0]);
        match step(s, a[0]) {
            Some(s1) => lemma_run_concat(a.drop_first(), b, s1),
            None => {},
        }
    }
}

/// Facts on 32-bit operands: the 64-bit result of `+ - *` is exact, the
/// quotient fits in 64 bits, and every result of the language is 32 bits.
proof fn lemma_arith_i32(kind: NodeKind, a: int, b: int)
    requires
        is_i32(a),
        is_i32(b),
    ensures
        wrap64(a + b) == a + b,
        wrap64(a - b) == a - b,
        wrap64(a * b) == a * b,
        b != 0 ==> is_i64(trunc_div(a, b)),
        apply(kind, a, b) is Some ==> is_i32(apply(kind, a, b)->0),
{
    assert(-0x4000_0000_0000_0000 <= a * b <= 0x4000_0000_0000_0000) by (nonlinear_arith)
        requires
            -0x8000_0000 <= a <= 0x8000_0000,
            -0x8000_0000 <= b <= 0x8000_0000,
    ;
    if b != 0 {
        let ua = if a < 0 { -a } else { a };
        let ub = if b < 0 { -b } else { b };
        vstd::arithmetic::div_mod::lemma_div_is_ordered_by_denominator(ua, 1, ub);
        vstd::arithmetic::div_mod::lemma_div_pos_is_pos(ua, ub);
        assert(ua / 1 == ua);
    }
}

/// The instructions of a binary operation compute it from `rax` and `rdi`
/// into `rax`, touching neither the stack nor memory.
proof fn lemma_op_code(kind: NodeKind, s: MachineState)
    requires
        kind != NodeKind::NdAssign,
        kind != NodeKind::NdGt,
        kind != NodeKind::NdGe,
        is_i32(s.rax),
        is_i32(s.rdi),
    ensures
        match apply(kind, s.rax, s.rdi) {
            Some(v) => {
                &&& run(op_code(kind), s) is Some
                &&& run(op_code(kind), s)->0.rax == v
                &&& run(op_code(kind), s)->0.stack == s.stack
                &&& run(op_code(kind), s)->0.mem == s.mem
                &&& run(op_code(kind), s)->0.rbp == s.rbp
                &&& is_i32(v)
            },
            None => run(op_code(kind), s) is None,
        },
{
    lemma_arith_i32(kind, s.rax, s.rdi);
    match kind {
        NodeKind::NdAdd | NodeKind::NdSub | NodeKind::NdMul => {
            let i = if kind == NodeKind::NdAdd {
                Instr::Add
            } else if kind == NodeKind::NdSub {
                Instr::Sub
            } else {
                Instr::Imul
            };
            let s1 = step(s, i)->0;
            assert(op_code(kind) =~= seq![i] + seq![Instr::Movsxd]);
            lemma_run_concat(seq![i], seq![Instr::Movsxd], s);
            lemma_run_one(i, s);
            lemma_run_one(Instr::Movsxd, s1);
        },
        NodeKind::NdDiv => {
            assert(op_code(kind) =~= seq![Instr::Cqo] + seq![Instr::Idiv] + seq![Instr::Movsxd]);
            lemma_run_concat(seq![Instr::Cqo], seq![Instr::Idiv], s);
            lemma_run_concat(seq![Instr::Cqo] + seq![Instr::Idiv], seq![Instr::Movsxd], s);
            lemma_run_one(Instr::Cqo, s);
            lemma_run_one(Instr::Idiv, s);
            if s.rdi != 0 {
                lemma_run_one(Instr::Movsxd, step(s, Instr::Idiv)->0);
            }
        },
        _ => {
            let c = match kind {
                NodeKind::NdEq => Cond::Eq,
                NodeKind::NdNEq => Cond::Ne,
                NodeKind::NdLt => Cond::Lt,
                _ => Cond::Le,
            };
            let s1 = step(s, Instr::Cmp)->0;
            let s2 = step(s1, Instr::SetCc(c))->0;
            assert(op_code(kind) =~= seq![Instr::Cmp] + seq![Instr::SetCc(c)] + seq![Instr::Movzb]);
            lemma_run_one(Instr::Cmp, s);
            lemma_run_concat(seq![Instr::Cmp], seq![Instr::SetCc(c)], s);
            lemma_run_concat(seq![Instr::Cmp] + seq![Instr::SetCc(c)], seq![Instr::Movzb], s);
            lemma_run_one(Instr::SetCc(c), s1);
            lemma_run_one(Instr::Movzb, s2);
        },
    }
}

/// Running a single instruction is one step.
proof fn lemma_run_one(i: Instr, s: MachineState)
    ensures
        run(seq![i], s) == step(s, i),
{
    assert(seq![i].drop_first() =~= seq![]);
    match step(s, i) {
        Some(s1) => {
            assert(run(seq![], s1) == Some(s1));
        },
        None => {},
    }
}

/// The code for a well-formed expression pushes its value and leaves the
/// frame holding the variables as evaluation leaves them; it faults exactly
/// where evaluation is undefined.
pub proof fn lemma_expr_code_evaluates(n: NodeView, c: nat, s: MachineState, env: Map<int, int>)
    requires
        is_expr(n),
        s.mem == frame(env, s.rbp),
        values_i32(env),
    ensures
        match eval(n, env) {
            Some((v, env2)) => {
                &&& run(gen_code(n, c), s) is Some
                &&& run(gen_code(n, c), s)->0.stack == s.stack.push(v)
                &&& run(gen_code(n, c), s)->0.mem == frame(env2, s.rbp)
                &&& run(gen_code(n, c), s)->0.rbp == s.rbp
                &&& is_i32(v)
                &&& values_i32(env2)
            },
            None => run(gen_code(n, c), s) is None,
        },
    decreases n, 1nat,
{
    match n {
        NodeView::Number(v) => {
            lemma_run_one(Instr::PushImm(v), s);
        },
        NodeView::LVar(off) => {
            lemma_lvar_code(n, c, s, env);
        },
        NodeView::Operator { kind, lhs, rhs } => {
            if kind == NodeKind::NdAssign {
                lemma_assign_code(n, c, s, env);
            } else {
                lemma_binary_code(n, c, s, env);
            }
        },
        _ => {},
    }
}

proof fn lemma_lvar_code(n: NodeView, c: nat, s: MachineState, env: Map<int, int>)
    requires
        n is LVar,
        s.mem == frame(env, s.rbp),
        values_i32(env),
    ensures
        match eval(n, env) {
            Some((v, env2)) => {
                &&& run(gen_code(n, c), s) is Some
                &&& run(gen_code(n, c), s)->0.stack == s.stack.push(v)
                &&& run(gen_code(n, c), s)->0.mem == frame(env2, s.rbp)
                &&& run(gen_code(n, c), s)->0.rbp == s.rbp
                &&& is_i32(v)
                &&& values_i32(env2)
            },
            None => run(gen_code(n, c), s) is None,
        },
{
    let off = n->LVar_0;
    let code = gen_code(n, c);
    reveal_with_fuel(run, 7);
    assert(code.drop_first().drop_first().drop_first().drop_first().drop_first().drop_first() =~= seq![]);
    assert(s.mem.contains_key(s.rbp - off) == env.contains_key(off as int));
}

/// The address of the variable at offset `off` ends up on the stack.
proof fn lemma_lval_run(off: i32, s: MachineState)
    ensures
        run(lval_code(off), s) == Some(
            MachineState { rax: s.rbp - off, stack: s.stack.push(s.rbp - off), ..s },
        ),
{
    reveal_with_fuel(run, 4);
    assert(lval_code(off).drop_first().drop_first().drop_first() =~= seq![]);
}

/// The tail of an assignment stores the value under the address below it
/// and leaves the value.
proof fn lemma_store_run(s: MachineState, base: Seq<int>, addr: int, v: int)
    requires
        s.stack == base.push(addr).push(v),
    ensures
        run(
            seq![Instr::Pop(Reg::Rdi), Instr::Pop(Reg::Rax), Instr::Store, Instr::Push(Reg::Rdi)],
            s,
        ) == Some(
            MachineState { rax: addr, rdi: v, stack: base.push(v), mem: s.mem.insert(addr, v), ..s },
        ),
{
    reveal_with_fuel(run, 5);
    let p = seq![Instr::Pop(Reg::Rdi), Instr::Pop(Reg::Rax), Instr::Store, Instr::Push(Reg::Rdi)];
    assert(p.drop_first().drop_first().drop_first().drop_first() =~= seq![]);
    assert(s.stack.drop_last() =~= base.push(addr));
    assert(base.push(addr).drop_last() =~= base);
}

proof fn lemma_assign_code(n: NodeView, c: nat, s: MachineState, env: Map<int, int>)
    requires
        is_expr(n),
        n is Operator,
        n->Operator_kind == NodeKind::NdAssign,
        s.mem == frame(env, s.rbp),
        values_i32(env),
    ensures
        match eval(n, env) {
            Some((v, env2)) => {
                &&& run(gen_code(n, c), s) is Some
                &&& run(gen_code(n, c), s)->0.stack == s.stack.push(v)
                &&& run(gen_code(n, c), s)->0.mem == frame(env2, s.rbp)
                &&& run(gen_code(n, c), s)->0.rbp == s.rbp
                &&& is_i32(v)
                &&& values_i32(env2)
            },
            None => run(gen_code(n, c), s) is None,
        },
    decreases n, 0nat,
{
    let rhs = n->Operator_rhs;
    let lhs = n->Operator_lhs;
    let off = lhs->LVar_0;
    let a = lval_code(off);
    let b = gen_code(*rhs, c);
    let p = seq![Instr::Pop(Reg::Rdi), Instr::Pop(Reg::Rax), Instr::Store, Instr::Push(Reg::Rdi)];
    assert(gen_code(n, c) == a + b + p);
    lemma_run_concat(a, b, s);
    lemma_run_concat(a + b, p, s);
    lemma_lval_run(off, s);
    let s1 = run(a, s)->0;
    lemma_expr_code_evaluates(*rhs, c, s1, env);
    match eval(*rhs, env) {
        Some((v, env1)) => {
            let s2 = run(b, s1)->0;
            lemma_store_run(s2, s.stack, s.rbp - off, v);
            let s3 = run(p, s2)->0;
            assert(s3.mem =~= frame(env1.insert(off as int, v), s.rbp));
        },
        None => {},
    }
}

proof fn lemma_binary_code(n: NodeView, c: nat, s: MachineState, env: Map<int, int>)
    requires
        is_expr(n),
        n is Operator,
        n->Operator_kind != NodeKind::NdAssign,
        s.mem == frame(env, s.rbp),
        values_i32(env),
    ensures
        match eval(n, env) {
            Some((v, env2)) => {
                &&& run(gen_code(n, c), s) is Some
                &&& run(gen_code(n, c), s)->0.stack == s.stack.push(v)
                &&& run(gen_code(n, c), s)->0.mem == frame(env2, s.rbp)
                &&& run(gen_code(n, c), s)->0.rbp == s.rbp
                &&& is_i32(v)
                &&& values_i32(env2)
            },
            None => run(gen_code(n, c), s) is None,
        },
    decreases n, 0nat,
{
    let kind = n->Operator_kind;
    let rhs = n->Operator_rhs;
    let lhs = n->Operator_lhs;
    let a = gen_code(*lhs, c);
    let b = gen_code(*rhs, c);
    let p = seq![Instr::Pop(Reg::Rdi), Instr::Pop(Reg::Rax)];
    let o = op_code(kind);
    let q = seq![Instr::Push(Reg::Rax)];
    assert(gen_code(n, c) == a + b + p + o + q);
    lemma_run_concat(a, b, s);
    lemma_run_concat(a + b, p, s);
    lemma_run_concat(a + b + p, o, s);
    lemma_run_concat(a + b + p + o, q, s);
    lemma_expr_code_evaluates(*lhs, c, s, env);
    match eval(*lhs, env) {
        Some((x, env1)) => {
            let s1 = run(a, s)->0;
            lemma_expr_code_evaluates(*rhs, c, s1, env1);
            match eval(*rhs, env1) {
                Some((y, env2)) => {
                    let s2 = run(b, s1)->0;
                    assert(run(a + b, s) == Some(s2));
                    reveal_with_fuel(run, 3);
                    assert(s2.stack.drop_last().drop_last() =~= s.stack);
                    assert(s2.stack.drop_last().last() == x);
                    let s3 = run(p, s2)->0;
                    assert(s3.rax == x && s3.rdi == y && s3.stack == s.stack);
                    lemma_op_code(kind, s3);
                    match apply(kind, x, y) {
                        Some(v) => {
                            let s4 = run(o, s3)->0;
                            assert(run(q, s4)->0.stack == s.stack.push(v));
                        },
                        None => {},
                    }
                },
                None => {},
            }
        },
        None => {},
    }
}

/// How a statement ends: normally, with the value it leaves and the
/// variables after it, or by returning from `main` with a value.
pub enum Outcome {
    Normal(int, Map<int, int>),
    Returned(int),
}

/// What a well-formed statement does; `None` where an expression in it is
/// undefined. An `if` takes its first branch when its condition is not 0.
pub open spec fn exec_stmt(n: NodeView, env: Map<int, int>) -> Option<Outcome>
    decreases n,
{
    match n {
        NodeView::Return(e) => match eval(*e, env) {
            Some((v, _)) => Some(Outcome::Returned(v)),
            None => None,
        },
        NodeView::If { cond, i_st, e_st } => match eval(*cond, env) {
            Some((v, env1)) => if v != 0 {
                exec_stmt(*i_st, env1)
            } else {
                exec_stmt(*e_st, env1)
            },
            None => None,
        },
        NodeView::Block(ss) => exec_block(ss, env),
        _ => match eval(n, env) {
            Some((v, env1)) => Some(Outcome::Normal(v, env1)),
            None => None,
        },
    }
}

/// The statements of a block in order, up to a `return`; the block ends
/// with the value of its last statement, or 0 when it is empty.
pub open spec fn exec_block(ss: Seq<NodeView>, env: Map<int, int>) -> Option<Outcome>
    decreases ss,
{
    if ss.len() == 0 {
        Some(Outcome::Normal(0, env))
    } else if ss.len() == 1 {
        exec_stmt(ss[0], env)
    } else {
        match exec_block(ss.drop_last(), env) {
            Some(Outcome::Normal(_, env1)) => exec_stmt(ss.last(), env1),
            other => other,
        }
    }
}

/// Why the machine stopped: `main` returned a value, or it faulted.
pub enum Stop {
    Halt(int),
    Fault,
}

/// The position of the label `l` in `p` (its last definition), or -1.
pub open spec fn label_pos(p: Seq<Instr>, l: Label) -> int
    decreases p.len(),
{
    if p.len() == 0 {
        -1
    } else if p.last() == Instr::Label(l) {
        p.len() - 1
    } else {
        label_pos(p.drop_last(), l)
    }
}

/// One step of the body `p` of `main` at instruction `pc`. Jumps go to
/// their label; `mov rsp, rbp` begins the epilogue, so `main` returns `rax`;
/// running off the end of the body also returns `rax`.
pub open spec fn cpu_step(p: Seq<Instr>, pc: int, s: MachineState) -> Result<(int, MachineState), Stop> {
    if pc == p.len() {
        Err(Stop::Halt(s.rax))
    } else if pc < 0 || pc > p.len() {
        Err(Stop::Fault)
    } else {
        match p[pc] {
            Instr::Je(l) => Ok((if s.cmp.0 == s.cmp.1 { label_pos(p, l) } else { pc + 1 }, s)),
            Instr::Jmp(l) => Ok((label_pos(p, l), s)),
            Instr::MovRspRbp => Err(Stop::Halt(s.rax)),
            Instr::Ret => Err(Stop::Halt(s.rax)),
            i => match step(s, i) {
                Some(s1) => Ok((pc + 1, s1)),
                None => Err(Stop::Fault),
            },
        }
    }
}

/// The machine after `n` steps from instruction `pc`, or why it stopped.
pub open spec fn steps(p: Seq<Instr>, pc: int, s: MachineState, n: nat) -> Result<(int, MachineState), Stop>
    decreases n,
{
    if n == 0 {
        Ok((pc, s))
    } else {
        match cpu_step(p, pc, s) {
            Ok((pc1, s1)) => steps(p, pc1, s1, (n - 1) as nat),
            Err(e) => Err(e),
        }
    }
}

pub proof fn lemma_steps_add(p: Seq<Instr>, pc: int, s: MachineState, n1: nat, n2: nat)
    ensures
        steps(p, pc, s, n1 + n2) == match steps(p, pc, s, n1) {
            Ok((pc1, s1)) => steps(p, pc1, s1, n2),
            Err(e) => Err(e),
        },
    decreases n1,
{
    if n1 > 0 {
        match cpu_step(p, pc, s) {
            Ok((pc1, s1)) => {
                lemma_steps_add(p, pc1, s1, (n1 - 1) as nat, n2);
                assert((n1 + n2 - 1) as nat == ((n1 - 1) as nat + n2) as nat);
            },
            Err(e) => {},
        }
    }
}

/// Straight-line code that runs without a fault runs the same way inside
/// the body of `main`.
pub proof fn lemma_straight_steps(p: Seq<Instr>, b: int, code: Seq<Instr>, s: MachineState)
    requires
        0 <= b,
        b + code.len() <= p.len(),
        p.subrange(b, b + code.len()) == code,
        run(code, s) is Some,
    ensures
        steps(p, b, s, code.len()) == Ok::<(int, MachineState), Stop>((b + code.len(), run(code, s)->0)),
    decreases code.len(),
{
    if code.len() > 0 {
        assert(p[b] == code[0]);
        let s1 = step(s, code[0])->0;
        assert(p.subrange(b + 1, b + code.len()) =~= code.drop_first());
        lemma_straight_steps(p, b + 1, code.drop_first(), s1);
        assert(cpu_step(p, b, s) == Ok::<(int, MachineState), Stop>((b + 1, s1)));
    }
}

proof fn lemma_label_count_pos(p: Seq<Instr>, i: int, l: Label)
    requires
        0 <= i < p.len(),
        p[i] == Instr::Label(l),
    ensures
        label_count(p, l) >= 1,
    decreases p.len(),
{
    if i < p.len() - 1 {
        assert(p.drop_last()[i] == p[i]);
        lemma_label_count_pos(p.drop_last(), i, l);
    }
}

/// A label defined once is found where it stands.
pub proof fn lemma_label_pos(p: Seq<Instr>, i: int, l: Label)
    requires
        0 <= i < p.len(),
        p[i] == Instr::Label(l),
        label_count(p, l) <= 1,
    ensures
        label_pos(p, l) == i,
    decreases p.len(),
{
    if i < p.len() - 1 {
        assert(p.drop_last()[i] == p[i]);
        lemma_label_count_pos(p.drop_last(), i, l);
        lemma_label_pos(p.drop_last(), i, l);
    }
}

proof fn lemma_one_step(p: Seq<Instr>, pc: int, s: MachineState)
    ensures
        steps(p, pc, s, 1) == cpu_step(p, pc, s),
{
    match cpu_step(p, pc, s) {
        Ok((pc1, s1)) => {
            assert(steps(p, pc1, s1, 0) == Ok::<(int, MachineState), Stop>((pc1, s1)));
        },
        Err(e) => {},
    }
}

proof fn lemma_steps_then(p: Seq<Instr>, pc: int, s: MachineState, n1: nat, n2: nat, pc1: int, s1: MachineState)
    requires
        steps(p, pc, s, n1) == Ok::<(int, MachineState), Stop>((pc1, s1)),
    ensures
        steps(p, pc, s, n1 + n2) == steps(p, pc1, s1, n2),
{
    lemma_steps_add(p, pc, s, n1, n2);
}

proof fn lemma_piece(p: Seq<Instr>, b: int, code: Seq<Instr>, x: int, y: int)
    requires
        0 <= b,
        b + code.len() <= p.len(),
        p.subrange(b, b + code.len()) == code,
        0 <= x <= y <= code.len(),
    ensures
        p.subrange(b + x, b + y) == code.subrange(x, y),
{
    assert(p.subrange(b + x, b + y) =~= code.subrange(x, y));
}

/// How a run from the start of a statement's code ended, against what the
/// statement does: a normal end leaves the machine at `end`, the end of the
/// code, with the statement's value pushed and the frame updated; a
/// `return` stops the machine with the returned value.
pub open spec fn ends_as(r: Result<(int, MachineState), Stop>, end: int, s: MachineState, o: Outcome) -> bool {
    match o {
        Outcome::Normal(v, env2) => {
            &&& r is Ok
            &&& r->Ok_0.0 == end
            &&& r->Ok_0.1.stack == s.stack.push(v)
            &&& r->Ok_0.1.mem == frame(env2, s.rbp)
            &&& r->Ok_0.1.rbp == s.rbp
            &&& values_i32(env2)
        },
        Outcome::Returned(v) => r == Err::<(int, MachineState), Stop>(Stop::Halt(v)),
    }
}

/// The code for a well-formed statement, standing at `b` in a body of
/// `main` that defines no label twice, does what the statement does: it
/// leaves exactly one value on the stack and ends at the end of its code,
/// or returns from `main` with the value of its `return`.
pub proof fn lemma_stmt_code_runs(
    p: Seq<Instr>,
    b: int,
    n: NodeView,
    c: nat,
    s: MachineState,
    env: Map<int, int>,
) -> (k: nat)
    requires
        is_stmt(n),
        c + if_count(n) <= u64::MAX,
        0 <= b,
        b + gen_code(n, c).len() <= p.len(),
        p.subrange(b, b + gen_code(n, c).len()) == gen_code(n, c),
        forall|l: Label| label_count(p, l) <= 1,
        s.mem == frame(env, s.rbp),
        values_i32(env),
        exec_stmt(n, env) is Some,
    ensures
        ends_as(steps(p, b, s, k), b + gen_code(n, c).len(), s, exec_stmt(n, env)->0),
    decreases n,
{
    let code = gen_code(n, c);
    match n {
        NodeView::Return(e) => {
            let ce = gen_code(*e, c);
            let le = ce.len() as int;
            lemma_expr_code_evaluates(*e, c, s, env);
            assert(code == ce + epilogue());
            lemma_piece(p, b, code, 0, le);
            assert(code.subrange(0, le) =~= ce);
            lemma_straight_steps(p, b, ce, s);
            let s1 = run(ce, s)->0;
            let (v, _) = eval(*e, env)->0;
            assert(p[b + le] == Instr::Pop(Reg::Rax)) by {
                lemma_piece(p, b, code, le, le + 1);
                assert(code[le] == Instr::Pop(Reg::Rax));
            }
            assert(p[b + le + 1] == Instr::MovRspRbp) by {
                lemma_piece(p, b, code, le + 1, le + 2);
                assert(code[le + 1] == Instr::MovRspRbp);
            }
            assert(s1.stack.drop_last() =~= s.stack);
            let s2 = set_reg(MachineState { stack: s1.stack.drop_last(), ..s1 }, Reg::Rax, v);
            assert(cpu_step(p, b + le, s1) == Ok::<(int, MachineState), Stop>((b + le + 1, s2)));
            lemma_steps_then(p, b, s, le as nat, 2, b + le, s1);
            lemma_one_step(p, b + le + 1, s2);
            assert(steps(p, b + le, s1, 2) == steps(p, b + le + 1, s2, 1));
            (le + 2) as nat
        },
        NodeView::If { cond, i_st, e_st } => {
            lemma_if_code_runs(p, b, n, c, s, env)
        },
        NodeView::Block(ss) => {
            lemma_block_code_runs(p, b, ss, c, s, env)
        },
        _ => {
            lemma_expr_code_evaluates(n, c, s, env);
            lemma_straight_steps(p, b, code, s);
            code.len()
        },
    }
}

proof fn lemma_if_code_runs(
    p: Seq<Instr>,
    b: int,
    n: NodeView,
    c: nat,
    s: MachineState,
    env: Map<int, int>,
) -> (k: nat)
    requires
        n is If,
        is_stmt(n),
        c + if_count(n) <= u64::MAX,
        0 <= b,
        b + gen_code(n, c).len() <= p.len(),
        p.subrange(b, b + gen_code(n, c).len()) == gen_code(n, c),
        forall|l: Label| label_count(p, l) <= 1,
        s.mem == frame(env, s.rbp),
        values_i32(env),
        exec_stmt(n, env) is Some,
    ensures
        ends_as(steps(p, b, s, k), b + gen_code(n, c).len(), s, exec_stmt(n, env)->0),
    decreases n, 0nat,
{
    let cond = *n->If_cond;
    let i_st = *n->If_i_st;
    let e_st = *n->If_e_st;
    let code = gen_code(n, c);
    let id = c as u64;
    let c_cond = gen_code(cond, c + 1);
    let c_test = seq![Instr::Pop(Reg::Rax), Instr::CmpZero, Instr::Je(Label::Else(id))];
    let c_then = gen_code(i_st, c + 1);
    let c_jump = seq![Instr::Jmp(Label::End(id)), Instr::Label(Label::Else(id))];
    let c_else = gen_code(e_st, c + 1 + if_count(i_st));
    let c_end = seq![Instr::Label(Label::End(id))];
    assert(code == c_cond + c_test + c_then + c_jump + c_else + c_end);
    let l1 = c_cond.len() as int;
    let l3 = c_then.len() as int;
    let l5 = c_else.len() as int;
    let b1 = b + l1;
    let b2 = b1 + 3;
    let t = b2 + l3;
    let b3 = t + 2;
    let u = b3 + l5;
    assert(code.len() == l1 + 3 + l3 + 2 + l5 + 1);
    // where each piece stands
    lemma_piece(p, b, code, 0, l1);
    assert(code.subrange(0, l1) =~= c_cond);
    lemma_piece(p, b, code, l1, l1 + 3);
    assert(code.subrange(l1, l1 + 3) =~= c_test);
    lemma_piece(p, b, code, l1 + 3, l1 + 3 + l3);
    assert(code.subrange(l1 + 3, l1 + 3 + l3) =~= c_then);
    lemma_piece(p, b, code, l1 + 3 + l3, l1 + 5 + l3);
    assert(code.subrange(l1 + 3 + l3, l1 + 5 + l3) =~= c_jump);
    lemma_piece(p, b, code, l1 + 5 + l3, l1 + 5 + l3 + l5);
    assert(code.subrange(l1 + 5 + l3, l1 + 5 + l3 + l5) =~= c_else);
    lemma_piece(p, b, code, l1 + 5 + l3 + l5, l1 + 6 + l3 + l5);
    assert(code.subrange(l1 + 5 + l3 + l5, l1 + 6 + l3 + l5) =~= c_end);
    assert(p[b1] == Instr::Pop(Reg::Rax));
    assert(p[b1 + 1] == Instr::CmpZero);
    assert(p[b1 + 2] == Instr::Je(Label::Else(id)));
    assert(p[t] == Instr::Jmp(Label::End(id)));
    assert(p[t + 1] == Instr::Label(Label::Else(id)));
    assert(p.subrange(u, u + 1) == c_end);
    assert(p[u] == p.subrange(u, u + 1)[0]);
    assert(p[u] == Instr::Label(Label::End(id)));
    lemma_label_pos(p, t + 1, Label::Else(id));
    lemma_label_pos(p, u, Label::End(id));
    // the condition
    lemma_expr_code_evaluates(cond, c + 1, s, env);
    lemma_straight_steps(p, b, c_cond, s);
    let (v, env1) = eval(cond, env)->0;
    let s1 = run(c_cond, s)->0;
    assert(s1.stack.drop_last() =~= s.stack);
    let s2 = set_reg(MachineState { stack: s1.stack.drop_last(), ..s1 }, Reg::Rax, v);
    let s3 = MachineState { cmp: (v, 0), ..s2 };
    assert(cpu_step(p, b1, s1) == Ok::<(int, MachineState), Stop>((b1 + 1, s2)));
    assert(cpu_step(p, b1 + 1, s2) == Ok::<(int, MachineState), Stop>((b1 + 2, s3)));
    lemma_steps_then(p, b, s, l1 as nat, 1, b1, s1);
    lemma_one_step(p, b1, s1);
    lemma_steps_then(p, b, s, (l1 + 1) as nat, 1, b1 + 1, s2);
    lemma_one_step(p, b1 + 1, s2);
    lemma_one_step(p, b1 + 2, s3);
    assert(s3.stack == s.stack && s3.mem == frame(env1, s.rbp) && s3.rbp == s.rbp);
    if v != 0 {
        assert(cpu_step(p, b1 + 2, s3) == Ok::<(int, MachineState), Stop>((b2, s3)));
        lemma_steps_then(p, b, s, (l1 + 2) as nat, 1, b1 + 2, s3);
        let kt = lemma_stmt_code_runs(p, b2, i_st, c + 1, s3, env1);
        lemma_steps_then(p, b, s, (l1 + 3) as nat, kt, b2, s3);
        match exec_stmt(i_st, env1)->0 {
            Outcome::Normal(w, env2) => {
                let s4 = steps(p, b2, s3, kt)->Ok_0.1;
                lemma_steps_then(p, b, s, (l1 + 3 + kt) as nat, 2, t, s4);
                lemma_one_step(p, t, s4);
                lemma_one_step(p, u, s4);
                assert(cpu_step(p, t, s4) == Ok::<(int, MachineState), Stop>((u, s4)));
                assert(cpu_step(p, u, s4) == Ok::<(int, MachineState), Stop>((u + 1, s4)));
                lemma_steps_then(p, t, s4, 1, 1, u, s4);
                (l1 + 3 + kt + 2) as nat
            },
            Outcome::Returned(w) => (l1 + 3 + kt) as nat,
        }
    } else {
        assert(cpu_step(p, b1 + 2, s3) == Ok::<(int, MachineState), Stop>((t + 1, s3)));
        lemma_steps_then(p, b, s, (l1 + 2) as nat, 1, b1 + 2, s3);
        assert(cpu_step(p, t + 1, s3) == Ok::<(int, MachineState), Stop>((b3, s3)));
        lemma_one_step(p, t + 1, s3);
        lemma_steps_then(p, b, s, (l1 + 3) as nat, 1, t + 1, s3);
        let ke = lemma_stmt_code_runs(p, b3, e_st, c + 1 + if_count(i_st), s3, env1);
        lemma_steps_then(p, b, s, (l1 + 4) as nat, ke, b3, s3);
        match exec_stmt(e_st, env1)->0 {
            Outcome::Normal(w, env2) => {
                let s4 = steps(p, b3, s3, ke)->Ok_0.1;
                lemma_steps_then(p, b, s, (l1 + 4 + ke) as nat, 1, u, s4);
                lemma_one_step(p, u, s4);
                assert(cpu_step(p, u, s4) == Ok::<(int, MachineState), Stop>((u + 1, s4)));
                (l1 + 4 + ke + 1) as nat
            },
            Outcome::Returned(w) => (l1 + 4 + ke) as nat,
        }
    }
}

proof fn lemma_block_code_runs(
    p: Seq<Instr>,
    b: int,
    ss: Seq<NodeView>,
    c: nat,
    s: MachineState,
    env: Map<int, int>,
) -> (k: nat)
    requires
        are_stmts(ss),
        c + if_count_seq(ss) <= u64::MAX,
        0 <= b,
        b + gen_block(ss, c).len() <= p.len(),
        p.subrange(b, b + gen_block(ss, c).len()) == gen_block(ss, c),
        forall|l: Label| label_count(p, l) <= 1,
        s.mem == frame(env, s.rbp),
        values_i32(env),
        exec_block(ss, env) is Some,
    ensures
        ends_as(steps(p, b, s, k), b + gen_block(ss, c).len(), s, exec_block(ss, env)->0),
    decreases ss,
{
    let code = gen_block(ss, c);
    if ss.len() == 0 {
        lemma_run_one(Instr::PushImm(0), s);
        lemma_straight_steps(p, b, code, s);
        1
    } else if ss.len() == 1 {
        lemma_stmt_code_runs(p, b, ss[0], c, s, env)
    } else {
        let d = ss.drop_last();
        let last = ss.last();
        let cd = gen_block(d, c);
        let cl = gen_code(last, c + if_count_seq(d));
        let ld = cd.len() as int;
        assert(code == cd + seq![Instr::Pop(Reg::Rax)] + cl);
        lemma_piece(p, b, code, 0, ld);
        assert(code.subrange(0, ld) =~= cd);
        lemma_piece(p, b, code, ld + 1, code.len() as int);
        assert(code.subrange(ld + 1, code.len() as int) =~= cl);
        assert(p[b + ld] == Instr::Pop(Reg::Rax)) by {
            lemma_piece(p, b, code, ld, ld + 1);
            assert(code[ld] == Instr::Pop(Reg::Rax));
        }
        let k1 = lemma_block_code_runs(p, b, d, c, s, env);
        match exec_block(d, env)->0 {
            Outcome::Normal(v0, env1) => {
                let s1 = steps(p, b, s, k1)->Ok_0.1;
                assert(s1.stack.drop_last() =~= s.stack);
                let s2 = set_reg(MachineState { stack: s1.stack.drop_last(), ..s1 }, Reg::Rax, v0);
                assert(cpu_step(p, b + ld, s1) == Ok::<(int, MachineState), Stop>((b + ld + 1, s2)));
                lemma_one_step(p, b + ld, s1);
                lemma_steps_then(p, b, s, k1, 1, b + ld, s1);
                let k2 = lemma_stmt_code_runs(p, b + ld + 1, last, c + if_count_seq(d), s2, env1);
                lemma_steps_then(p, b, s, k1 + 1, k2, b + ld + 1, s2);
                (k1 + 1 + k2) as nat
            },
            Outcome::Returned(v) => k1,
        }
    }
}

/// What the statements of a program do, one after another, from the value
/// `rax` in `rax`: a normal end carries the value of the last statement
/// (`rax` itself when there is none) and the variables after it.
pub open spec fn exec_program(ss: Seq<NodeView>, env: Map<int, int>, rax: int) -> Option<Outcome>
    decreases ss,
{
    if ss.len() == 0 {
        Some(Outcome::Normal(rax, env))
    } else {
        match exec_program(ss.drop_last(), env, rax) {
            Some(Outcome::Normal(_, env1)) => exec_stmt(ss.last(), env1),
            other => other,
        }
    }
}

/// What `main` returns after an outcome of its body.
pub open spec fn main_result(o: Outcome) -> int {
    match o {
        Outcome::Normal(v, _) => v,
        Outcome::Returned(v) => v,
    }
}

proof fn lemma_prefix_runs(p: Seq<Instr>, ss: Seq<NodeView>, s: MachineState, env: Map<int, int>) -> (k: nat)
    requires
        are_stmts(ss),
        if_count_seq(ss) <= u64::MAX,
        gen_program_code(ss, 0).len() <= p.len(),
        p.subrange(0, gen_program_code(ss, 0).len() as int) == gen_program_code(ss, 0),
        forall|l: Label| label_count(p, l) <= 1,
        s.mem == frame(env, s.rbp),
        values_i32(env),
        exec_program(ss, env, s.rax) is Some,
    ensures
        match exec_program(ss, env, s.rax)->0 {
            Outcome::Normal(r, env2) => {
                &&& steps(p, 0, s, k) is Ok
                &&& steps(p, 0, s, k)->Ok_0.0 == gen_program_code(ss, 0).len()
                &&& steps(p, 0, s, k)->Ok_0.1.rax == r
                &&& steps(p, 0, s, k)->Ok_0.1.stack == s.stack
                &&& steps(p, 0, s, k)->Ok_0.1.mem == frame(env2, s.rbp)
                &&& steps(p, 0, s, k)->Ok_0.1.rbp == s.rbp
                &&& values_i32(env2)
            },
            Outcome::Returned(v) => steps(p, 0, s, k) == Err::<(int, MachineState), Stop>(Stop::Halt(v)),
        },
    decreases ss.len(),
{
    if ss.len() == 0 {
        0
    } else {
        let d = ss.drop_last();
        let last = ss.last();
        let code = gen_program_code(ss, 0);
        let cd = gen_program_code(d, 0);
        let cl = gen_code(last, if_count_seq(d));
        let ld = cd.len() as int;
        let ll = cl.len() as int;
        assert(code == cd + cl + seq![Instr::Pop(Reg::Rax)]);
        lemma_piece(p, 0, code, 0, ld);
        assert(code.subrange(0, ld) =~= cd);
        let k1 = lemma_prefix_runs(p, d, s, env);
        match exec_program(d, env, s.rax)->0 {
            Outcome::Normal(r, env1) => {
                let s1 = steps(p, 0, s, k1)->Ok_0.1;
                lemma_piece(p, 0, code, ld, ld + ll);
                assert(code.subrange(ld, ld + ll) =~= cl);
                let k2 = lemma_stmt_code_runs(p, ld, last, if_count_seq(d), s1, env1);
                lemma_steps_then(p, 0, s, k1, k2, ld, s1);
                match exec_stmt(last, env1)->0 {
                    Outcome::Normal(v, env2) => {
                        let s2 = steps(p, ld, s1, k2)->Ok_0.1;
                        assert(p[ld + ll] == Instr::Pop(Reg::Rax)) by {
                            lemma_piece(p, 0, code, ld + ll, ld + ll + 1);
                            assert(code[ld + ll] == Instr::Pop(Reg::Rax));
                        }
                        assert(s2.stack.drop_last() =~= s.stack);
                        let s3 = set_reg(MachineState { stack: s2.stack.drop_last(), ..s2 }, Reg::Rax, v);
                        assert(cpu_step(p, ld + ll, s2) == Ok::<(int, MachineState), Stop>((ld + ll + 1, s3)));
                        lemma_one_step(p, ld + ll, s2);
                        lemma_steps_then(p, 0, s, k1 + k2, 1, ld + ll, s2);
                        (k1 + k2 + 1) as nat
                    },
                    Outcome::Returned(v) => k1 + k2,
                }
            },
            Outcome::Returned(v) => k1,
        }
    }
}

/// Running the code of a well-formed program from its first instruction,
/// with the variables of `env` in the frame, stops with what `main` returns:
/// the value of the first `return` that runs, or else the value of the last
/// statement.
pub proof fn lemma_program_returns(ss: Seq<NodeView>, s: MachineState, env: Map<int, int>) -> (k: nat)
    requires
        are_stmts(ss),
        if_count_seq(ss) <= u64::MAX,
        s.mem == frame(env, s.rbp),
        values_i32(env),
        exec_program(ss, env, s.rax) is Some,
    ensures
        steps(gen_program_code(ss, 0), 0, s, k) == Err::<(int, MachineState), Stop>(
            Stop::Halt(main_result(exec_program(ss, env, s.rax)->0)),
        ),
{
    let p = gen_program_code(ss, 0);
    assert forall|l: Label| label_count(p, l) <= 1 by {
        lemma_program_labels_distinct(ss, l);
    }
    assert(p.subrange(0, p.len() as int) =~= p);
    let k = lemma_prefix_runs(p, ss, s, env);
    match exec_program(ss, env, s.rax)->0 {
        Outcome::Normal(r, env2) => {
            let s1 = steps(p, 0, s, k)->Ok_0.1;
            lemma_one_step(p, p.len() as int, s1);
            lemma_steps_then(p, 0, s, k, 1, p.len() as int, s1);
            k + 1
        },
        Outcome::Returned(v) => k,
    }
}

} // verus!
