//! Code generation: each statement becomes x86-64 instructions that, run
//! against the machine stack, leave exactly one value on it.

use vstd::prelude::*;
use crate::parse::{
    Node, NodeKind, NodeView, nodes_view, is_stmt, are_stmts, if_count,
    if_count_seq, lemma_nodes_view, lemma_are_stmts, lemma_if_count_take, lemma_expr_is_stmt,
};

verus! {

broadcast use vstd::std_specs::vec::group_vec_axioms;

/// A register that an instruction names.
#[derive(Clone, Copy, Debug, PartialEq, Eq, Structural)]
pub enum Reg {
    Rax,
    Rdi,
    Rbp,
}

/// The condition that a `set` instruction tests after a comparison.
#[derive(Clone, Copy, Debug, PartialEq, Eq, Structural)]
pub enum Cond {
    Eq,
    Ne,
    Lt,
    Le,
}

/// A jump target: the two labels of the `if` with the given number.
#[derive(Clone, Copy, Debug, PartialEq, Eq, Hash, Structural)]
pub enum Label {
    Else(u64),
    End(u64),
}

/// One line of assembly.
#[derive(Clone, Copy, Debug, PartialEq, Eq, Structural)]
pub enum Instr {
    /// `push v`
    PushImm(i32),
    /// `push r`
    Push(Reg),
    /// `pop r`
    Pop(Reg),
    /// `mov rax, rbp`
    MovRaxRbp,
    /// `sub rax, v`
    SubRaxImm(i32),
    /// `mov rax, [rax]`
    Load,
    /// `mov [rax], rdi`
    Store,
    /// `add rax, rdi`
    Add,
    /// `sub rax, rdi`
    Sub,
    /// `imul rax, rdi`
    Imul,
    /// `cqo`
    Cqo,
    /// `idiv rdi`
    Idiv,
    /// `movsxd rax, eax`: cuts `rax` back to a sign-extended 32-bit value
    Movsxd,
    /// `cmp rax, rdi`
    Cmp,
    /// `cmp rax, 0`
    CmpZero,
    /// `sete al`, `setne al`, `setl al` or `setle al`
    SetCc(Cond),
    /// `movzb rax, al`
    Movzb,
    /// `mov rsp, rbp`
    MovRspRbp,
    /// `ret`
    Ret,
    /// `je label`
    Je(Label),
    /// `jmp label`
    Jmp(Label),
    /// `label:`
    Label(Label),
}

/// Pushes the address of the variable at frame offset `off`.
pub open spec fn lval_code(off: i32) -> Seq<Instr> {
    seq![Instr::MovRaxRbp, Instr::SubRaxImm(off), Instr::Push(Reg::Rax)]
}

/// Combines `rax` (left operand) and `rdi` (right operand) into `rax`. The
/// arithmetic instructions work on 64 bits, so their result is cut back to
/// the language's 32 bits.
pub open spec fn op_code(kind: NodeKind) -> Seq<Instr> {
    match kind {
        NodeKind::NdAdd => seq![Instr::Add, Instr::Movsxd],
        NodeKind::NdSub => seq![Instr::Sub, Instr::Movsxd],
        NodeKind::NdMul => seq![Instr::Imul, Instr::Movsxd],
        NodeKind::NdDiv => seq![Instr::Cqo, Instr::Idiv, Instr::Movsxd],
        NodeKind::NdEq => seq![Instr::Cmp, Instr::SetCc(Cond::Eq), Instr::Movzb],
        NodeKind::NdNEq => seq![Instr::Cmp, Instr::SetCc(Cond::Ne), Instr::Movzb],
        NodeKind::NdLt => seq![Instr::Cmp, Instr::SetCc(Cond::Lt), Instr::Movzb],
        NodeKind::NdLe => seq![Instr::Cmp, Instr::SetCc(Cond::Le), Instr::Movzb],
        _ => seq![],
    }
}

/// The function epilogue that a `return` jumps out through.
pub open spec fn epilogue() -> Seq<Instr> {
    seq![Instr::Pop(Reg::Rax), Instr::MovRspRbp, Instr::Pop(Reg::Rbp), Instr::Ret]
}

/// The code for `n`, where `c` is the number of the first `if` in it; the
/// `if` statements of `n` are numbered `c, c + 1, ...` in source order.
pub open spec fn gen_code(n: NodeView, c: nat) -> Seq<Instr>
    decreases n,
{
    match n {
        NodeView::Number(v) => seq![Instr::PushImm(v)],
        NodeView::LVar(off) => lval_code(off) + seq![Instr::Pop(Reg::Rax), Instr::Load, Instr::Push(Reg::Rax)],
        NodeView::Operator { kind, lhs, rhs } => if kind == NodeKind::NdAssign {
            match *lhs {
                NodeView::LVar(off) => lval_code(off) + gen_code(*rhs, c) + seq![
                    Instr::Pop(Reg::Rdi),
                    Instr::Pop(Reg::Rax),
                    Instr::Store,
                    Instr::Push(Reg::Rdi),
                ],
                _ => seq![],
            }
        } else {
            gen_code(*lhs, c) + gen_code(*rhs, c) + seq![Instr::Pop(Reg::Rdi), Instr::Pop(Reg::Rax)]
                + op_code(kind) + seq![Instr::Push(Reg::Rax)]
        },
        NodeView::Return(e) => gen_code(*e, c) + epilogue(),
        NodeView::If { cond, i_st, e_st } => {
            let id = c as u64;
            gen_code(*cond, c + 1) + seq![
                Instr::Pop(Reg::Rax),
                Instr::CmpZero,
                Instr::Je(Label::Else(id)),
            ] + gen_code(*i_st, c + 1) + seq![Instr::Jmp(Label::End(id)), Instr::Label(Label::Else(id))]
                + gen_code(*e_st, c + 1 + if_count(*i_st)) + seq![Instr::Label(Label::End(id))]
        },
        NodeView::Block(ss) => gen_block(ss, c),
        _ => seq![],
    }
}

/// The statements of a block, each leftover value but the last discarded;
/// an empty block leaves a zero.
pub open spec fn gen_block(ss: Seq<NodeView>, c: nat) -> Seq<Instr>
    decreases ss,
{
    if ss.len() == 0 {
        seq![Instr::PushImm(0)]
    } else if ss.len() == 1 {
        gen_code(ss[0], c)
    } else {
        gen_block(ss.drop_last(), c) + seq![Instr::Pop(Reg::Rax)] + gen_code(
            ss.last(),
            c + if_count_seq(ss.drop_last()),
        )
    }
}

/// Pushes the address of the variable at frame offset `offset`.
fn gen_lval(offset: i32, out: &mut Vec<Instr>)
    ensures
        final(out)@ == old(out)@ + lval_code(offset),
{
    out.push(Instr::MovRaxRbp);
    out.push(Instr::SubRaxImm(offset));
    out.push(Instr::Push(Reg::Rax));
    assert(out@ =~= old(out)@ + lval_code(offset));
}

fn gen_op(kind: NodeKind, out: &mut Vec<Instr>)
    ensures
        final(out)@ == old(out)@ + op_code(kind),
{
    match kind {
        NodeKind::NdAdd => {
            out.push(Instr::Add);
            out.push(Instr::Movsxd);
        },
        NodeKind::NdSub => {
            out.push(Instr::Sub);
            out.push(Instr::Movsxd);
        },
        NodeKind::NdMul => {
            out.push(Instr::Imul);
            out.push(Instr::Movsxd);
        },
        NodeKind::NdDiv => {
            out.push(Instr::Cqo);
            out.push(Instr::Idiv);
            out.push(Instr::Movsxd);
        },
        NodeKind::NdEq => {
            out.push(Instr::Cmp);
            out.push(Instr::SetCc(Cond::Eq));
            out.push(Instr::Movzb);
        },
        NodeKind::NdNEq => {
            out.push(Instr::Cmp);
            out.push(Instr::SetCc(Cond::Ne));
            out.push(Instr::Movzb);
        },
        NodeKind::NdLt => {
            out.push(Instr::Cmp);
            out.push(Instr::SetCc(Cond::Lt));
            out.push(Instr::Movzb);
        },
        NodeKind::NdLe => {
            out.push(Instr::Cmp);
            out.push(Instr::SetCc(Cond::Le));
            out.push(Instr::Movzb);
        },
        _ => {},
    }
    assert(out@ =~= old(out)@ + op_code(kind));
}

/// Appends the code for one well-formed statement or expression to `out`.
/// `label` is the number of the next `if`; every `if` takes a fresh one, so
/// no two `if` statements of a compilation share a label.
pub fn gen(node: &Node, label: &mut u64, out: &mut Vec<Instr>)
    requires
        is_stmt(node@),
        *old(label) + if_count(node@) <= u64::MAX,
    ensures
        final(out)@ == old(out)@ + gen_code(node@, *old(label) as nat),
        *final(label) == *old(label) + if_count(node@),
    decreases node,
{
    let ghost c = *label as nat;
    match node {
        Node::Number { val } => {
            out.push(Instr::PushImm(*val));
            assert(out@ =~= old(out)@ + gen_code(node@, c));
        },
        Node::LVar { offset } => {
            gen_lval(*offset, out);
            out.push(Instr::Pop(Reg::Rax));
            out.push(Instr::Load);
            out.push(Instr::Push(Reg::Rax));
            assert(out@ =~= old(out)@ + gen_code(node@, c));
        },
        Node::Operator { kind, lhs, rhs } => {
            proof {
                lemma_expr_is_stmt(lhs@);
                lemma_expr_is_stmt(rhs@);
            }
            if let NodeKind::NdAssign = kind {
                if let Node::LVar { offset } = &**lhs {
                    gen_lval(*offset, out);
                    gen(rhs, label, out);
                    out.push(Instr::Pop(Reg::Rdi));
                    out.push(Instr::Pop(Reg::Rax));
                    out.push(Instr::Store);
                    out.push(Instr::Push(Reg::Rdi));
                    assert(out@ =~= old(out)@ + gen_code(node@, c));
                }
            } else {
                gen(lhs, label, out);
                gen(rhs, label, out);
                out.push(Instr::Pop(Reg::Rdi));
                out.push(Instr::Pop(Reg::Rax));
                gen_op(*kind, out);
                out.push(Instr::Push(Reg::Rax));
                assert(out@ =~= old(out)@ + gen_code(node@, c));
            }
        },
        Node::Return(e) => {
            proof {
                lemma_expr_is_stmt(e@);
            }
            gen(e, label, out);
            out.push(Instr::Pop(Reg::Rax));
            out.push(Instr::MovRspRbp);
            out.push(Instr::Pop(Reg::Rbp));
            out.push(Instr::Ret);
            assert(out@ =~= old(out)@ + gen_code(node@, c));
        },
        Node::If { cond, i_st, e_st } => {
            proof {
                lemma_expr_is_stmt(cond@);
            }
            let id = *label;
            *label = id + 1;
            gen(cond, label, out);
            out.push(Instr::Pop(Reg::Rax));
            out.push(Instr::CmpZero);
            out.push(Instr::Je(Label::Else(id)));
            gen(i_st, label, out);
            out.push(Instr::Jmp(Label::End(id)));
            out.push(Instr::Label(Label::Else(id)));
            gen(e_st, label, out);
            out.push(Instr::Label(Label::End(id)));
            assert(out@ =~= old(out)@ + gen_code(node@, c));
        },
        Node::Block(ss) => {
            gen_stmts(ss, label, out);
        },
        _ => {},
    }
}

/// Appends the code for the statements of a block.
fn gen_stmts(ss: &Vec<Node>, label: &mut u64, out: &mut Vec<Instr>)
    requires
        are_stmts(nodes_view(ss@)),
        *old(label) + if_count_seq(nodes_view(ss@)) <= u64::MAX,
    ensures
        final(out)@ == old(out)@ + gen_block(nodes_view(ss@), *old(label) as nat),
        *final(label) == *old(label) + if_count_seq(nodes_view(ss@)),
    decreases ss,
{
    let ghost c = *label as nat;
    let ghost vs = nodes_view(ss@);
    proof {
        lemma_nodes_view(ss@);
        lemma_are_stmts(vs);
    }
    if ss.len() == 0 {
        out.push(Instr::PushImm(0));
        assert(out@ =~= old(out)@ + gen_block(vs, c));
        return;
    }
    proof {
        lemma_if_count_take(vs, 0);
        lemma_if_count_take(vs, 1);
        assert(vs.take(0) =~= seq![]);
        assert(vs.take(1) =~= seq![vs[0]]);
    }
    gen(&ss[0], label, out);
    let mut k: usize = 1;
    while k < ss.len()
        invariant
            1 <= k <= ss.len(),
            vs == nodes_view(ss@),
            vs.len() == ss.len(),
            forall|j: int| 0 <= j < ss.len() ==> #[trigger] vs[j] == ss@[j]@,
            forall|j: int| 0 <= j < vs.len() ==> is_stmt(#[trigger] vs[j]),
            c + if_count_seq(vs) <= u64::MAX,
            *label == c + if_count_seq(vs.take(k as int)),
            out@ == old(out)@ + gen_block(vs.take(k as int), c),
        decreases ss.len() - k,
    {
        proof {
            lemma_if_count_take(vs, k as int);
            lemma_if_count_take(vs, k as int + 1);
        }
        out.push(Instr::Pop(Reg::Rax));
        gen(&ss[k], label, out);
        proof {
            let t = vs.take(k as int + 1);
            assert(t.drop_last() =~= vs.take(k as int));
            assert(t.last() == vs[k as int]);
            assert(out@ =~= old(out)@ + gen_block(t, c));
        }
        k += 1;
    }
    assert(vs.take(k as int) =~= vs);
}

/// The code for a whole program: each statement, followed by a discard of
/// the value it leaves.
pub open spec fn gen_program_code(ss: Seq<NodeView>, c: nat) -> Seq<Instr>
    decreases ss,
{
    if ss.len() == 0 {
        seq![]
    } else {
        gen_program_code(ss.drop_last(), c) + gen_code(ss.last(), c + if_count_seq(ss.drop_last()))
            + seq![Instr::Pop(Reg::Rax)]
    }
}

/// The code for the statements of a program, with `if` statements
/// numbered from 0.
pub fn gen_program(code: &Vec<Node>) -> (out: Vec<Instr>)
    requires
        are_stmts(nodes_view(code@)),
        if_count_seq(nodes_view(code@)) <= u64::MAX,
    ensures
        out@ == gen_program_code(nodes_view(code@), 0),
{
    let ghost vs = nodes_view(code@);
    proof {
        lemma_nodes_view(code@);
        lemma_are_stmts(vs);
    }
    let mut out: Vec<Instr> = Vec::new();
    let mut label: u64 = 0;
    let mut k: usize = 0;
    assert(vs.take(0) =~= seq![]);
    while k < code.len()
        invariant
            k <= code.len(),
            vs == nodes_view(code@),
            vs.len() == code.len(),
            forall|j: int| 0 <= j < code.len() ==> #[trigger] vs[j] == code@[j]@,
            forall|j: int| 0 <= j < vs.len() ==> is_stmt(#[trigger] vs[j]),
            if_count_seq(vs) <= u64::MAX,
            label == if_count_seq(vs.take(k as int)),
            out@ == gen_program_code(vs.take(k as int), 0),
        decreases code.len() - k,
    {
        proof {
            lemma_if_count_take(vs, k as int);
            lemma_if_count_take(vs, k as int + 1);
        }
        gen(&code[k], &mut label, &mut out);
        out.push(Instr::Pop(Reg::Rax));
        proof {
            let t = vs.take(k as int + 1);
            assert(t.drop_last() =~= vs.take(k as int));
            assert(t.last() == vs[k as int]);
            assert(out@ =~= gen_program_code(t, 0));
        }
        k += 1;
    }
    assert(vs.take(k as int) =~= vs);
    out
}

/// The number of the `if` that a label belongs to.
pub open spec fn label_id(l: Label) -> u64 {
    match l {
        Label::Else(k) => k,
        Label::End(k) => k,
    }
}

/// How many times `code` defines the label `l`.
pub open spec fn label_count(code: Seq<Instr>, l: Label) -> nat
    decreases code.len(),
{
    if code.len() == 0 {
        0
    } else {
        label_count(code.drop_last(), l) + if code.last() == Instr::Label(l) {
            1nat
        } else {
            0nat
        }
    }
}

pub proof fn lemma_label_count_concat(a: Seq<Instr>, b: Seq<Instr>, l: Label)
    ensures
        label_count(a + b, l) == label_count(a, l) + label_count(b, l),
    decreases b.len(),
{
    if b.len() == 0 {
        assert(a + b =~= a);
    } else {
        assert((a + b).drop_last() =~= a + b.drop_last());
        lemma_label_count_concat(a, b.drop_last(), l);
    }
}

proof fn lemma_label_count_none(code: Seq<Instr>, l: Label)
    requires
        forall|i: int| 0 <= i < code.len() ==> !(#[trigger] code[i] is Label),
    ensures
        label_count(code, l) == 0,
    decreases code.len(),
{
    if code.len() > 0 {
        lemma_label_count_none(code.drop_last(), l);
    }
}

proof fn lemma_label_count_one(code: Seq<Instr>, m: Label, l: Label)
    requires
        code == seq![Instr::Label(m)],
    ensures
        label_count(code, l) == if m == l { 1nat } else { 0nat },
{
    assert(code.drop_last() =~= seq![]);
    assert(label_count(code.drop_last(), l) == 0);
}

/// The labels of the code for a statement: for each `if` in it, numbered
/// from `c`, its `else` label and its end label once each, and no other.
pub proof fn lemma_gen_labels(n: NodeView, c: nat, l: Label)
    requires
        is_stmt(n),
        c + if_count(n) <= u64::MAX,
    ensures
        label_count(gen_code(n, c), l) == if c <= label_id(l) < c + if_count(n) {
            1nat
        } else {
            0nat
        },
    decreases n,
{
    match n {
        NodeView::Number(v) => {
            lemma_label_count_none(gen_code(n, c), l);
        },
        NodeView::LVar(off) => {
            lemma_label_count_none(gen_code(n, c), l);
        },
        NodeView::Operator { kind, lhs, rhs } => {
            lemma_expr_is_stmt(*lhs);
            lemma_expr_is_stmt(*rhs);
            lemma_gen_labels(*rhs, c, l);
            if kind == NodeKind::NdAssign {
                let off = lhs->LVar_0;
                let tail = seq![
                    Instr::Pop(Reg::Rdi),
                    Instr::Pop(Reg::Rax),
                    Instr::Store,
                    Instr::Push(Reg::Rdi),
                ];
                lemma_label_count_none(lval_code(off), l);
                lemma_label_count_none(tail, l);
                lemma_label_count_concat(lval_code(off), gen_code(*rhs, c), l);
                lemma_label_count_concat(lval_code(off) + gen_code(*rhs, c), tail, l);
            } else {
                lemma_gen_labels(*lhs, c, l);
                let a = gen_code(*lhs, c);
                let b = gen_code(*rhs, c);
                let p = seq![Instr::Pop(Reg::Rdi), Instr::Pop(Reg::Rax)];
                let o = op_code(kind);
                let q = seq![Instr::Push(Reg::Rax)];
                lemma_label_count_none(p, l);
                lemma_label_count_none(o, l);
                lemma_label_count_none(q, l);
                lemma_label_count_concat(a, b, l);
                lemma_label_count_concat(a + b, p, l);
                lemma_label_count_concat(a + b + p, o, l);
                lemma_label_count_concat(a + b + p + o, q, l);
            }
        },
        NodeView::Return(e) => {
            lemma_expr_is_stmt(*e);
            lemma_gen_labels(*e, c, l);
            lemma_label_count_none(epilogue(), l);
            lemma_label_count_concat(gen_code(*e, c), epilogue(), l);
        },
        NodeView::If { cond, i_st, e_st } => {
            let id = c as u64;
            lemma_expr_is_stmt(*cond);
            lemma_gen_labels(*cond, c + 1, l);
            lemma_gen_labels(*i_st, c + 1, l);
            lemma_gen_labels(*e_st, c + 1 + if_count(*i_st), l);
            let c_cond = gen_code(*cond, c + 1);
            let c_test = seq![Instr::Pop(Reg::Rax), Instr::CmpZero, Instr::Je(Label::Else(id))];
            let c_then = gen_code(*i_st, c + 1);
            let c_jump = seq![Instr::Jmp(Label::End(id)), Instr::Label(Label::Else(id))];
            let c_else = gen_code(*e_st, c + 1 + if_count(*i_st));
            let c_end = seq![Instr::Label(Label::End(id))];
            lemma_label_count_none(c_test, l);
            lemma_label_count_concat(seq![Instr::Jmp(Label::End(id))], seq![Instr::Label(Label::Else(id))], l);
            assert(c_jump =~= seq![Instr::Jmp(Label::End(id))] + seq![Instr::Label(Label::Else(id))]);
            lemma_label_count_none(seq![Instr::Jmp(Label::End(id))], l);
            lemma_label_count_one(seq![Instr::Label(Label::Else(id))], Label::Else(id), l);
            lemma_label_count_one(c_end, Label::End(id), l);
            lemma_label_count_concat(c_cond, c_test, l);
            lemma_label_count_concat(c_cond + c_test, c_then, l);
            lemma_label_count_concat(c_cond + c_test + c_then, c_jump, l);
            lemma_label_count_concat(c_cond + c_test + c_then + c_jump, c_else, l);
            lemma_label_count_concat(c_cond + c_test + c_then + c_jump + c_else, c_end, l);
        },
        NodeView::Block(ss) => {
            lemma_block_labels(ss, c, l);
        },
        _ => {},
    }
}

pub proof fn lemma_block_labels(ss: Seq<NodeView>, c: nat, l: Label)
    requires
        are_stmts(ss),
        c + if_count_seq(ss) <= u64::MAX,
    ensures
        label_count(gen_block(ss, c), l) == if c <= label_id(l) < c + if_count_seq(ss) {
            1nat
        } else {
            0nat
        },
    decreases ss,
{
    if ss.len() == 0 {
        lemma_label_count_none(seq![Instr::PushImm(0)], l);
        assert(gen_block(ss, c) == seq![Instr::PushImm(0)]);
    } else if ss.len() == 1 {
        assert(ss.drop_last() =~= seq![]);
        assert(ss.last() == ss[0]);
        assert(if_count_seq(ss.drop_last()) == 0);
        assert(if_count_seq(ss) == if_count(ss[0]));
        assert(gen_block(ss, c) == gen_code(ss[0], c));
        lemma_gen_labels(ss[0], c, l);
    } else {
        let d = ss.drop_last();
        assert(are_stmts(d) && is_stmt(ss.last()));
        assert(if_count_seq(ss) == if_count_seq(d) + if_count(ss.last()));
        lemma_block_labels(d, c, l);
        lemma_gen_labels(ss.last(), c + if_count_seq(d), l);
        let p = seq![Instr::Pop(Reg::Rax)];
        lemma_label_count_none(p, l);
        lemma_label_count_concat(gen_block(d, c), p, l);
        lemma_label_count_concat(gen_block(d, c) + p, gen_code(ss.last(), c + if_count_seq(d)), l);
    }
}

/// No two `if` statements of a program share a label: numbering them from
/// 0, the code of the program defines the `else` label and the end label of
/// each exactly once, and no other label.
pub proof fn lemma_program_labels_distinct(ss: Seq<NodeView>, l: Label)
    requires
        are_stmts(ss),
        if_count_seq(ss) <= u64::MAX,
    ensures
        label_count(gen_program_code(ss, 0), l) == if label_id(l) < if_count_seq(ss) {
            1nat
        } else {
            0nat
        },
    decreases ss.len(),
{
    if ss.len() == 0 {
    } else {
        let d = ss.drop_last();
        lemma_program_labels_distinct(d, l);
        lemma_gen_labels(ss.last(), if_count_seq(d), l);
        let p = seq![Instr::Pop(Reg::Rax)];
        lemma_label_count_none(p, l);
        lemma_label_count_concat(gen_program_code(d, 0), gen_code(ss.last(), if_count_seq(d)), l);
        lemma_label_count_concat(gen_program_code(d, 0) + gen_code(ss.last(), if_count_seq(d)), p, l);
    }
}

} // verus!
