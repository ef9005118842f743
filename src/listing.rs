//! Assembly text: one line for each instruction.

use vstd::prelude::*;
use crate::codegen::{Cond, Instr, Label, Reg};

verus! {

pub open spec fn digit_text(d: int) -> Seq<char> {
    if d == 0 {
        "0"@
    } else if d == 1 {
        "1"@
    } else if d == 2 {
        "2"@
    } else if d == 3 {
        "3"@
    } else if d == 4 {
        "4"@
    } else if d == 5 {
        "5"@
    } else if d == 6 {
        "6"@
    } else if d == 7 {
        "7"@
    } else if d == 8 {
        "8"@
    } else {
        "9"@
    }
}

/// The decimal digits of `n`, most significant first.
pub open spec fn nat_text(n: nat) -> Seq<char>
    decreases n,
{
    if n < 10 {
        digit_text(n as int)
    } else {
        nat_text(n / 10) + digit_text((n % 10) as int)
    }
}

/// `v` in decimal, with a leading `-` when negative.
pub open spec fn int_text(v: int) -> Seq<char> {
    if v < 0 {
        "-"@ + nat_text((-v) as nat)
    } else {
        nat_text(v as nat)
    }
}

pub open spec fn reg_text(r: Reg) -> Seq<char> {
    match r {
        Reg::Rax => "rax"@,
        Reg::Rdi => "rdi"@,
        Reg::Rbp => "rbp"@,
    }
}

pub open spec fn label_text(l: Label) -> Seq<char> {
    match l {
        Label::Else(k) => ".Lelse"@ + nat_text(k as nat),
        Label::End(k) => ".Lend"@ + nat_text(k as nat),
    }
}

/// The line of assembly for `i`, in Intel syntax.
pub open spec fn instr_text(i: Instr) -> Seq<char> {
    match i {
        Instr::PushImm(v) => "  push "@ + int_text(v as int),
        Instr::Push(r) => "  push "@ + reg_text(r),
        Instr::Pop(r) => "  pop "@ + reg_text(r),
        Instr::MovRaxRbp => "  mov rax, rbp"@,
        Instr::SubRaxImm(v) => "  sub rax, "@ + int_text(v as int),
        Instr::Load => "  mov rax, [rax]"@,
        Instr::Store => "  mov [rax], rdi"@,
        Instr::Add => "  add rax, rdi"@,
        Instr::Sub => "  sub rax, rdi"@,
        Instr::Imul => "  imul rax, rdi"@,
        Instr::Cqo => "  cqo"@,
        Instr::Idiv => "  idiv rdi"@,
        Instr::Movsxd => "  movsxd rax, eax"@,
        Instr::Cmp => "  cmp rax, rdi"@,
        Instr::CmpZero => "  cmp rax, 0"@,
        Instr::SetCc(Cond::Eq) => "  sete al"@,
        Instr::SetCc(Cond::Ne) => "  setne al"@,
        Instr::SetCc(Cond::Lt) => "  setl al"@,
        Instr::SetCc(Cond::Le) => "  setle al"@,
        Instr::Movzb => "  movzb rax, al"@,
        Instr::MovRspRbp => "  mov rsp, rbp"@,
        Instr::Ret => "  ret"@,
        Instr::Je(l) => "  je  "@ + label_text(l),
        Instr::Jmp(l) => "  jmp "@ + label_text(l),
        Instr::Label(l) => label_text(l) + ":"@,
    }
}

fn digit_str(d: u64) -> (r: &'static str)
    requires
        d < 10,
    ensures
        r@ == digit_text(d as int),
{
    if d == 0 {
        "0"
    } else if d == 1 {
        "1"
    } else if d == 2 {
        "2"
    } else if d == 3 {
        "3"
    } else if d == 4 {
        "4"
    } else if d == 5 {
        "5"
    } else if d == 6 {
        "6"
    } else if d == 7 {
        "7"
    } else if d == 8 {
        "8"
    } else {
        "9"
    }
}

/// `n` in decimal.
pub fn nat_string(n: u64) -> (r: String)
    ensures
        r@ == nat_text(n as nat),
    decreases n,
{
    if n < 10 {
        digit_str(n).to_owned()
    } else {
        let mut s = nat_string(n / 10);
        s.append(digit_str(n % 10));
        s
    }
}

/// `v` in decimal, with a leading `-` when negative.
pub fn int_string(v: i32) -> (r: String)
    ensures
        r@ == int_text(v as int),
{
    if v < 0 {
        let m = nat_string((-(v as i64)) as u64);
        "-".to_owned().concat(m.as_str())
    } else {
        nat_string(v as u64)
    }
}

fn reg_str(r: Reg) -> (s: &'static str)
    ensures
        s@ == reg_text(r),
{
    match r {
        Reg::Rax => "rax",
        Reg::Rdi => "rdi",
        Reg::Rbp => "rbp",
    }
}

fn label_string(l: Label) -> (s: String)
    ensures
        s@ == label_text(l),
{
    match l {
        Label::Else(k) => ".Lelse".to_owned().concat(nat_string(k).as_str()),
        Label::End(k) => ".Lend".to_owned().concat(nat_string(k).as_str()),
    }
}

impl Instr {
    /// The line of assembly for this instruction.
    pub fn text(&self) -> (r: String)
        ensures
            r@ == instr_text(*self),
    {
        match *self {
            Instr::PushImm(v) => "  push ".to_owned().concat(int_string(v).as_str()),
            Instr::Push(r) => "  push ".to_owned().concat(reg_str(r)),
            Instr::Pop(r) => "  pop ".to_owned().concat(reg_str(r)),
            Instr::MovRaxRbp => "  mov rax, rbp".to_owned(),
            Instr::SubRaxImm(v) => "  sub rax, ".to_owned().concat(int_string(v).as_str()),
            Instr::Load => "  mov rax, [rax]".to_owned(),
            Instr::Store => "  mov [rax], rdi".to_owned(),
            Instr::Add => "  add rax, rdi".to_owned(),
            Instr::Sub => "  sub rax, rdi".to_owned(),
            Instr::Imul => "  imul rax, rdi".to_owned(),
            Instr::Cqo => "  cqo".to_owned(),
            Instr::Idiv => "  idiv rdi".to_owned(),
            Instr::Movsxd => "  movsxd rax, eax".to_owned(),
            Instr::Cmp => "  cmp rax, rdi".to_owned(),
            Instr::CmpZero => "  cmp rax, 0".to_owned(),
            Instr::SetCc(Cond::Eq) => "  sete al".to_owned(),
            Instr::SetCc(Cond::Ne) => "  setne al".to_owned(),
            Instr::SetCc(Cond::Lt) => "  setl al".to_owned(),
            Instr::SetCc(Cond::Le) => "  setle al".to_owned(),
            Instr::Movzb => "  movzb rax, al".to_owned(),
            Instr::MovRspRbp => "  mov rsp, rbp".to_owned(),
            Instr::Ret => "  ret".to_owned(),
            Instr::Je(l) => "  je  ".to_owned().concat(label_string(l).as_str()),
            Instr::Jmp(l) => "  jmp ".to_owned().concat(label_string(l).as_str()),
            Instr::Label(l) => label_string(l).concat(":"),
        }
    }
}

} // verus!
