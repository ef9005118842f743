use std::collections::HashMap;

use rcc1::codegen::{gen, gen_program, Cond, Instr, Label, Reg};
use rcc1::compile::{compile, CompileError};
use rcc1::parse::{program, Node, NodeKind, ParseError};
use rcc1::token::{tokenize, LexError};

/// Runs the body of `main` between the fixed prologue and epilogue, the way
/// the processor would, and returns what `main` returns.
fn run_main(body: &[Instr]) -> i64 {
    let mut labels: HashMap<Label, usize> = HashMap::new();
    for (i, instr) in body.iter().enumerate() {
        if let Instr::Label(l) = instr {
            assert!(labels.insert(*l, i).is_none(), "label defined twice");
        }
    }
    let mut mem: HashMap<i64, i64> = HashMap::new();
    let (mut rax, mut rdi, mut al): (i64, i64, i64) = (0, 0, 0);
    let mut flags: (i64, i64) = (0, 0);
    let mut rsp: i64 = 1 << 20;
    // push rbp; mov rbp, rsp; sub rsp, 208
    rsp -= 8;
    mem.insert(rsp, 0);
    let mut rbp = rsp;
    rsp -= 208;
    let mut pc = 0;
    let mut steps = 0;
    loop {
        steps += 1;
        assert!(steps < 100_000, "does not terminate");
        if pc == body.len() {
            // mov rsp, rbp; pop rbp; ret
            return rax;
        }
        let instr = body[pc];
        pc += 1;
        match instr {
            Instr::PushImm(v) => {
                rsp -= 8;
                mem.insert(rsp, v as i64);
            }
            Instr::Push(r) => {
                let v = match r {
                    Reg::Rax => rax,
                    Reg::Rdi => rdi,
                    Reg::Rbp => rbp,
                };
                rsp -= 8;
                mem.insert(rsp, v);
            }
            Instr::Pop(r) => {
                let v = *mem.get(&rsp).expect("pop from unwritten stack");
                rsp += 8;
                match r {
                    Reg::Rax => rax = v,
                    Reg::Rdi => rdi = v,
                    Reg::Rbp => rbp = v,
                }
            }
            Instr::MovRaxRbp => rax = rbp,
            Instr::SubRaxImm(v) => rax -= v as i64,
            Instr::Load => rax = *mem.get(&rax).expect("read of an unset variable"),
            Instr::Store => {
                mem.insert(rax, rdi);
            }
            Instr::Add => rax = rax.wrapping_add(rdi),
            Instr::Sub => rax = rax.wrapping_sub(rdi),
            Instr::Imul => rax = rax.wrapping_mul(rdi),
            Instr::Cqo => {}
            Instr::Idiv => rax = rax.checked_div(rdi).expect("division fault"),
            Instr::Movsxd => rax = rax as i32 as i64,
            Instr::Cmp => flags = (rax, rdi),
            Instr::CmpZero => flags = (rax, 0),
            Instr::SetCc(c) => {
                let holds = match c {
                    Cond::Eq => flags.0 == flags.1,
                    Cond::Ne => flags.0 != flags.1,
                    Cond::Lt => flags.0 < flags.1,
                    Cond::Le => flags.0 <= flags.1,
                };
                al = holds as i64;
            }
            Instr::Movzb => rax = al,
            Instr::MovRspRbp => rsp = rbp,
            Instr::Ret => return rax,
            Instr::Je(l) => {
                if flags.0 == flags.1 {
                    pc = labels[&l];
                }
            }
            Instr::Jmp(l) => pc = labels[&l],
            Instr::Label(_) => {}
        }
    }
}

fn result_of(src: &str) -> i64 {
    run_main(&compile(src).unwrap())
}

fn labels_of(code: &[Instr]) -> Vec<Label> {
    code.iter()
        .filter_map(|i| match i {
            Instr::Label(l) => Some(*l),
            _ => None,
        })
        .collect()
}

#[test]
fn evaluates_with_precedence() {
    assert_eq!(result_of("1+2*3;"), 7);
    assert_eq!(result_of("(1+2)*3;"), 9);
    assert_eq!(result_of("10-3-2;"), 5);
    assert_eq!(result_of("7/2; 100/10/5;"), 2);
    assert_eq!(result_of("-7/2;"), -3);
    assert_eq!(result_of("-3*+4;"), -12);
}

#[test]
fn arithmetic_wraps_at_32_bits() {
    assert_eq!(result_of("2147483647+1<0;"), 1);
    assert_eq!(result_of("a=2147483647+1; a<0;"), 1);
    assert_eq!(result_of("2147483647+1;"), -2147483648);
    assert_eq!(result_of("0-2147483647-2;"), 2147483647);
    assert_eq!(result_of("65536*65536;"), 0);
    assert_eq!(result_of("65536*32768;"), -2147483648);
    assert_eq!(result_of("(-2147483647-1)/-1;"), -2147483648);
}

#[test]
fn arithmetic_is_cut_to_32_bits_after_each_operation() {
    let code = compile("1+2;").unwrap();
    assert_eq!(
        code,
        vec![
            Instr::PushImm(1),
            Instr::PushImm(2),
            Instr::Pop(Reg::Rdi),
            Instr::Pop(Reg::Rax),
            Instr::Add,
            Instr::Movsxd,
            Instr::Push(Reg::Rax),
            Instr::Pop(Reg::Rax),
        ]
    );
}

#[test]
fn comparison_chains_below_equality() {
    assert_eq!(result_of("1<2==1;"), 1);
    assert_eq!(result_of("2<1==1;"), 0);
    assert_eq!(result_of("1!=2;"), 1);
    assert_eq!(result_of("3>2;"), 1);
    assert_eq!(result_of("2>=3;"), 0);
    assert_eq!(result_of("3<=3;"), 1);
}

#[test]
fn variable_keeps_its_offset() {
    let code = program(&tokenize("a=3;a=a+1;a;".to_string()).unwrap()).unwrap();
    assert!(matches!(&code[2], Node::LVar { offset: 8 }));
    assert_eq!(result_of("a=3;a=a+1;a;"), 4);
}

#[test]
fn chained_assignment_sets_both() {
    assert_eq!(result_of("a=b=5; a;"), 5);
    assert_eq!(result_of("a=b=5; b;"), 5);
    assert_eq!(result_of("a=b=5;"), 5);
}

#[test]
fn conditional_returns_else_branch() {
    assert_eq!(result_of("if(1==0) return 5; else return 3;"), 3);
    assert_eq!(result_of("if(1==1) return 5; else return 3;"), 5);
}

#[test]
fn if_without_else_leaves_one_value() {
    assert_eq!(result_of("a=1; if(0) a=2; a;"), 1);
    assert_eq!(result_of("a=1; if(1) a=2; a;"), 2);
}

#[test]
fn return_from_inside_a_block() {
    assert_eq!(result_of("a=0; { a=1; return a+10; a=5; } return 99;"), 11);
    assert_eq!(result_of("{ } 4;"), 4);
}

#[test]
fn nested_and_sibling_ifs_get_distinct_labels() {
    let src = "if(1) if(0) 1; else 2; if(2) { if(3) 4; } else 5; 6;";
    let code = compile(src).unwrap();
    let labels = labels_of(&code);
    assert_eq!(labels.len(), 8);
    for i in 0..labels.len() {
        for j in i + 1..labels.len() {
            assert_ne!(labels[i], labels[j]);
        }
    }
    for k in 0..4u64 {
        assert!(labels.contains(&Label::Else(k)));
        assert!(labels.contains(&Label::End(k)));
    }
    assert_eq!(run_main(&code), 6);
}

#[test]
fn nested_ifs_choose_the_right_branch() {
    assert_eq!(result_of("a=0; if(1) if(0) a=1; else a=2; else a=3; return a;"), 2);
    assert_eq!(result_of("a=0; if(0) a=1; else if(1) a=4; return a;"), 4);
}

#[test]
fn gen_numbers_ifs_from_the_counter() {
    let code = program(&tokenize("if(1) 2; else 3;".to_string()).unwrap()).unwrap();
    let mut label: u64 = 7;
    let mut out = Vec::new();
    gen(&code[0], &mut label, &mut out);
    assert_eq!(label, 8);
    assert_eq!(
        out,
        vec![
            Instr::PushImm(1),
            Instr::Pop(Reg::Rax),
            Instr::CmpZero,
            Instr::Je(Label::Else(7)),
            Instr::PushImm(2),
            Instr::Jmp(Label::End(7)),
            Instr::Label(Label::Else(7)),
            Instr::PushImm(3),
            Instr::Label(Label::End(7)),
        ]
    );
}

#[test]
fn gen_assignment_stores_through_the_address() {
    let node = Node::Operator {
        kind: NodeKind::NdAssign,
        lhs: Box::new(Node::LVar { offset: 16 }),
        rhs: Box::new(Node::Number { val: 5 }),
    };
    let mut label: u64 = 0;
    let mut out = Vec::new();
    gen(&node, &mut label, &mut out);
    assert_eq!(
        out,
        vec![
            Instr::MovRaxRbp,
            Instr::SubRaxImm(16),
            Instr::Push(Reg::Rax),
            Instr::PushImm(5),
            Instr::Pop(Reg::Rdi),
            Instr::Pop(Reg::Rax),
            Instr::Store,
            Instr::Push(Reg::Rdi),
        ]
    );
}

#[test]
fn program_discards_each_statement() {
    let code = program(&tokenize("1; 2;".to_string()).unwrap()).unwrap();
    assert_eq!(
        gen_program(&code),
        vec![Instr::PushImm(1), Instr::Pop(Reg::Rax), Instr::PushImm(2), Instr::Pop(Reg::Rax)]
    );
}

#[test]
fn block_discards_all_but_the_last() {
    let code = program(&tokenize("{1; 2;}".to_string()).unwrap()).unwrap();
    assert_eq!(
        gen_program(&code),
        vec![
            Instr::PushImm(1),
            Instr::Pop(Reg::Rax),
            Instr::PushImm(2),
            Instr::Pop(Reg::Rax),
        ]
    );
}

#[test]
fn compile_reports_lex_errors() {
    assert_eq!(compile("1 # 2;"), Err(CompileError::Lex(LexError::UnrecognizedCharacter { pos: 2 })));
    assert_eq!(
        compile("3000000000;"),
        Err(CompileError::Lex(LexError::NumericLiteralOverflow { pos: 0 }))
    );
}

#[test]
fn compile_reports_parse_errors_at_source_positions() {
    assert_eq!(
        compile("a = (1 + 2;"),
        Err(CompileError::Parse { error: ParseError::UnmatchedDelimiter { pos: 2 }, pos: 4 })
    );
    assert_eq!(
        compile("1 +  ;"),
        Err(CompileError::Parse { error: ParseError::UnexpectedToken { pos: 2 }, pos: 5 })
    );
    assert_eq!(
        compile("1 + 2"),
        Err(CompileError::Parse { error: ParseError::UnexpectedEndOfInput, pos: 5 })
    );
}

#[test]
fn instruction_text() {
    assert_eq!(Instr::PushImm(42).text(), "  push 42");
    assert_eq!(Instr::PushImm(-7).text(), "  push -7");
    assert_eq!(Instr::PushImm(0).text(), "  push 0");
    assert_eq!(Instr::PushImm(i32::MIN).text(), "  push -2147483648");
    assert_eq!(Instr::Push(Reg::Rdi).text(), "  push rdi");
    assert_eq!(Instr::Pop(Reg::Rbp).text(), "  pop rbp");
    assert_eq!(Instr::SubRaxImm(208).text(), "  sub rax, 208");
    assert_eq!(Instr::Load.text(), "  mov rax, [rax]");
    assert_eq!(Instr::Store.text(), "  mov [rax], rdi");
    assert_eq!(Instr::Movsxd.text(), "  movsxd rax, eax");
    assert_eq!(Instr::SetCc(Cond::Lt).text(), "  setl al");
    assert_eq!(Instr::SetCc(Cond::Le).text(), "  setle al");
    assert_eq!(Instr::Je(Label::Else(3)).text(), "  je  .Lelse3");
    assert_eq!(Instr::Jmp(Label::End(10)).text(), "  jmp .Lend10");
    assert_eq!(Instr::Label(Label::End(1234567)).text(), ".Lend1234567:");
}
