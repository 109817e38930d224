use lifter::ast::{Call, Expr, Stmt, StmtKind, Var};
use lifter::blocks::Block;
use lifter::fmt::fmt_blocks;

#[test]
fn fmt_small_numbers_in_decimal() {
    assert_eq!(Expr::Val(0).to_string(), "0");
    assert_eq!(Expr::Val(9).to_string(), "9");
}

#[test]
fn fmt_large_numbers_in_hexadecimal() {
    assert_eq!(Expr::Val(10).to_string(), "0xa");
    assert_eq!(Expr::Val(0x12).to_string(), "0x12");
    assert_eq!(Expr::Val(0xdeadbeef).to_string(), "0xdeadbeef");
}

#[test]
fn fmt_variables() {
    assert_eq!(Var(1).to_string(), "v1");
    assert_eq!(Expr::Var(Var(123)).to_string(), "v123");
}

#[test]
fn fmt_todo_is_quoted() {
    assert_eq!(Expr::Todo("a\"b".to_string()).to_string(), "(todo \"a\\\"b\")");
    assert_eq!(StmtKind::Raw("x".to_string()).to_string(), "(todo \"x\")");
}

#[test]
fn fmt_statements() {
    let jmp = StmtKind::Jmp(
        Box::new(Call { func: "=".to_string(), args: vec![Expr::name("a"), Expr::Val(0)] }),
        Expr::Val(0x40),
    );
    assert_eq!(jmp.to_string(), "(jmp (= a 0) 0x40)");
    let s = Stmt { ip: vec![1, 0x2345], kind: StmtKind::Let(Var(2), Expr::name("eax_in")) };
    assert_eq!(s.to_string(), "(let v2 eax_in)");
    assert_eq!(s.to_string_with_ips(), "00000001,00002345 (let v2 eax_in)");
    let t = Stmt { ip: vec![], kind: StmtKind::Do(Expr::call("cld", vec![])) };
    assert_eq!(t.to_string_with_ips(), "(cld)");
}

#[test]
fn fmt_blocks_separated_by_blank_lines() {
    let b1 = Block::new(vec![Stmt { ip: vec![0x1a], kind: StmtKind::Do(Expr::call("f", vec![])) }]);
    let b2 = Block::new(vec![Stmt { ip: vec![2], kind: StmtKind::Do(Expr::call("g", vec![Expr::Val(1)])) }]);
    let blocks = vec![b1, b2];
    assert_eq!(fmt_blocks(&blocks, false), "1a:\n(f)\n\n2:\n(g 1)\n");
    assert_eq!(fmt_blocks(&blocks, true), "1a:\n0000001a (f)\n\n2:\n00000002 (g 1)\n");
    assert_eq!(fmt_blocks(&[], false), "");
}
