use lifter::ast::Stmt;
use lifter::inline::inline_once;
use lifter::ssa::{fmt_blocks, ssa};

fn inlined(text: &str, include_ip: bool) -> String {
    let stmts = Stmt::parse_many(text);
    let mut blocks = ssa(stmts);
    lifter::inline::inline(&mut blocks);
    fmt_blocks(&blocks, include_ip).trim_end().to_string()
}

#[test]
fn combines_ips_when_inlining() {
    let text = inlined(
        "1: (set x 1)
            2: (foo x)",
        true,
    );
    assert_eq!(text, "1:\n00000001,00000002 (foo 1)");
}

#[test]
fn inlines_phis() {
    let text = inlined(
        "0: (set x 1)
            (jmp (jne) 2)
            1: (set y x)
            (use y)
            (jmp (jmp) 3)
            2: (set y x)
            (use y)
            3: (use x)",
        false,
    );
    assert_eq!(
        text,
        "0:\n(let v1 1)\n(jmp (jne) 2)\n\n1:\n(use v1)\n(jmp (jmp) 3)\n\n2:\n(use v1)\n\n3:\n(use v1)"
    );
}

#[test]
fn inlines_across_blocks() {
    let text = inlined(
        "0: (set x 1)
            (jmp (jmp) 1)
            1: (set y 2)
            (use y)
            (jmp (jmp) 2)
            2: (set y 3)
            (use y)
            (jmp (jmp) 3)
            3: (use x)
            (jmp (jmp) 1)",
        false,
    );
    assert_eq!(
        text,
        "0:\n(jmp (jmp) 1)\n\n1:\n(use 2)\n(jmp (jmp) 2)\n\n2:\n(use 3)\n(jmp (jmp) 3)\n\n3:\n(use 1)\n(jmp (jmp) 1)"
    );
}

#[test]
fn inline_once_reports_change() {
    let stmts = Stmt::parse_many("1: (set x 1)\n2: (foo x)");
    let mut blocks = ssa(stmts);
    assert!(inline_once(&mut blocks));
    assert!(!inline_once(&mut blocks));
    assert_eq!(fmt_blocks(&blocks, false), "1:\n(foo 1)\n");
}

#[test]
fn inline_keeps_variable_used_twice() {
    let text = inlined("1: (set x (f))\n2: (g x x)", false);
    assert_eq!(text, "1:\n(let v1 (f))\n(g v1 v1)");
}

#[test]
fn inline_follows_aliases() {
    let text = inlined("1: (set x (f))\n(set y x)\n(g y y)", false);
    assert_eq!(text, "1:\n(g (f) (f))");
}

#[test]
fn inline_once_removes_one_statement_per_variable() {
    let stmts = Stmt::parse_many("1: (set x (f))\n(set y x)\n(jmp (jne) 1)\n2: (g y y)");
    let mut blocks = ssa(stmts);
    let count = |bs: &Vec<lifter::ssa::Block>| bs.iter().map(|b| b.stmts.len()).sum::<usize>();
    let ips: Vec<u32> = blocks.iter().map(|b| b.ip).collect();
    let before = count(&blocks);
    assert!(inline_once(&mut blocks));
    assert_eq!(blocks.iter().map(|b| b.ip).collect::<Vec<u32>>(), ips);
    assert_eq!(count(&blocks), before - 3);
}
