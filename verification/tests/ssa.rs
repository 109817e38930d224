use lifter::ast::{Call, Expr, Stmt, StmtKind, Var};
use lifter::ssa::{Block, ssa, ssa_names};

fn name(s: &str) -> Expr {
    Expr::name(s)
}

fn call(f: &str, args: Vec<Expr>) -> Expr {
    Expr::call(f, args)
}

fn set(ip: u32, dst: &str, val: Expr) -> Stmt {
    Stmt { ip: vec![ip], kind: StmtKind::Assign(name(dst), val) }
}

fn op(ip: u32, e: Expr) -> Stmt {
    Stmt { ip: vec![ip], kind: StmtKind::Do(e) }
}

fn jmp(ip: u32, cond: &str, dst: u32) -> Stmt {
    Stmt {
        ip: vec![ip],
        kind: StmtKind::Jmp(Box::new(Call { func: cond.to_string(), args: vec![] }), Expr::Val(dst)),
    }
}

fn names_of(stmts: Vec<Stmt>) -> String {
    let mut block = Block::new(stmts);
    let mut next_sym = Var(1);
    ssa_names(&mut block, &mut next_sym);
    block.stmts.iter().map(|stmt| stmt.kind.to_string()).collect::<Vec<_>>().join("\n")
}

fn ssa_text(stmts: Vec<Stmt>) -> String {
    let blocks = ssa(stmts);
    let mut out = String::new();
    for block in blocks.iter() {
        out.push_str(&block.to_string());
    }
    out
}

#[test]
fn names() {
    // mov eax, eax; mov eax, ebx; mov ebx, eax; mov eax, edx; mov ecx, eax
    let stmts = vec![
        set(0, "eax", name("eax")),
        set(0, "eax", name("ebx")),
        set(0, "ebx", name("eax")),
        set(0, "eax", name("edx")),
        set(0, "ecx", name("eax")),
    ];
    assert_eq!(
        names_of(stmts),
        "(let v1 v2)\n(let v3 v4)\n(let v5 v3)\n(let v6 v7)\n(let v8 v6)"
    );
}

#[test]
fn simple() {
    // mov ax, 0; b1: add ax, 1; jmp b1
    let stmts = vec![
        set(0, "ax", Expr::Val(0)),
        set(1, "ax", call("+", vec![name("ax"), Expr::Val(1)])),
        jmp(0, "jmp", 1),
    ];
    assert_eq!(
        ssa_text(stmts),
        "0:\n(let v1 0)\n1:\n(let v3 (phi v1 v2))\n(let v2 (+ v3 1))\n(jmp (jmp) 1)\n"
    );
}

#[test]
fn branch() {
    // mov ax, 0; top: test ax, 0; jnz else; cld; jmp out; else: cld; out: add ax, 1; jmp top
    let stmts = vec![
        set(0, "ax", Expr::Val(0)),
        op(1, call("test", vec![name("ax"), Expr::Val(0)])),
        jmp(0, "jne", 2),
        op(0, call("cld", vec![])),
        jmp(0, "jmp", 3),
        op(2, call("cld", vec![])),
        set(3, "ax", call("+", vec![name("ax"), Expr::Val(1)])),
        jmp(0, "jmp", 1),
    ];
    assert_eq!(
        ssa_text(stmts),
        "0:\n(let v1 0)\n1:\n(let v2 (phi v1 v3))\n(test v2 0)\n(jmp (jne) 2)\n0:\n(let v5 v2)\n(cld)\n(jmp (jmp) 3)\n2:\n(let v6 v2)\n(cld)\n3:\n(let v4 (phi v5 v6))\n(let v3 (+ v4 1))\n(jmp (jmp) 1)\n"
    );
}

#[test]
fn ssa_program_inputs_become_named_inputs() {
    let stmts = vec![set(0, "eax", call("+", vec![name("eax"), name("ebx")]))];
    assert_eq!(
        ssa_text(stmts),
        "0:\n(let v3 ebx_in)\n(let v2 eax_in)\n(let v1 (+ v2 v3))\n"
    );
}

#[test]
fn ssa_defines_each_variable_once() {
    let stmts = vec![
        set(0, "ax", Expr::Val(0)),
        op(1, call("test", vec![name("ax"), Expr::Val(0)])),
        jmp(0, "jne", 2),
        set(0, "bx", name("ax")),
        jmp(0, "jmp", 3),
        set(2, "bx", call("+", vec![name("ax"), name("cx")])),
        set(3, "ax", call("+", vec![name("ax"), name("bx")])),
        jmp(0, "jmp", 1),
    ];
    let blocks = ssa(stmts);
    let mut defined: Vec<u16> = Vec::new();
    for b in blocks.iter() {
        for s in b.stmts.iter() {
            if let StmtKind::Let(v, _) = &s.kind {
                assert!(!defined.contains(&v.0));
                defined.push(v.0);
            }
        }
    }
    assert!(defined.len() >= 4);
}
