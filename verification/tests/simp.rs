use lifter::ast::{Call, Expr, Stmt, StmtKind, Var};
use lifter::simp::{simp, simp_stmt};

fn name(s: &str) -> Expr {
    Expr::name(s)
}

fn call(f: &str, args: Vec<Expr>) -> Expr {
    Expr::call(f, args)
}

fn set(dst: Expr, val: Expr) -> Stmt {
    Stmt { ip: vec![0], kind: StmtKind::Assign(dst, val) }
}

fn jmp(cond: &str, args: Vec<Expr>, dst: u32) -> StmtKind {
    StmtKind::Jmp(Box::new(Call { func: cond.to_string(), args }), Expr::Val(dst))
}

fn jmp_stmt(cond: &str, dst: u32) -> Stmt {
    Stmt { ip: vec![0], kind: jmp(cond, vec![], dst) }
}

fn kinds(stmts: Vec<Stmt>) -> Vec<StmtKind> {
    simp(stmts).into_iter().map(|s| s.kind).collect()
}

#[test]
fn xor() {
    // xor eax, ebx; xor ebx, ebx
    let stmts = vec![
        set(name("eax"), call("^", vec![name("eax"), name("ebx")])),
        set(name("ebx"), call("^", vec![name("ebx"), name("ebx")])),
    ];
    assert_eq!(
        kinds(stmts),
        vec![
            StmtKind::Assign(name("eax"), call("^", vec![name("eax"), name("ebx")])),
            StmtKind::Assign(name("ebx"), Expr::Val(0x0)),
        ]
    );
}

#[test]
fn cmp_je() {
    // cmp eax, ebx; je 4; cmp eax, ebx; jne 4
    let stmts = vec![
        set(name("_"), call("cmp", vec![name("eax"), name("ebx")])),
        jmp_stmt("je", 4),
        set(name("_"), call("cmp", vec![name("eax"), name("ebx")])),
        jmp_stmt("jne", 4),
    ];
    assert_eq!(
        kinds(stmts),
        vec![
            jmp("=", vec![name("eax"), name("ebx")], 0x4),
            jmp("!=", vec![name("eax"), name("ebx")], 0x4),
        ]
    );
}

#[test]
fn test_jne() {
    // test eax, ebx; jne 4; test eax, eax; jne 4
    let stmts = vec![
        set(name("_"), call("test", vec![name("eax"), name("ebx")])),
        jmp_stmt("jne", 4),
        set(name("_"), call("test", vec![name("eax"), name("eax")])),
        jmp_stmt("jne", 4),
    ];
    assert_eq!(
        kinds(stmts),
        vec![
            StmtKind::Assign(name("_"), call("test", vec![name("eax"), name("ebx")])),
            jmp("jne", vec![], 0x4),
            jmp("!=", vec![name("eax"), Expr::Val(0x0)], 0x4),
        ]
    );
}

#[test]
fn simp_merged_compare_keeps_both_addresses() {
    let stmts = vec![
        Stmt { ip: vec![7], kind: StmtKind::Assign(name("_"), call("cmp", vec![name("a"), Expr::Val(1)])) },
        Stmt { ip: vec![9], kind: jmp("jl", vec![], 3) },
    ];
    let out = simp(stmts);
    assert_eq!(out.len(), 1);
    assert_eq!(out[0].ip, vec![7, 9]);
    assert_eq!(out[0].kind, jmp("<", vec![name("a"), Expr::Val(1)], 3));
}

#[test]
fn simp_leaves_unknown_jump_after_compare() {
    let stmts = vec![
        set(name("_"), call("cmp", vec![name("a"), name("b")])),
        jmp_stmt("jo", 4),
    ];
    assert_eq!(
        kinds(stmts),
        vec![
            StmtKind::Assign(name("_"), call("cmp", vec![name("a"), name("b")])),
            jmp("jo", vec![], 4),
        ]
    );
}

#[test]
fn simp_each_jump_test() {
    for (j, f) in [("je", "="), ("jne", "!="), ("jge", ">="), ("jl", "<"), ("jle", "<=")] {
        let stmts = vec![set(name("_"), call("cmp", vec![name("a"), name("b")])), jmp_stmt(j, 1)];
        assert_eq!(kinds(stmts), vec![jmp(f, vec![name("a"), name("b")], 1)]);
    }
}

#[test]
fn simp_stmt_collapses_phi() {
    let mut s = Stmt {
        ip: vec![],
        kind: StmtKind::Let(Var(3), call("phi", vec![Expr::Var(Var(3)), Expr::Var(Var(1)), Expr::Var(Var(1))])),
    };
    assert!(simp_stmt(&mut s));
    assert_eq!(s.kind, StmtKind::Let(Var(3), Expr::Var(Var(1))));
    let mut t = Stmt {
        ip: vec![],
        kind: StmtKind::Let(Var(3), call("phi", vec![Expr::Var(Var(1)), Expr::Var(Var(2))])),
    };
    assert!(!simp_stmt(&mut t));
}
