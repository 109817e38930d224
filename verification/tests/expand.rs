use lifter::ast::{Expr, Stmt, StmtKind};
use lifter::expand::expand;

fn name(s: &str) -> Expr {
    Expr::name(s)
}

#[test]
fn expand_push() {
    let stmts = vec![Stmt { ip: vec![5], kind: StmtKind::Do(Expr::call("push", vec![name("eax")])) }];
    let out = expand(stmts);
    assert_eq!(out.len(), 2);
    assert_eq!(out[0].ip, vec![5]);
    assert_eq!(out[1].ip, vec![5]);
    assert_eq!(
        out[0].kind,
        StmtKind::Assign(name("sp"), Expr::call("-", vec![name("sp"), Expr::Val(4)]))
    );
    assert_eq!(out[1].kind, StmtKind::Assign(Expr::call("mem", vec![name("sp")]), name("eax")));
}

#[test]
fn expand_pop() {
    let stmts = vec![Stmt { ip: vec![6], kind: StmtKind::Assign(name("ebx"), Expr::call("pop", vec![])) }];
    let out = expand(stmts);
    assert_eq!(out.len(), 2);
    assert_eq!(out[0].kind, StmtKind::Assign(name("ebx"), Expr::call("mem", vec![name("sp")])));
    assert_eq!(
        out[1].kind,
        StmtKind::Assign(name("sp"), Expr::call("+", vec![name("sp"), Expr::Val(4)]))
    );
    assert_eq!(out[1].ip, vec![6]);
}

#[test]
fn expand_keeps_other_statements() {
    let stmts = vec![
        Stmt { ip: vec![1], kind: StmtKind::Do(Expr::call("cld", vec![])) },
        Stmt { ip: vec![2], kind: StmtKind::Assign(name("eax"), Expr::Val(3)) },
    ];
    let out = expand(stmts);
    assert_eq!(out.len(), 2);
    assert_eq!(out[0].kind, StmtKind::Do(Expr::call("cld", vec![])));
    assert_eq!(out[1].kind, StmtKind::Assign(name("eax"), Expr::Val(3)));
}
