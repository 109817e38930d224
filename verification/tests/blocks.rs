use lifter::ast::{Call, Expr, Stmt, StmtKind};
use lifter::blocks::{block_preds, blocks, nexts};

fn op(ip: u32, f: &str) -> Stmt {
    Stmt { ip: vec![ip], kind: StmtKind::Do(Expr::call(f, vec![])) }
}

fn jmp(ip: u32, cond: &str, dst: u32) -> Stmt {
    Stmt {
        ip: vec![ip],
        kind: StmtKind::Jmp(Box::new(Call { func: cond.to_string(), args: vec![] }), Expr::Val(dst)),
    }
}

fn program() -> Vec<Stmt> {
    vec![
        op(0, "a"),
        jmp(1, "jne", 4),
        op(2, "b"),
        jmp(3, "jmp", 5),
        op(4, "c"),
        op(5, "d"),
        jmp(6, "ret", 0),
    ]
}

#[test]
fn blocks_cover_the_statements_in_order() {
    let stmts = program();
    let bs = blocks(program());
    let flat: Vec<Stmt> = bs.into_iter().flat_map(|b| b.stmts.into_iter()).collect();
    assert_eq!(flat, stmts);
}

#[test]
fn blocks_end_at_jumps_and_start_at_targets() {
    let bs = blocks(program());
    let ips: Vec<u32> = bs.iter().map(|b| b.ip).collect();
    assert_eq!(ips, vec![0, 2, 4, 5]);
    for b in bs.iter() {
        for s in b.stmts[..b.stmts.len() - 1].iter() {
            assert!(!matches!(s.kind, StmtKind::Jmp(_, _)));
        }
    }
}

#[test]
fn nexts_follow_fallthrough_and_targets() {
    let bs = blocks(program());
    assert_eq!(nexts(&bs, 0), vec![1, 2]);
    assert_eq!(nexts(&bs, 1), vec![3]);
    assert_eq!(nexts(&bs, 2), vec![3]);
    assert_eq!(nexts(&bs, 3), vec![0]);
}

#[test]
fn preds_invert_nexts() {
    let bs = blocks(program());
    let preds = block_preds(&bs);
    assert_eq!(preds, vec![vec![3], vec![0], vec![0], vec![1, 2]]);
}
