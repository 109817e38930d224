//! Expansion of instructions into simpler statements.
//!
//! E.g. `push` is a memory write plus stack manipulation.

use vstd::prelude::*;
use crate::ast::{CallV, Expr, ExprV, Stmt, StmtKind, StmtKindV, StmtV, args_view, lemma_args_view, stmts_view};
use crate::text::str_eq;

verus! {

/// The stack pointer.
pub open spec fn sp_v() -> ExprV {
    ExprV::Name("sp"@)
}

/// `(func a b)`.
pub open spec fn call2_v(func: Seq<char>, a: ExprV, b: ExprV) -> ExprV {
    ExprV::Call(CallV { func, args: seq![a, b] })
}

/// `(mem sp)`: the word at the top of the stack.
pub open spec fn top_v() -> ExprV {
    ExprV::Call(CallV { func: "mem"@, args: seq![sp_v()] })
}

/// A statement `(push arg)`, with its argument list.
pub open spec fn push_args(k: StmtKindV) -> Option<Seq<ExprV>> {
    match k {
        StmtKindV::Do(ExprV::Call(c)) => if c.func == "push"@ {
            Some(c.args)
        } else {
            None
        },
        _ => None,
    }
}

/// A statement `(set dst (pop ..))`, with its destination.
pub open spec fn pop_dst(k: StmtKindV) -> Option<ExprV> {
    match k {
        StmtKindV::Assign(dst, ExprV::Call(c)) => if c.func == "pop"@ {
            Some(dst)
        } else {
            None
        },
        _ => None,
    }
}

/// What a statement expands to: `(push x)` becomes `(set sp (- sp 4))` then
/// `(set (mem sp) x)`; `(set d (pop ..))` becomes `(set d (mem sp))` then
/// `(set sp (+ sp 4))`; any other statement stays as it is. Each new statement
/// keeps the addresses of the one it comes from.
pub open spec fn expand_stmt(s: StmtV) -> Seq<StmtV> {
    match push_args(s.kind) {
        Some(args) => seq![
            StmtV { ip: s.ip, kind: StmtKindV::Assign(sp_v(), call2_v("-"@, sp_v(), ExprV::Val(4))) },
            StmtV { ip: s.ip, kind: StmtKindV::Assign(top_v(), args[0]) },
        ],
        None => match pop_dst(s.kind) {
            Some(dst) => seq![
                StmtV { ip: s.ip, kind: StmtKindV::Assign(dst, top_v()) },
                StmtV { ip: s.ip, kind: StmtKindV::Assign(sp_v(), call2_v("+"@, sp_v(), ExprV::Val(4))) },
            ],
            None => seq![s],
        },
    }
}

/// The expansion of each statement, in order.
pub open spec fn expand_all(s: Seq<StmtV>) -> Seq<StmtV>
    decreases s.len(),
{
    if s.len() == 0 {
        Seq::empty()
    } else {
        expand_all(s.drop_last()) + expand_stmt(s.last())
    }
}

/// Whether every `push` in `s` has exactly one argument.
pub open spec fn pushes_well_formed(s: Seq<StmtV>) -> bool {
    forall|i: int| 0 <= i < s.len() ==> (#[trigger] push_args(s[i].kind) matches Some(args) ==> args.len() == 1)
}

fn sp() -> (res: Expr)
    ensures
        res@ == sp_v(),
{
    Expr::name("sp")
}

fn call2(func: &str, a: Expr, b: Expr) -> (res: Expr)
    ensures
        res@ == call2_v(func@, a@, b@),
{
    let args = vec![a, b];
    proof {
        lemma_args_view(args@);
        assert(args_view(args@) =~= seq![a@, b@]);
    }
    Expr::call(func, args)
}

fn top() -> (res: Expr)
    ensures
        res@ == top_v(),
{
    let args = vec![sp()];
    proof {
        lemma_args_view(args@);
        assert(args_view(args@) =~= seq![sp_v()]);
    }
    Expr::call("mem", args)
}

/// Expands `(push x)` into `out`; false, with `out` unchanged, for any other statement.
fn push(stmt: &Stmt, out: &mut Vec<Stmt>) -> (res: bool)
    requires
        push_args(stmt.kind@) matches Some(args) ==> args.len() == 1,
    ensures
        res == push_args(stmt.kind@) is Some,
        res ==> stmts_view(final(out)@) == stmts_view(old(out)@) + expand_stmt(stmt@),
        !res ==> final(out)@ == old(out)@,
{
    let call = match &stmt.kind {
        StmtKind::Do(Expr::Call(call)) => call,
        _ => return false,
    };
    if !str_eq(call.func.as_str(), "push") {
        return false;
    }
    proof {
        lemma_args_view(call.args@);
    }
    let arg = &call.args[0];
    out.push(Stmt { ip: stmt.ip.clone(), kind: StmtKind::Assign(sp(), call2("-", sp(), Expr::Val(4))) });
    out.push(Stmt { ip: stmt.ip.clone(), kind: StmtKind::Assign(top(), arg.clone()) });
    proof {
        assert(stmts_view(out@) =~= stmts_view(old(out)@) + expand_stmt(stmt@));
    }
    true
}

/// Expands `(set d (pop ..))` into `out`; false, with `out` unchanged, for any
/// other statement.
fn pop(stmt: &Stmt, out: &mut Vec<Stmt>) -> (res: bool)
    requires
        push_args(stmt.kind@) is None,
    ensures
        res == pop_dst(stmt.kind@) is Some,
        res ==> stmts_view(final(out)@) == stmts_view(old(out)@) + expand_stmt(stmt@),
        !res ==> final(out)@ == old(out)@,
{
    let (var, call) = match &stmt.kind {
        StmtKind::Assign(var, Expr::Call(call)) => (var, call),
        _ => return false,
    };
    if !str_eq(call.func.as_str(), "pop") {
        return false;
    }
    out.push(Stmt { ip: stmt.ip.clone(), kind: StmtKind::Assign(var.clone(), top()) });
    out.push(Stmt { ip: stmt.ip.clone(), kind: StmtKind::Assign(sp(), call2("+", sp(), Expr::Val(4))) });
    proof {
        assert(stmts_view(out@) =~= stmts_view(old(out)@) + expand_stmt(stmt@));
    }
    true
}

/// Rewrites `push` and `pop` into plain memory and stack-pointer updates.
pub fn expand(stmts: Vec<Stmt>) -> (res: Vec<Stmt>)
    requires
        pushes_well_formed(stmts_view(stmts@)),
    ensures
        stmts_view(res@) == expand_all(stmts_view(stmts@)),
{
    let mut out: Vec<Stmt> = Vec::new();
    let ghost all = stmts_view(stmts@);
    let mut n: usize = 0;
    proof {
        assert(all.subrange(0, 0) =~= Seq::<StmtV>::empty());
    }
    while n < stmts.len()
        invariant
            n <= stmts.len(),
            all == stmts_view(stmts@),
            pushes_well_formed(all),
            stmts_view(out@) == expand_all(all.subrange(0, n as int)),
        decreases stmts.len() - n,
    {
        let stmt = &stmts[n];
        proof {
            assert(stmt@ == all[n as int]);
            assert(push_args(all[n as int].kind) matches Some(args) ==> args.len() == 1);
            assert(all.subrange(0, n + 1).drop_last() =~= all.subrange(0, n as int));
        }
        if push(stmt, &mut out) {
        } else if pop(stmt, &mut out) {
        } else {
            out.push(stmt.clone());
            proof {
                assert(stmts_view(out@) =~= expand_all(all.subrange(0, n as int)) + seq![all[n as int]]);
            }
        }
        n += 1;
    }
    proof {
        assert(all.subrange(0, all.len() as int) =~= all);
    }
    out
}

/// Whether a statement kind is a call of `push`, whatever its arguments.
pub open spec fn is_push_call(k: StmtKindV) -> bool {
    k matches StmtKindV::Do(ExprV::Call(c)) && c.func == "push"@
}

/// Expansion leaves no `push` behind: no statement it gives is a call of `push`.
pub proof fn law_expand_leaves_no_push(s: Seq<StmtV>)
    ensures
        forall|i: int| 0 <= i < expand_all(s).len() ==> !is_push_call(#[trigger] expand_all(s)[i].kind),
    decreases s.len(),
{
    if s.len() > 0 {
        law_expand_leaves_no_push(s.drop_last());
        let a = expand_all(s.drop_last());
        let e = expand_stmt(s.last());
        assert forall|i: int| 0 <= i < expand_all(s).len() implies !is_push_call(#[trigger] expand_all(s)[i].kind) by {
            if i < a.len() {
                assert(expand_all(s)[i] == a[i]);
            } else {
                assert(expand_all(s)[i] == e[i - a.len()]);
            }
        }
    }
}

/// A `push` of any one expression `x` becomes, in place and with the push's
/// addresses, `(set sp (- sp 4))` and then `(set (mem sp) x)`.
pub proof fn law_expand_push(rest: Seq<StmtV>, ip: Seq<u32>, x: ExprV)
    ensures
        expand_all(rest.push(StmtV { ip, kind: StmtKindV::Do(ExprV::Call(CallV { func: "push"@, args: seq![x] })) }))
            == expand_all(rest) + seq![
            StmtV {
                ip,
                kind: StmtKindV::Assign(
                    ExprV::Name("sp"@),
                    ExprV::Call(CallV { func: "-"@, args: seq![ExprV::Name("sp"@), ExprV::Val(4)] }),
                ),
            },
            StmtV {
                ip,
                kind: StmtKindV::Assign(ExprV::Call(CallV { func: "mem"@, args: seq![ExprV::Name("sp"@)] }), x),
            },
        ],
{
    let s = rest.push(StmtV { ip, kind: StmtKindV::Do(ExprV::Call(CallV { func: "push"@, args: seq![x] })) });
    assert(s.drop_last() =~= rest);
}

/// A `pop` into any destination `d` becomes, in place and with the pop's
/// addresses, `(set d (mem sp))` and then `(set sp (+ sp 4))`.
pub proof fn law_expand_pop(rest: Seq<StmtV>, ip: Seq<u32>, d: ExprV, args: Seq<ExprV>)
    ensures
        expand_all(rest.push(StmtV { ip, kind: StmtKindV::Assign(d, ExprV::Call(CallV { func: "pop"@, args })) }))
            == expand_all(rest) + seq![
            StmtV {
                ip,
                kind: StmtKindV::Assign(d, ExprV::Call(CallV { func: "mem"@, args: seq![ExprV::Name("sp"@)] })),
            },
            StmtV {
                ip,
                kind: StmtKindV::Assign(
                    ExprV::Name("sp"@),
                    ExprV::Call(CallV { func: "+"@, args: seq![ExprV::Name("sp"@), ExprV::Val(4)] }),
                ),
            },
        ],
{
    let s = rest.push(StmtV { ip, kind: StmtKindV::Assign(d, ExprV::Call(CallV { func: "pop"@, args })) });
    assert(s.drop_last() =~= rest);
    reveal_strlit("pop");
    reveal_strlit("push");
}

} // verus!
