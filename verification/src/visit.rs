//! Pre-order traversals of the expressions in the IR.
//!
//! A visitor is a value with a `visit` method; its contract says how the
//! visitor's state (and, for rewriting visitors, the expression) changes at
//! each node, and the traversals say in which order the nodes are met.

use vstd::prelude::*;
use crate::ast::{CallV, Expr, ExprV, Stmt, StmtKind, StmtKindV, args_view, lemma_args_view, lemma_args_view_push, lemma_args_view_take};

verus! {

/// A visitor that reads expressions; its view is its state.
pub trait ExprVisitor: View + Sized {
    /// The state after a visitor in state `s` has seen `e`.
    spec fn after(s: Self::V, e: ExprV) -> Self::V;

    fn visit(&mut self, e: &Expr)
        ensures
            final(self)@ == Self::after(old(self)@, e@),
    ;
}

/// A visitor that may replace the expressions it meets; its view is its state.
pub trait ExprVisitorMut: View + Sized {
    /// Whether a visitor in state `s` can visit `e`.
    spec fn ready(s: Self::V, e: ExprV) -> bool;

    /// What a visitor in state `s` replaces `e` with.
    spec fn rewrite(s: Self::V, e: ExprV) -> ExprV;

    /// The state after a visitor in state `s` has seen `e`.
    spec fn after(s: Self::V, e: ExprV) -> Self::V;

    fn visit(&mut self, e: &mut Expr)
        requires
            Self::ready(old(self)@, old(e)@),
        ensures
            final(e)@ == Self::rewrite(old(self)@, old(e)@),
            final(self)@ == Self::after(old(self)@, old(e)@),
    ;
}

/// The state of `v` after it has seen `e` and then, in order, the subexpressions
/// of each argument.
pub open spec fn visit_tree<V: ExprVisitor>(v: V::V, e: ExprV) -> V::V
    decreases e,
{
    match e {
        ExprV::Call(c) => visit_forest::<V>(V::after(v, e), c.args),
        _ => V::after(v, e),
    }
}

/// The state of `v` after it has seen each expression of `es` in turn.
pub open spec fn visit_forest<V: ExprVisitor>(v: V::V, es: Seq<ExprV>) -> V::V
    decreases es,
{
    if es.len() == 0 {
        v
    } else {
        visit_tree::<V>(visit_forest::<V>(v, es.drop_last()), es.last())
    }
}

/// The expressions that a statement holds, as the traversal meets them: a jump
/// contributes the arguments of its condition, then its target.
pub open spec fn visit_stmt<V: ExprVisitor>(v: V::V, k: StmtKindV) -> V::V {
    match k {
        StmtKindV::Do(e) => visit_tree::<V>(v, e),
        StmtKindV::Assign(d, e) => visit_tree::<V>(visit_tree::<V>(v, d), e),
        StmtKindV::Let(_, e) => visit_tree::<V>(v, e),
        StmtKindV::Jmp(c, d) => visit_tree::<V>(visit_forest::<V>(v, c.args), d),
        StmtKindV::Raw(_) => v,
    }
}

/// Rewriting `e` with `v`: the node is rewritten first, then the arguments of
/// what it became, left to right. `None` when `fuel` runs out first.
pub open spec fn walk<V: ExprVisitorMut>(v: V::V, e: ExprV, fuel: nat) -> Option<(V::V, ExprV)>
    decreases fuel, 0nat,
{
    if fuel == 0 || !V::ready(v, e) {
        None
    } else {
        let e1 = V::rewrite(v, e);
        let v1 = V::after(v, e);
        match e1 {
            ExprV::Call(c) => match walk_list::<V>(v1, c.args, (fuel - 1) as nat) {
                Some((v2, args)) => Some((v2, ExprV::Call(CallV { func: c.func, args }))),
                None => None,
            },
            _ => Some((v1, e1)),
        }
    }
}

/// Rewriting each expression of `es` in turn.
pub open spec fn walk_list<V: ExprVisitorMut>(v: V::V, es: Seq<ExprV>, fuel: nat) -> Option<
    (V::V, Seq<ExprV>),
>
    decreases fuel, es.len() + 1,
{
    if es.len() == 0 {
        Some((v, Seq::empty()))
    } else {
        match walk_list::<V>(v, es.drop_last(), fuel) {
            Some((v1, pre)) => match walk::<V>(v1, es.last(), fuel) {
                Some((v2, x)) => Some((v2, pre.push(x))),
                None => None,
            },
            None => None,
        }
    }
}

/// Rewriting the expressions of a statement, in the order of `visit_stmt`.
pub open spec fn walk_stmt<V: ExprVisitorMut>(v: V::V, k: StmtKindV, fuel: nat) -> Option<
    (V::V, StmtKindV),
> {
    match k {
        StmtKindV::Do(e) => match walk::<V>(v, e, fuel) {
            Some((v1, e1)) => Some((v1, StmtKindV::Do(e1))),
            None => None,
        },
        StmtKindV::Assign(d, e) => match walk::<V>(v, d, fuel) {
            Some((v1, d1)) => match walk::<V>(v1, e, fuel) {
                Some((v2, e1)) => Some((v2, StmtKindV::Assign(d1, e1))),
                None => None,
            },
            None => None,
        },
        StmtKindV::Let(x, e) => match walk::<V>(v, e, fuel) {
            Some((v1, e1)) => Some((v1, StmtKindV::Let(x, e1))),
            None => None,
        },
        StmtKindV::Jmp(c, d) => match walk_list::<V>(v, c.args, fuel) {
            Some((v1, args)) => match walk::<V>(v1, d, fuel) {
                Some((v2, d1)) => Some((v2, StmtKindV::Jmp(CallV { func: c.func, args }, d1))),
                None => None,
            },
            None => None,
        },
        StmtKindV::Raw(m) => Some((v, StmtKindV::Raw(m))),
    }
}

/// Whether rewriting the expressions of `k` with `v` comes to an end.
pub open spec fn walk_stmt_ends<V: ExprVisitorMut>(v: V::V, k: StmtKindV) -> bool {
    exists|fuel: nat| (#[trigger] walk_stmt::<V>(v, k, fuel)) is Some
}

/// The visitor state and statement kind once rewriting `k` with `v` has ended.
pub open spec fn walk_stmt_result<V: ExprVisitorMut>(v: V::V, k: StmtKindV) -> (V::V, StmtKindV) {
    walk_stmt::<V>(v, k, choose|fuel: nat| (#[trigger] walk_stmt::<V>(v, k, fuel)) is Some).unwrap()
}

/// Whether rewriting `e` with `v` comes to an end.
pub open spec fn walk_ends<V: ExprVisitorMut>(v: V::V, e: ExprV) -> bool {
    exists|fuel: nat| (#[trigger] walk::<V>(v, e, fuel)) is Some
}

/// The visitor state and expression once rewriting `e` with `v` has ended.
pub open spec fn walk_result<V: ExprVisitorMut>(v: V::V, e: ExprV) -> (V::V, ExprV) {
    walk::<V>(v, e, choose|fuel: nat| (#[trigger] walk::<V>(v, e, fuel)) is Some).unwrap()
}

/// Shows `expr` and then, in order, the subexpressions of each argument to `visit`.
pub fn visit_expr<V: ExprVisitor>(expr: &Expr, visit: &mut V)
    ensures
        final(visit)@ == visit_tree::<V>(old(visit)@, expr@),
    decreases expr,
{
    visit.visit(expr);
    if let Expr::Call(call) = expr {
        visit_args(&call.args, visit);
    }
}

/// Shows each argument, with its subexpressions, to `visit`.
fn visit_args<V: ExprVisitor>(args: &Vec<Expr>, visit: &mut V)
    ensures
        final(visit)@ == visit_forest::<V>(old(visit)@, args_view(args@)),
    decreases args,
{
    let mut i: usize = 0;
    assert(args@.take(0) =~= Seq::<Expr>::empty());
    while i < args.len()
        invariant
            i <= args.len(),
            visit@ == visit_forest::<V>(old(visit)@, args_view(args@.take(i as int))),
        decreases args.len() - i,
    {
        assert(decreases_to!(args => args[i as int]));
        visit_expr(&args[i], visit);
        proof {
            lemma_args_view_take(args@, i as int);
            let pre = args_view(args@.take(i as int));
            assert(args_view(args@.take(i + 1)).drop_last() =~= pre);
        }
        i += 1;
    }
    assert(args@.take(args.len() as int) =~= args@);
}

/// Shows the expressions of `stmt` to `visit`, in the order of `visit_stmt`.
pub fn visit_stmt_expr<V: ExprVisitor>(stmt: &Stmt, visit: &mut V)
    ensures
        final(visit)@ == visit_stmt::<V>(old(visit)@, stmt.kind@),
{
    match &stmt.kind {
        StmtKind::Do(expr) => visit_expr(expr, visit),
        StmtKind::Let(_, val) => {
            visit_expr(val, visit);
        },
        StmtKind::Assign(dst, val) => {
            visit_expr(dst, visit);
            visit_expr(val, visit);
        },
        StmtKind::Jmp(cond, dst) => {
            visit_args(&cond.args, visit);
            visit_expr(dst, visit);
        },
        StmtKind::Raw(_) => {},
    }
}

/// Rewrites `expr` with `visit`: the node first, then the arguments of what it
/// became.
pub fn visit_expr_mut<V: ExprVisitorMut>(expr: &mut Expr, visit: &mut V)
    requires
        walk_ends::<V>(old(visit)@, old(expr)@),
    ensures
        (final(visit)@, final(expr)@) == walk_result::<V>(old(visit)@, old(expr)@),
{
    let ghost fuel = choose|fuel: nat| (#[trigger] walk::<V>(visit@, expr@, fuel)) is Some;
    walk_expr(expr, visit, Ghost(fuel));
}

/// Rewrites the expressions of `stmt` with `visit`, in the order of `visit_stmt`.
pub fn visit_stmt_expr_mut<V: ExprVisitorMut>(stmt: &mut Stmt, visit: &mut V)
    requires
        walk_stmt_ends::<V>(old(visit)@, old(stmt).kind@),
    ensures
        (final(visit)@, final(stmt).kind@) == walk_stmt_result::<V>(old(visit)@, old(stmt).kind@),
        final(stmt).ip == old(stmt).ip,
{
    let ghost fuel = choose|fuel: nat| (#[trigger] walk_stmt::<V>(visit@, stmt.kind@, fuel)) is Some;
    match &mut stmt.kind {
        StmtKind::Do(expr) => walk_expr(expr, visit, Ghost(fuel)),
        StmtKind::Let(_, val) => {
            walk_expr(val, visit, Ghost(fuel));
        },
        StmtKind::Assign(dst, val) => {
            walk_expr(dst, visit, Ghost(fuel));
            walk_expr(val, visit, Ghost(fuel));
        },
        StmtKind::Jmp(cond, dst) => {
            walk_args(&mut cond.args, visit, Ghost(fuel));
            walk_expr(dst, visit, Ghost(fuel));
        },
        StmtKind::Raw(_) => {},
    }
}

fn walk_expr<V: ExprVisitorMut>(expr: &mut Expr, visit: &mut V, Ghost(fuel): Ghost<nat>)
    requires
        walk::<V>(old(visit)@, old(expr)@, fuel) is Some,
    ensures
        (final(visit)@, final(expr)@) == walk::<V>(old(visit)@, old(expr)@, fuel).unwrap(),
    decreases fuel, 0nat,
{
    visit.visit(expr);
    if let Expr::Call(call) = expr {
        walk_args(&mut call.args, visit, Ghost((fuel - 1) as nat));
    }
}

fn walk_args<V: ExprVisitorMut>(args: &mut Vec<Expr>, visit: &mut V, Ghost(fuel): Ghost<nat>)
    requires
        walk_list::<V>(old(visit)@, args_view(old(args)@), fuel) is Some,
    ensures
        (final(visit)@, args_view(final(args)@)) == walk_list::<V>(
            old(visit)@,
            args_view(old(args)@),
            fuel,
        ).unwrap(),
    decreases fuel, 1nat,
{
    let ghost v0 = visit@;
    let ghost s = args_view(args@);
    let ghost a0 = args@;
    proof {
        lemma_args_view(a0);
        lemma_walk_list_prefix::<V>(v0, s, fuel, s.len() as int);
        assert(a0.take(0) =~= Seq::<Expr>::empty());
        assert(s.take(0) =~= Seq::<ExprV>::empty());
    }
    let mut i: usize = 0;
    while i < args.len()
        invariant
            i <= args.len(),
            args.len() == a0.len(),
            s == args_view(a0),
            s.len() == a0.len(),
            walk_list::<V>(v0, s, fuel) is Some,
            forall|j: int| i <= j < args.len() ==> #[trigger] args@[j] == a0[j],
            walk_list::<V>(v0, s.take(i as int), fuel) == Some((visit@, args_view(args@.take(i as int)))),
        decreases args.len() - i,
    {
        proof {
            lemma_walk_list_prefix::<V>(v0, s, fuel, i + 1);
            assert(s.take(i + 1).drop_last() =~= s.take(i as int));
            lemma_args_view(a0);
        }
        let ghost before = args@;
        walk_expr(&mut args[i], visit, Ghost(fuel));
        proof {
            assert(args@.take(i + 1) =~= before.take(i as int).push(args@[i as int]));
            assert(args@.take(i as int) =~= before.take(i as int));
            lemma_args_view_push(before.take(i as int), args@[i as int]);
        }
        i += 1;
    }
    proof {
        assert(s.take(s.len() as int) =~= s);
        assert(args@.take(args.len() as int) =~= args@);
    }
}

/// Rewriting a list that comes to an end also ends on each of its prefixes.
pub proof fn lemma_walk_list_prefix<V: ExprVisitorMut>(v: V::V, s: Seq<ExprV>, fuel: nat, i: int)
    requires
        walk_list::<V>(v, s, fuel) is Some,
        0 <= i <= s.len(),
    ensures
        walk_list::<V>(v, s.take(i), fuel) is Some,
    decreases s.len(),
{
    if i < s.len() {
        lemma_walk_list_prefix::<V>(v, s.drop_last(), fuel, i);
        assert(s.drop_last().take(i) =~= s.take(i));
    } else {
        assert(s.take(i) =~= s);
    }
}

} // verus!
