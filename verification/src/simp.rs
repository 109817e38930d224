//! Peephole simplifications of statements.

use vstd::prelude::*;
use crate::ast::{Call, CallV, Expr, ExprV, Stmt, StmtKind, StmtKindV, StmtV, Var, args_view, clone_args, clone_expr, expr_eq, lemma_args_view, stmts_view};
use crate::text::{name_eq_str, str_eq};

verus! {

/// `(set x (^ x x))` (`xor x, x`) becomes `(set x 0)`.
pub open spec fn xor_v(k: StmtKindV) -> Option<StmtKindV> {
    match k {
        StmtKindV::Assign(left, ExprV::Call(c)) => if c.func == "^"@ && c.args.len() == 2 && left
            == c.args[0] && left == c.args[1] {
            Some(StmtKindV::Assign(left, ExprV::Val(0)))
        } else {
            None
        },
        _ => None,
    }
}

/// `(set d (test x x))` becomes `(set d (cmp x 0))`.
pub open spec fn test_to_compare_v(k: StmtKindV) -> Option<StmtKindV> {
    match k {
        StmtKindV::Assign(left, ExprV::Call(c)) => if c.func == "test"@ && c.args.len() == 2
            && c.args[0] == c.args[1] {
            Some(
                StmtKindV::Assign(
                    left,
                    ExprV::Call(CallV { func: "cmp"@, args: seq![c.args[0], ExprV::Val(0)] }),
                ),
            )
        } else {
            None
        },
        _ => None,
    }
}

/// The comparison that a conditional jump tests, by the jump's name.
pub open spec fn jump_test(jmp: Seq<char>) -> Option<Seq<char>> {
    if jmp == "je"@ {
        Some("="@)
    } else if jmp == "jne"@ {
        Some("!="@)
    } else if jmp == "jge"@ {
        Some(">="@)
    } else if jmp == "jl"@ {
        Some("<"@)
    } else if jmp == "jle"@ {
        Some("<="@)
    } else {
        None
    }
}

/// The arguments of `(set _ (cmp ..))`, a comparison whose result is dropped.
pub open spec fn dropped_compare(k: StmtKindV) -> Option<Seq<ExprV>> {
    match k {
        StmtKindV::Assign(ExprV::Name(n), ExprV::Call(c)) => if n == "_"@ && c.func == "cmp"@ {
            Some(c.args)
        } else {
            None
        },
        _ => None,
    }
}

/// A dropped comparison followed by a jump whose condition has arguments:
/// a shape that the simplifier does not accept.
pub open spec fn compare_jump_refused(k0: StmtKindV, k1: StmtKindV) -> bool {
    &&& dropped_compare(k0) is Some
    &&& k1 matches StmtKindV::Jmp(cond, _)
    &&& cond.args.len() != 0
}

/// `(set _ (cmp a b))` then `(jmp (je) d)` becomes `(jmp (= a b) d)`, and
/// likewise for `jne`, `jge`, `jl` and `jle`.
pub open spec fn compare_jump_v(k0: StmtKindV, k1: StmtKindV) -> Option<StmtKindV> {
    match (dropped_compare(k0), k1) {
        (Some(args), StmtKindV::Jmp(cond, dst)) => match jump_test(cond.func) {
            Some(func) => Some(StmtKindV::Jmp(CallV { func, args }, dst)),
            None => None,
        },
        _ => None,
    }
}

/// The statement with its kind replaced.
pub open spec fn with_kind(s: StmtV, k: StmtKindV) -> StmtV {
    StmtV { ip: s.ip, kind: k }
}

/// A comparison and the jump after it, merged into one statement of kind `k`
/// that stands for the addresses of both, in order.
pub open spec fn merged(a: StmtV, b: StmtV, k: StmtKindV) -> StmtV {
    StmtV { ip: a.ip + b.ip, kind: k }
}

/// The kind once `test_to_compare` has been tried.
pub open spec fn after_test(k: StmtKindV) -> StmtKindV {
    match test_to_compare_v(k) {
        Some(k1) => k1,
        None => k,
    }
}

/// The simplified statements, from the first on: a statement that `xor`
/// rewrites is done; otherwise `test_to_compare` is tried, and then the pair it
/// forms with the next statement is merged when `compare_jump` applies, the
/// merged statement standing for the addresses of both.
pub open spec fn simp_list(s: Seq<StmtV>) -> Seq<StmtV>
    decreases s.len(),
{
    if s.len() == 0 {
        Seq::empty()
    } else {
        match xor_v(s[0].kind) {
            Some(k) => seq![with_kind(s[0], k)] + simp_list(s.drop_first()),
            None => {
                let k1 = after_test(s[0].kind);
                if s.len() >= 2 && compare_jump_v(k1, s[1].kind) is Some {
                    seq![merged(s[0], s[1], compare_jump_v(k1, s[1].kind).unwrap())] + simp_list(s.skip(2))
                } else {
                    seq![with_kind(s[0], k1)] + simp_list(s.drop_first())
                }
            },
        }
    }
}

/// Whether simplifying `s` meets no refused shape.
pub open spec fn simp_accepts(s: Seq<StmtV>) -> bool
    decreases s.len(),
{
    if s.len() == 0 {
        true
    } else {
        match xor_v(s[0].kind) {
            Some(_) => simp_accepts(s.drop_first()),
            None => {
                let k1 = after_test(s[0].kind);
                if s.len() >= 2 {
                    if compare_jump_refused(k1, s[1].kind) {
                        false
                    } else if compare_jump_v(k1, s[1].kind) is Some {
                        simp_accepts(s.skip(2))
                    } else {
                        simp_accepts(s.drop_first())
                    }
                } else {
                    true
                }
            },
        }
    }
}

/// The abstract value of an optional statement kind.
pub open spec fn opt_kind_view(o: Option<StmtKind>) -> Option<StmtKindV> {
    match o {
        Some(k) => Some(k@),
        None => None,
    }
}

/// Simplify `xor eax, eax` => setting eax to 0.
pub fn xor(stmt: &StmtKind) -> (res: Option<StmtKind>)
    ensures
        opt_kind_view(res) == xor_v(stmt@),
{
    let (left, call) = match stmt {
        StmtKind::Assign(left, Expr::Call(call)) => (left, call),
        _ => return None,
    };
    if !str_eq(call.func.as_str(), "^") {
        return None;
    }
    proof {
        lemma_args_view(call.args@);
    }
    if call.args.len() != 2 {
        return None;
    }
    if !expr_eq(left, &call.args[0]) || !expr_eq(left, &call.args[1]) {
        return None;
    }
    Some(StmtKind::Assign(clone_expr(left), Expr::Val(0)))
}

/// Simplify (test x x) to (cmp x 0).
pub fn test_to_compare(stmt: &StmtKind) -> (res: Option<StmtKind>)
    ensures
        opt_kind_view(res) == test_to_compare_v(stmt@),
{
    let (left, call) = match stmt {
        StmtKind::Assign(left, Expr::Call(call)) => (left, call),
        _ => return None,
    };
    if !str_eq(call.func.as_str(), "test") {
        return None;
    }
    proof {
        lemma_args_view(call.args@);
    }
    if call.args.len() != 2 {
        return None;
    }
    if !expr_eq(&call.args[0], &call.args[1]) {
        return None;
    }
    let args = vec![clone_expr(&call.args[0]), Expr::Val(0)];
    proof {
        lemma_args_view(args@);
        assert(args_view(args@) =~= seq![args_view(call.args@)[0], ExprV::Val(0)]);
    }
    Some(StmtKind::Assign(clone_expr(left), Expr::call("cmp", args)))
}

/// The comparison that the conditional jump `jmp` tests.
fn jump_test_of(jmp: &str) -> (res: Option<&'static str>)
    ensures
        match res {
            Some(f) => jump_test(jmp@) == Some(f@),
            None => jump_test(jmp@) is None,
        },
{
    if str_eq(jmp, "je") {
        Some("=")
    } else if str_eq(jmp, "jne") {
        Some("!=")
    } else if str_eq(jmp, "jge") {
        Some(">=")
    } else if str_eq(jmp, "jl") {
        Some("<")
    } else if str_eq(jmp, "jle") {
        Some("<=")
    } else {
        None
    }
}

/// Simplify a cmp followed by conditional jmp.
pub fn compare_jump(stmts: (&StmtKind, &StmtKind)) -> (res: Option<StmtKind>)
    requires
        !compare_jump_refused(stmts.0@, stmts.1@),
    ensures
        opt_kind_view(res) == compare_jump_v(stmts.0@, stmts.1@),
{
    // First stmt looks like (set _ (cmp expr var))
    let (left, expr) = match stmts.0 {
        StmtKind::Assign(left, expr) => (left, expr),
        _ => return None,
    };
    let name = match left {
        Expr::Name(name) => name,
        _ => return None,
    };
    if !name_eq_str(name, "_") {
        return None;
    }
    // Expr is (cmp expr var)
    let call = match expr {
        Expr::Call(call) => call,
        _ => return None,
    };
    if !str_eq(call.func.as_str(), "cmp") {
        return None;
    }
    let (cond, dst) = match stmts.1 {
        StmtKind::Jmp(cond, dst) => (cond, dst),
        _ => return None,
    };
    let func = match jump_test_of(cond.func.as_str()) {
        Some(func) => func,
        None => return None,
    };
    Some(StmtKind::Jmp(Box::new(Call { func: func.to_owned(), args: clone_args(&call.args) }), clone_expr(dst)))
}

/// Rewriting the first statement with `xor` changes neither the result nor
/// the acceptance of the simplification.
proof fn lemma_simp_xor(t: Seq<StmtV>, k: StmtKindV)
    requires
        t.len() > 0,
        xor_v(t[0].kind) == Some(k),
    ensures
        simp_list(t.update(0, with_kind(t[0], k))) == simp_list(t),
        simp_accepts(t) ==> simp_accepts(t.update(0, with_kind(t[0], k))),
{
    let t2 = t.update(0, with_kind(t[0], k));
    assert(t2.drop_first() =~= t.drop_first());
    assert(xor_v(k) is None);
    assert(test_to_compare_v(k) is None);
    assert(after_test(k) == k);
    assert(dropped_compare(k) is None);
    assert(with_kind(t2[0], k) == t2[0]);
    if t.len() >= 2 {
        assert(compare_jump_v(k, t2[1].kind) is None);
        assert(!compare_jump_refused(k, t2[1].kind));
    }
}

/// Merging the first two statements with `compare_jump` changes neither the result
/// nor the acceptance of the simplification.
proof fn lemma_simp_compare_jump(t: Seq<StmtV>)
    requires
        t.len() >= 2,
        xor_v(t[0].kind) is None,
        compare_jump_v(after_test(t[0].kind), t[1].kind) is Some,
    ensures
        ({
            let j = compare_jump_v(after_test(t[0].kind), t[1].kind).unwrap();
            let t2 = seq![merged(t[0], t[1], j)] + t.skip(2);
            simp_list(t2) == simp_list(t) && (simp_accepts(t) ==> simp_accepts(t2))
        }),
{
    let j = compare_jump_v(after_test(t[0].kind), t[1].kind).unwrap();
    let t2 = seq![merged(t[0], t[1], j)] + t.skip(2);
    assert(t2.drop_first() =~= t.skip(2));
    assert(xor_v(j) is None);
    assert(test_to_compare_v(j) is None);
    assert(after_test(j) == j);
    assert(dropped_compare(j) is None);
    assert(with_kind(t2[0], j) == t2[0]);
    if t2.len() >= 2 {
        assert(t2[1] == t.skip(2)[0]);
        assert(compare_jump_v(j, t2[1].kind) is None);
        assert(!compare_jump_refused(j, t2[1].kind));
    }
}

/// When neither `xor` nor `compare_jump` applies, the first statement is done.
proof fn lemma_simp_next(t: Seq<StmtV>)
    requires
        t.len() > 0,
        xor_v(t[0].kind) is None,
        !(t.len() >= 2 && compare_jump_v(after_test(t[0].kind), t[1].kind) is Some),
    ensures
        simp_list(t) == seq![with_kind(t[0], after_test(t[0].kind))] + simp_list(t.drop_first()),
        simp_accepts(t) ==> simp_accepts(t.drop_first()),
{
    if t.len() == 1 {
        assert(t.drop_first() =~= Seq::<StmtV>::empty());
    }
}

/// The addresses of the statements, one statement after another.
pub open spec fn all_ips(s: Seq<StmtV>) -> Seq<u32>
    decreases s.len(),
{
    if s.len() == 0 {
        Seq::empty()
    } else {
        s[0].ip + all_ips(s.drop_first())
    }
}

/// Simplifying never adds statements, and loses, adds or reorders no address:
/// the addresses of the statements it gives, one after another, are those of
/// the statements it was given.
pub proof fn law_simp_keeps_addresses(s: Seq<StmtV>)
    ensures
        simp_list(s).len() <= s.len(),
        all_ips(simp_list(s)) == all_ips(s),
    decreases s.len(),
{
    if s.len() > 0 {
        let r = simp_list(s);
        let k1 = after_test(s[0].kind);
        if xor_v(s[0].kind) is None && s.len() >= 2 && compare_jump_v(k1, s[1].kind) is Some {
            let t = s.skip(2);
            law_simp_keeps_addresses(t);
            assert(r.drop_first() == simp_list(t));
            let d = s.drop_first();
            assert(d.drop_first() =~= t);
            assert(d[0] == s[1]);
            assert(all_ips(d) == d[0].ip + all_ips(d.drop_first()));
            assert(all_ips(s) == s[0].ip + (s[1].ip + all_ips(t)));
            assert(all_ips(r) == (s[0].ip + s[1].ip) + all_ips(simp_list(t)));
            assert((s[0].ip + s[1].ip) + all_ips(t) =~= s[0].ip + (s[1].ip + all_ips(t)));
        } else {
            let t = s.drop_first();
            law_simp_keeps_addresses(t);
            assert(r.drop_first() == simp_list(t));
            assert(r[0].ip == s[0].ip);
        }
    }
}

/// `(set d (^ a b))` leads: it becomes `(set d 0)` when `a`, `b` and `d` are
/// one expression (`xor x, x` clears `x`), and stays as it is otherwise; the
/// statements after it are simplified on their own.
pub proof fn law_simp_xor(s: Seq<StmtV>, d: ExprV, a: ExprV, b: ExprV)
    requires
        s.len() > 0,
        s[0].kind == StmtKindV::Assign(d, ExprV::Call(CallV { func: "^"@, args: seq![a, b] })),
    ensures
        a == d && b == d ==> simp_list(s) == seq![StmtV { ip: s[0].ip, kind: StmtKindV::Assign(d, ExprV::Val(0)) }]
            + simp_list(s.drop_first()),
        !(a == d && b == d) ==> simp_list(s) == seq![s[0]] + simp_list(s.drop_first()),
{
    reveal_strlit("^");
    reveal_strlit("test");
    reveal_strlit("cmp");
    assert(!("^"@ =~= "test"@));
    assert(!("^"@ =~= "cmp"@));
    if !(a == d && b == d) {
        assert(xor_v(s[0].kind) is None);
        assert(test_to_compare_v(s[0].kind) is None);
        assert(dropped_compare(s[0].kind) is None);
        assert(with_kind(s[0], s[0].kind) == s[0]);
    }
}

/// Applies the peephole rules from the first statement on, as `simp_list` says.
pub fn simp(stmts: Vec<Stmt>) -> (res: Vec<Stmt>)
    requires
        simp_accepts(stmts_view(stmts@)),
    ensures
        stmts_view(res@) == simp_list(stmts_view(stmts@)),
{
    let ghost orig = stmts_view(stmts@);
    let mut stmts = stmts;
    let mut i: usize = 0;
    proof {
        assert(orig.skip(0) =~= orig);
        assert(orig.take(0) + simp_list(orig) =~= simp_list(orig));
    }
    while i < stmts.len()
        invariant
            i <= stmts.len(),
            simp_list(orig) == stmts_view(stmts@).take(i as int) + simp_list(
                stmts_view(stmts@).skip(i as int),
            ),
            simp_accepts(stmts_view(stmts@).skip(i as int)),
        decreases stmts.len() - i, (if i < stmts.len() && xor_v(stmts@[i as int].kind@) is Some {
            1int
        } else {
            0int
        }),
    {
        let ghost s0 = stmts_view(stmts@);
        let ghost t = s0.skip(i as int);
        if let Some(s) = xor(&stmts[i].kind) {
            stmts[i].kind = s;
            proof {
                lemma_simp_xor(t, s@);
                assert(stmts_view(stmts@) =~= s0.update(i as int, with_kind(s0[i as int], s@)));
                assert(stmts_view(stmts@).skip(i as int) =~= t.update(0, with_kind(t[0], s@)));
                assert(stmts_view(stmts@).take(i as int) =~= s0.take(i as int));
            }
            continue;
        }
        if let Some(s) = test_to_compare(&stmts[i].kind) {
            stmts[i].kind = s;
        }
        let ghost s1 = stmts_view(stmts@);
        proof {
            assert(s1 =~= s0.update(i as int, with_kind(s0[i as int], after_test(t[0].kind))));
        }
        if i + 1 < stmts.len() {
            proof {
                assert(s1[i + 1] == t[1]);
            }
            if let Some(s) = compare_jump((&stmts[i].kind, &stmts[i + 1].kind)) {
                stmts[i].kind = s;
                let next = stmts.remove(i + 1);
                let mut next_ip = next.ip;
                stmts[i].ip.append(&mut next_ip);
                proof {
                    lemma_simp_compare_jump(t);
                    let j = compare_jump_v(after_test(t[0].kind), t[1].kind).unwrap();
                    assert(stmts_view(stmts@).skip(i as int) =~= seq![merged(t[0], t[1], j)] + t.skip(2));
                    assert(stmts_view(stmts@).take(i as int) =~= s0.take(i as int));
                }
                continue;
            }
        }
        proof {
            lemma_simp_next(t);
            assert(s1.take(i + 1) =~= s0.take(i as int) + seq![with_kind(t[0], after_test(t[0].kind))]);
            assert(s1.skip(i + 1) =~= t.drop_first());
        }
        i += 1;
    }
    proof {
        assert(stmts_view(stmts@).take(stmts.len() as int) =~= stmts_view(stmts@));
        assert(stmts_view(stmts@).skip(stmts.len() as int) =~= Seq::<StmtV>::empty());
    }
    stmts
}

/// Every argument of a phi is either the variable that the phi defines or `e`,
/// and `e` occurs.
pub open spec fn collapses_to(args: Seq<ExprV>, x: u16, e: ExprV) -> bool {
    &&& e != ExprV::Var(x)
    &&& args.contains(e)
    &&& forall|i: int| 0 <= i < args.len() ==> args[i] == ExprV::Var(x) || #[trigger] args[i] == e
}

/// `(let x (phi ..))` whose arguments, apart from `x` itself, are all the same
/// expression `e` becomes `(let x e)`.
pub open spec fn phi_collapse(k: StmtKindV) -> Option<StmtKindV> {
    match k {
        StmtKindV::Let(x, ExprV::Call(c)) => if c.func == "phi"@ && exists|e: ExprV|
            collapses_to(c.args, x, e) {
            Some(StmtKindV::Let(x, choose|e: ExprV| collapses_to(c.args, x, e)))
        } else {
            None
        },
        _ => None,
    }
}

/// A statement kind after `simp_stmt`.
pub open spec fn simp_stmt_kind(k: StmtKindV) -> StmtKindV {
    match phi_collapse(k) {
        Some(k1) => k1,
        None => k,
    }
}

fn is_var(e: &Expr, x: Var) -> (res: bool)
    ensures
        res == (e@ == ExprV::Var(x.0)),
{
    match e {
        Expr::Var(v) => v.0 == x.0,
        _ => false,
    }
}

/// Simplifies `(let x (phi ..))` when the phi has a single value other than `x`;
/// true when the statement changed.
pub fn simp_stmt(stmt: &mut Stmt) -> (res: bool)
    ensures
        res == phi_collapse(old(stmt).kind@) is Some,
        final(stmt).kind@ == simp_stmt_kind(old(stmt).kind@),
        final(stmt).ip == old(stmt).ip,
{
    let (x, call) = match &stmt.kind {
        StmtKind::Let(x, Expr::Call(call)) => (*x, call),
        _ => return false,
    };
    if !str_eq(call.func.as_str(), "phi") {
        return false;
    }
    let ghost args = args_view(call.args@);
    proof {
        lemma_args_view(call.args@);
    }
    let mut j: usize = 0;
    while j < call.args.len() && is_var(&call.args[j], x)
        invariant
            j <= call.args.len(),
            args == args_view(call.args@),
            args.len() == call.args.len(),
            forall|k: int| 0 <= k < args.len() ==> #[trigger] args[k] == call.args@[k]@,
            stmt.kind@ == StmtKindV::Let(x.0, ExprV::Call(CallV { func: "phi"@, args })),
            forall|i: int| 0 <= i < j ==> args[i] == ExprV::Var(x.0),
        decreases call.args.len() - j,
    {
        j += 1;
    }
    if j == call.args.len() {
        proof {
            assert forall|e: ExprV| !collapses_to(args, x.0, e) by {
                if collapses_to(args, x.0, e) {
                    let k = choose|k: int| 0 <= k < args.len() && args[k] == e;
                }
            }
            assert(!(exists|e: ExprV| collapses_to(args, x.0, e)));
            assert(phi_collapse(stmt.kind@) is None);
        }
        return false;
    }
    let mut i: usize = 0;
    while i < call.args.len()
        invariant
            j < call.args.len(),
            i <= call.args.len(),
            args == args_view(call.args@),
            args.len() == call.args.len(),
            forall|k: int| 0 <= k < args.len() ==> #[trigger] args[k] == call.args@[k]@,
            stmt.kind@ == StmtKindV::Let(x.0, ExprV::Call(CallV { func: "phi"@, args })),
            args[j as int] != ExprV::Var(x.0),
            forall|k: int| 0 <= k < i ==> args[k] == ExprV::Var(x.0) || #[trigger] args[k] == args[j as int],
        decreases call.args.len() - i,
    {
        if !is_var(&call.args[i], x) && !expr_eq(&call.args[i], &call.args[j]) {
            proof {
                assert forall|e: ExprV| !collapses_to(args, x.0, e) by {
                    if collapses_to(args, x.0, e) {
                        assert(args[j as int] == e);
                        assert(args[i as int] == e);
                    }
                }
                assert(!(exists|e: ExprV| collapses_to(args, x.0, e)));
                assert(phi_collapse(stmt.kind@) is None);
            }
            return false;
        }
        i += 1;
    }
    let e = clone_expr(&call.args[j]);
    proof {
        assert(collapses_to(args, x.0, args[j as int]));
        let c = choose|e: ExprV| collapses_to(args, x.0, e);
        assert(args[j as int] == c);
    }
    stmt.kind = StmtKind::Let(x, e);
    true
}

} // verus!
