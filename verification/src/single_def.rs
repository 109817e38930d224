//! The single-assignment property of SSA form: in the blocks that `ssa`
//! produces from statements without definitions of their own, no variable is
//! defined twice.

use vstd::prelude::*;
use crate::ast::{ExprV, StmtKindV, StmtV};
use crate::names::{Entries, assoc_get, assoc_insert, key_index, lemma_key_index};
use crate::ssa::{Renamer, RenamerV, fresh_renamer, lemma_rename_blocks, phi_args, phi_value, phis_of, rename_blocks, rename_stmt, rename_stmts, renamed_flow, ssa_accepts, ssa_of, with_phis};
use crate::simp::simp_stmt_kind;
use crate::blocks::{BlockV, blocks_of, concat, law_blocks_cover, preds_of};
use crate::flow::{FlowV, all_inputs, flow_key, lemma_fix_mono, lemma_round_mono, missing, propagate, run_fix, run_round};
use crate::visit::{ExprVisitorMut, walk, walk_list, walk_stmt};

verus! {

/// Whether statement `s` defines a variable.
pub open spec fn is_def(s: StmtV) -> bool {
    s.kind is Let
}

/// The variable that a definition defines.
pub open spec fn def_var(s: StmtV) -> u16 {
    s.kind->Let_0
}

/// No variable is defined by two statements of `s`.
pub open spec fn defs_distinct(s: Seq<StmtV>) -> bool {
    forall|i: int, j: int|
        0 <= i < s.len() && 0 <= j < s.len() && i != j && is_def(#[trigger] s[i]) && is_def(#[trigger] s[j])
            ==> def_var(s[i]) != def_var(s[j])
}

/// The variables of `e` are distinct.
pub open spec fn entry_vars_distinct(e: Entries) -> bool {
    forall|i: int, j: int| 0 <= i < e.len() && 0 <= j < e.len() && i != j ==> #[trigger] e[i].1 != #[trigger] e[j].1
}

/// What `assoc_insert` leaves: one entry holds the new pair, every other entry
/// is where it was.
proof fn lemma_assoc_insert_shape(e: Entries, n: Seq<char>, v: u16)
    ensures
        ({
            let r = assoc_insert(e, n, v);
            let k = if key_index(e, n) >= 0 { key_index(e, n) } else { e.len() as int };
            &&& 0 <= k < r.len()
            &&& r[k] == (n, v)
            &&& r.len() == e.len() || r.len() == e.len() + 1
            &&& forall|j: int| 0 <= j < r.len() && j != k ==> j < e.len() && #[trigger] r[j] == e[j]
        }),
{
    lemma_key_index(e, n);
}

/// The renamer state and the statements renamed so far, in a block whose
/// variables start at `n0`: inputs and definitions have distinct variables,
/// all from `n0` up to the next unused one.
pub open spec fn renamer_ok(st: RenamerV, o: Seq<StmtV>, n0: int) -> bool {
    &&& n0 <= st.next
    &&& forall|j: int| 0 <= j < st.reads.len() ==> n0 <= #[trigger] st.reads[j].1 < st.next
    &&& entry_vars_distinct(st.reads)
    &&& defs_distinct(o)
    &&& forall|i: int| 0 <= i < o.len() && is_def(#[trigger] o[i]) ==> n0 <= def_var(o[i]) < st.next
    &&& forall|i: int, j: int|
        0 <= i < o.len() && 0 <= j < st.reads.len() && is_def(#[trigger] o[i]) ==> def_var(o[i])
            != #[trigger] st.reads[j].1
}

proof fn lemma_after_ok(st: RenamerV, e: ExprV, o: Seq<StmtV>, n0: int)
    requires
        renamer_ok(st, o, n0),
        <Renamer as ExprVisitorMut>::ready(st, e),
    ensures
        renamer_ok(<Renamer as ExprVisitorMut>::after(st, e), o, n0),
{
    if let ExprV::Name(n) = e {
        if assoc_get(st.writes, n) is None {
            let r = assoc_insert(st.reads, n, st.next);
            lemma_assoc_insert_shape(st.reads, n, st.next);
            let st1 = <Renamer as ExprVisitorMut>::after(st, e);
            assert(st1.reads == r);
            assert(st1.next == st.next + 1);
            let k = if key_index(st.reads, n) >= 0 { key_index(st.reads, n) } else { st.reads.len() as int };
            assert forall|i: int, j: int| 0 <= i < r.len() && 0 <= j < r.len() && i != j implies #[trigger] r[i].1
                != #[trigger] r[j].1 by {
                if i != k && j != k {
                    assert(r[i] == st.reads[i]);
                    assert(r[j] == st.reads[j]);
                } else if i == k {
                    assert(r[j] == st.reads[j]);
                } else {
                    assert(r[i] == st.reads[i]);
                }
            }
            assert forall|j: int| 0 <= j < r.len() implies n0 <= #[trigger] r[j].1 < st1.next by {
                if j != k {
                    assert(r[j] == st.reads[j]);
                }
            }
            assert forall|i: int, j: int| 0 <= i < o.len() && 0 <= j < r.len() && is_def(#[trigger] o[i]) implies def_var(
                o[i],
            ) != #[trigger] r[j].1 by {
                if j != k {
                    assert(r[j] == st.reads[j]);
                }
            }
        }
    }
}

proof fn lemma_walk_ok(st: RenamerV, e: ExprV, fuel: nat, o: Seq<StmtV>, n0: int)
    requires
        renamer_ok(st, o, n0),
        walk::<Renamer>(st, e, fuel) is Some,
    ensures
        renamer_ok(walk::<Renamer>(st, e, fuel).unwrap().0, o, n0),
    decreases fuel, 0nat,
{
    lemma_after_ok(st, e, o, n0);
    let st1 = <Renamer as ExprVisitorMut>::after(st, e);
    if let ExprV::Call(c) = <Renamer as ExprVisitorMut>::rewrite(st, e) {
        lemma_walk_list_ok(st1, c.args, (fuel - 1) as nat, o, n0);
    }
}

proof fn lemma_walk_list_ok(st: RenamerV, es: Seq<ExprV>, fuel: nat, o: Seq<StmtV>, n0: int)
    requires
        renamer_ok(st, o, n0),
        walk_list::<Renamer>(st, es, fuel) is Some,
    ensures
        renamer_ok(walk_list::<Renamer>(st, es, fuel).unwrap().0, o, n0),
    decreases fuel, es.len() + 1,
{
    if es.len() > 0 {
        lemma_walk_list_ok(st, es.drop_last(), fuel, o, n0);
        let st1 = walk_list::<Renamer>(st, es.drop_last(), fuel).unwrap().0;
        lemma_walk_ok(st1, es.last(), fuel, o, n0);
    }
}

proof fn lemma_walk_stmt_ok(st: RenamerV, k: StmtKindV, fuel: nat, o: Seq<StmtV>, n0: int)
    requires
        renamer_ok(st, o, n0),
        walk_stmt::<Renamer>(st, k, fuel) is Some,
    ensures
        renamer_ok(walk_stmt::<Renamer>(st, k, fuel).unwrap().0, o, n0),
        walk_stmt::<Renamer>(st, k, fuel).unwrap().1 is Let <==> k is Let,
        k is Let ==> walk_stmt::<Renamer>(st, k, fuel).unwrap().1->Let_0 == k->Let_0,
{
    match k {
        StmtKindV::Do(e) => lemma_walk_ok(st, e, fuel, o, n0),
        StmtKindV::Assign(d, e) => {
            lemma_walk_ok(st, d, fuel, o, n0);
            lemma_walk_ok(walk::<Renamer>(st, d, fuel).unwrap().0, e, fuel, o, n0);
        },
        StmtKindV::Let(_, e) => lemma_walk_ok(st, e, fuel, o, n0),
        StmtKindV::Jmp(c, d) => {
            lemma_walk_list_ok(st, c.args, fuel, o, n0);
            lemma_walk_ok(walk_list::<Renamer>(st, c.args, fuel).unwrap().0, d, fuel, o, n0);
        },
        StmtKindV::Raw(_) => {},
    }
}

/// No statement of `s` defines a variable.
pub open spec fn no_defs(s: Seq<StmtV>) -> bool {
    forall|i: int| 0 <= i < s.len() ==> !is_def(#[trigger] s[i])
}

/// Renaming statements that define nothing allocates each variable once.
proof fn lemma_rename_stmts_ok(st0: RenamerV, s: Seq<StmtV>, n0: int)
    requires
        renamer_ok(st0, Seq::empty(), n0),
        no_defs(s),
        rename_stmts(st0, s) is Some,
    ensures
        renamer_ok(rename_stmts(st0, s).unwrap().0, rename_stmts(st0, s).unwrap().1, n0),
    decreases s.len(),
{
    if s.len() > 0 {
        let d = s.drop_last();
        assert(no_defs(d)) by {
            assert forall|i: int| 0 <= i < d.len() implies !is_def(#[trigger] d[i]) by {
                assert(d[i] == s[i]);
            }
        }
        lemma_rename_stmts_ok(st0, d, n0);
        let (st1, pre) = rename_stmts(st0, d).unwrap();
        let x = s.last();
        assert(!is_def(s[s.len() - 1]));
        let (st3, y) = rename_stmt(st1, x).unwrap();
        let (stA, k1) = match x.kind {
            StmtKindV::Assign(ExprV::Name(_), val) => (
                RenamerV { next: (st1.next + 1) as u16, ..st1 },
                StmtKindV::Let(st1.next, val),
            ),
            _ => (st1, x.kind),
        };
        let fuel = choose|fuel: nat| (#[trigger] walk_stmt::<Renamer>(stA, k1, fuel)) is Some;
        assert(walk_stmt::<Renamer>(stA, k1, fuel) is Some);
        let (st2, k2) = walk_stmt::<Renamer>(stA, k1, fuel).unwrap();
        assert(y.kind == k2);
        let o = pre.push(y);
        assert(o.drop_last() == pre);
        assert forall|i: int| 0 <= i < pre.len() implies #[trigger] o[i] == pre[i] by {}
        assert(renamer_ok(stA, o, n0)) by {
            lemma_walk_stmt_ok(stA, k1, fuel, Seq::empty(), n0);
            assert forall|i: int, j: int|
                0 <= i < o.len() && 0 <= j < o.len() && i != j && is_def(#[trigger] o[i]) && is_def(
                    #[trigger] o[j],
                ) implies def_var(o[i]) != def_var(o[j]) by {
                if i < pre.len() && j < pre.len() {
                    assert(o[i] == pre[i] && o[j] == pre[j]);
                } else if i < pre.len() {
                    assert(o[i] == pre[i]);
                } else {
                    assert(o[j] == pre[j]);
                }
            }
            assert forall|i: int| 0 <= i < o.len() && is_def(#[trigger] o[i]) implies n0 <= def_var(o[i]) < stA.next by {
                if i < pre.len() {
                    assert(o[i] == pre[i]);
                }
            }
            assert forall|i: int, j: int|
                0 <= i < o.len() && 0 <= j < stA.reads.len() && is_def(#[trigger] o[i]) implies def_var(o[i])
                != #[trigger] stA.reads[j].1 by {
                if i < pre.len() {
                    assert(o[i] == pre[i]);
                }
            }
        }
        lemma_walk_stmt_ok(stA, k1, fuel, o, n0);
    }
}

/// The renamed blocks `r` and the block inputs `ins`: every input and every
/// definition has its own variable, below `n`.
pub open spec fn vars_apart(r: Seq<BlockV>, ins: Seq<Entries>, n: int) -> bool {
    &&& r.len() == ins.len()
    &&& forall|b: int, j: int| 0 <= b < ins.len() && 0 <= j < ins[b].len() ==> (#[trigger] ins[b][j]).1 < n
    &&& forall|b1: int, j1: int, b2: int, j2: int|
        0 <= b1 < ins.len() && 0 <= j1 < ins[b1].len() && 0 <= b2 < ins.len() && 0 <= j2 < ins[b2].len() && (b1
            != b2 || j1 != j2) ==> (#[trigger] ins[b1][j1]).1 != (#[trigger] ins[b2][j2]).1
    &&& forall|c: int, i: int|
        0 <= c < r.len() && 0 <= i < r[c].stmts.len() && is_def(#[trigger] r[c].stmts[i]) ==> def_var(
            r[c].stmts[i],
        ) < n
    &&& forall|c1: int, i1: int, c2: int, i2: int|
        0 <= c1 < r.len() && 0 <= i1 < r[c1].stmts.len() && 0 <= c2 < r.len() && 0 <= i2 < r[c2].stmts.len() && (
        c1 != c2 || i1 != i2) && is_def(#[trigger] r[c1].stmts[i1]) && is_def(#[trigger] r[c2].stmts[i2])
            ==> def_var(r[c1].stmts[i1]) != def_var(r[c2].stmts[i2])
    &&& forall|c: int, i: int, b: int, j: int|
        0 <= c < r.len() && 0 <= i < r[c].stmts.len() && 0 <= b < ins.len() && 0 <= j < ins[b].len() && is_def(
            #[trigger] r[c].stmts[i],
        ) ==> def_var(r[c].stmts[i]) != (#[trigger] ins[b][j]).1
}

/// Renaming blocks that define nothing gives every input and definition its
/// own variable.
proof fn lemma_rename_blocks_ok(bs: Seq<BlockV>, next: u16)
    requires
        rename_blocks(bs, next) is Some,
        forall|b: int| 0 <= b < bs.len() ==> no_defs(#[trigger] bs[b].stmts),
    ensures
        ({
            let (r, ins, _, n) = rename_blocks(bs, next).unwrap();
            vars_apart(r, ins, n as int) && n >= next
        }),
    decreases bs.len(),
{
    if bs.len() > 0 {
        let d = bs.drop_last();
        assert forall|b: int| 0 <= b < d.len() implies no_defs(#[trigger] d[b].stmts) by {
            assert(d[b] == bs[b]);
        }
        lemma_rename_blocks_ok(d, next);
        let (pre, ins0, outs0, n1) = rename_blocks(d, next).unwrap();
        let last = bs.last();
        assert(no_defs(bs[bs.len() - 1].stmts));
        let st0 = fresh_renamer(n1);
        assert(renamer_ok(st0, Seq::empty(), n1 as int));
        lemma_rename_stmts_ok(st0, last.stmts, n1 as int);
        let (st, stmts) = rename_stmts(st0, last.stmts).unwrap();
        let nb = BlockV { ip: last.ip, stmts };
        let r = pre.push(nb);
        let ins = ins0.push(st.reads);
        let n = st.next as int;
        let m = pre.len() as int;
        assert(r[m] == nb);
        assert(ins[m] == st.reads);
        assert forall|c: int| 0 <= c < m implies #[trigger] r[c] == pre[c] && ins[c] == ins0[c] by {}
        assert forall|b: int, j: int| 0 <= b < ins.len() && 0 <= j < ins[b].len() implies (#[trigger] ins[b][j]).1 < n by {
            if b < m {
                assert(ins[b] == ins0[b]);
            }
        }
        assert forall|b1: int, j1: int, b2: int, j2: int|
            0 <= b1 < ins.len() && 0 <= j1 < ins[b1].len() && 0 <= b2 < ins.len() && 0 <= j2 < ins[b2].len() && (b1
                != b2 || j1 != j2) implies (#[trigger] ins[b1][j1]).1 != (#[trigger] ins[b2][j2]).1 by {
            if b1 < m {
                assert(ins[b1] == ins0[b1]);
            }
            if b2 < m {
                assert(ins[b2] == ins0[b2]);
            }
        }
        assert forall|c: int, i: int| 0 <= c < r.len() && 0 <= i < r[c].stmts.len() && is_def(
            #[trigger] r[c].stmts[i],
        ) implies def_var(r[c].stmts[i]) < n by {
            if c < m {
                assert(r[c] == pre[c]);
            }
        }
        assert forall|c1: int, i1: int, c2: int, i2: int|
            0 <= c1 < r.len() && 0 <= i1 < r[c1].stmts.len() && 0 <= c2 < r.len() && 0 <= i2 < r[c2].stmts.len()
                && (c1 != c2 || i1 != i2) && is_def(#[trigger] r[c1].stmts[i1]) && is_def(
                #[trigger] r[c2].stmts[i2],
            ) implies def_var(r[c1].stmts[i1]) != def_var(r[c2].stmts[i2]) by {
            if c1 < m {
                assert(r[c1] == pre[c1]);
            }
            if c2 < m {
                assert(r[c2] == pre[c2]);
            }
        }
        assert forall|c: int, i: int, b: int, j: int|
            0 <= c < r.len() && 0 <= i < r[c].stmts.len() && 0 <= b < ins.len() && 0 <= j < ins[b].len() && is_def(
                #[trigger] r[c].stmts[i],
            ) implies def_var(r[c].stmts[i]) != (#[trigger] ins[b][j]).1 by {
            if c < m {
                assert(r[c] == pre[c]);
            }
            if b < m {
                assert(ins[b] == ins0[b]);
            }
        }
    }
}

proof fn lemma_flow_key_ok(r: Seq<BlockV>, st: FlowV, prev: int, n: Seq<char>)
    requires
        vars_apart(r, st.ins, st.next),
        0 <= st.next,
        0 <= prev < st.ins.len(),
        st.ins.len() == st.outs.len(),
        flow_key(st, prev, n).next <= u16::MAX,
    ensures
        vars_apart(r, flow_key(st, prev, n).ins, flow_key(st, prev, n).next),
{
    if assoc_get(st.outs[prev], n) is None {
        let v = st.next as u16;
        assert(v == st.next);
        let e = assoc_insert(st.ins[prev], n, v);
        lemma_assoc_insert_shape(st.ins[prev], n, v);
        let k = if key_index(st.ins[prev], n) >= 0 { key_index(st.ins[prev], n) } else { st.ins[prev].len() as int };
        let ins = st.ins.update(prev, e);
        let nx = st.next + 1;
        assert forall|b: int, j: int| 0 <= b < ins.len() && 0 <= j < ins[b].len() implies (
        #[trigger] ins[b][j]).1 < nx by {
            if b == prev && j != k {
                assert(ins[b][j] == st.ins[prev][j]);
            }
        }
        assert forall|b1: int, j1: int, b2: int, j2: int|
            0 <= b1 < ins.len() && 0 <= j1 < ins[b1].len() && 0 <= b2 < ins.len() && 0 <= j2 < ins[b2].len() && (b1
                != b2 || j1 != j2) implies (#[trigger] ins[b1][j1]).1 != (#[trigger] ins[b2][j2]).1 by {
            let new1 = b1 == prev && j1 == k;
            let new2 = b2 == prev && j2 == k;
            if b1 == prev && j1 != k {
                assert(ins[b1][j1] == st.ins[prev][j1]);
            }
            if b2 == prev && j2 != k {
                assert(ins[b2][j2] == st.ins[prev][j2]);
            }
            if !new1 && !new2 {
                assert(ins[b1][j1] == st.ins[b1][j1]);
                assert(ins[b2][j2] == st.ins[b2][j2]);
            } else if new1 {
                assert(ins[b2][j2] == st.ins[b2][j2]);
            } else {
                assert(ins[b1][j1] == st.ins[b1][j1]);
            }
        }
        assert forall|c: int, i: int, b: int, j: int|
            0 <= c < r.len() && 0 <= i < r[c].stmts.len() && 0 <= b < ins.len() && 0 <= j < ins[b].len() && is_def(
                #[trigger] r[c].stmts[i],
            ) implies def_var(r[c].stmts[i]) != (#[trigger] ins[b][j]).1 by {
            if !(b == prev && j == k) {
                assert(ins[b][j] == st.ins[b][j]);
            }
        }
    }
}

proof fn lemma_round_ok(r: Seq<BlockV>, preds: Seq<Seq<usize>>, st: FlowV, cur: nat, pi: nat, ki: nat)
    requires
        vars_apart(r, st.ins, st.next),
        0 <= st.next,
        st.ins.len() == st.outs.len(),
        run_round(preds, st, cur, pi, ki).next <= u16::MAX,
    ensures
        vars_apart(r, run_round(preds, st, cur, pi, ki).ins, run_round(preds, st, cur, pi, ki).next),
    decreases
            preds.len() - cur,
            (if cur < preds.len() { preds[cur as int].len() } else { 0 }) - pi,
            (if cur < st.ins.len() { st.ins[cur as int].len() } else { 0 }) - ki,
{
    if cur >= preds.len() || cur >= st.ins.len() {
    } else if pi >= preds[cur as int].len() {
        lemma_round_ok(r, preds, st, cur + 1, 0, 0);
    } else {
        let p = preds[cur as int][pi as int] as int;
        if p == cur || p >= st.ins.len() || ki >= st.ins[cur as int].len() {
            lemma_round_ok(r, preds, st, cur, pi + 1, 0);
        } else {
            let n = st.ins[cur as int][ki as int].0;
            let st1 = flow_key(st, p, n);
            assert(st1.ins[cur as int] == st.ins[cur as int]);
            lemma_round_mono(preds, st1, cur, pi, ki + 1);
            lemma_flow_key_ok(r, st, p, n);
            lemma_round_ok(r, preds, st1, cur, pi, ki + 1);
        }
    }
}

proof fn lemma_fix_ok(r: Seq<BlockV>, preds: Seq<Seq<usize>>, st: FlowV, fuel: nat)
    requires
        vars_apart(r, st.ins, st.next),
        0 <= st.next,
        st.ins.len() == st.outs.len(),
        run_fix(preds, st, fuel).next <= u16::MAX,
    ensures
        vars_apart(r, run_fix(preds, st, fuel).ins, run_fix(preds, st, fuel).next),
    decreases fuel,
{
    if fuel > 0 {
        let st0 = FlowV { changed: false, ..st };
        lemma_round_mono(preds, st0, 0, 0, 0);
        let rr = run_round(preds, st0, 0, 0, 0);
        if rr.changed {
            lemma_fix_mono(preds, rr, (fuel - 1) as nat);
        }
        lemma_round_ok(r, preds, st0, 0, 0, 0);
        if rr.changed {
            lemma_fix_ok(r, preds, rr, (fuel - 1) as nat);
        }
    }
}

/// No two statements of the blocks define the same variable.
pub open spec fn single_assignment(bs: Seq<BlockV>) -> bool {
    forall|c1: int, i1: int, c2: int, i2: int|
        0 <= c1 < bs.len() && 0 <= i1 < bs[c1].stmts.len() && 0 <= c2 < bs.len() && 0 <= i2 < bs[c2].stmts.len()
            && (c1 != c2 || i1 != i2) && is_def(#[trigger] bs[c1].stmts[i1]) && is_def(#[trigger] bs[c2].stmts[i2])
            ==> def_var(bs[c1].stmts[i1]) != def_var(bs[c2].stmts[i2])
}

proof fn lemma_simp_let(x: u16, v: ExprV)
    ensures
        simp_stmt_kind(StmtKindV::Let(x, v)) is Let,
        simp_stmt_kind(StmtKindV::Let(x, v))->Let_0 == x,
{
}

/// Every statement of a segment is a statement of their concatenation.
proof fn lemma_concat_elem(segs: Seq<Seq<StmtV>>, k: int, i: int)
    requires
        0 <= k < segs.len(),
        0 <= i < segs[k].len(),
    ensures
        exists|j: int| 0 <= j < concat(segs).len() && concat(segs)[j] == segs[k][i],
    decreases segs.len(),
{
    let d = segs.drop_last();
    if k < segs.len() - 1 {
        lemma_concat_elem(d, k, i);
        let j = choose|j: int| 0 <= j < concat(d).len() && concat(d)[j] == d[k][i];
        assert(concat(segs)[j] == concat(d)[j]);
    } else {
        assert(concat(segs)[concat(d).len() + i] == segs[k][i]);
    }
}

/// SSA form defines each variable once: from statements that define no
/// variable themselves, `ssa` gives blocks in which no two statements define
/// the same variable.
pub proof fn law_ssa_single_assignment(s: Seq<StmtV>)
    requires
        ssa_accepts(s),
        no_defs(s),
    ensures
        single_assignment(ssa_of(s)),
{
    let bs = blocks_of(s);
    law_blocks_cover(s);
    let segs = bs.map_values(|b: BlockV| b.stmts);
    assert forall|b: int| 0 <= b < bs.len() implies no_defs(#[trigger] bs[b].stmts) by {
        assert forall|i: int| 0 <= i < bs[b].stmts.len() implies !is_def(#[trigger] bs[b].stmts[i]) by {
            assert(segs[b] == bs[b].stmts);
            lemma_concat_elem(segs, b, i);
            let j = choose|j: int| 0 <= j < concat(segs).len() && concat(segs)[j] == segs[b][i];
            assert(s[j] == bs[b].stmts[i]);
        }
    }
    lemma_rename_blocks_ok(bs, 1);
    lemma_rename_blocks(bs, 1, 0);
    let (r, ins, outs, n) = rename_blocks(bs, 1).unwrap();
    let preds = preds_of(bs);
    let rf = renamed_flow(bs);
    let fuel = missing(rf.outs, all_inputs(rf.ins)) + 1;
    lemma_fix_ok(r, preds, rf, fuel);
    let st = propagate(preds, rf);
    let out = ssa_of(s);
    assert(out.len() == r.len());
    assert forall|c: int, i: int| 0 <= c < out.len() && 0 <= i < out[c].stmts.len() implies {
        let plen = st.ins[c].len();
        &&& (i < plen ==> is_def(#[trigger] out[c].stmts[i]) && def_var(out[c].stmts[i]) == st.ins[c][plen - 1 - i].1)
        &&& (i >= plen ==> out[c].stmts[i] == r[c].stmts[i - plen])
    } by {
        let phis = phis_of(preds, st.ins, st.outs, c);
        let plen = st.ins[c].len();
        assert(out[c] == with_phis(r[c], phis));
        assert(phis.len() == plen);
        if i < plen {
            assert(out[c].stmts[i] == phis.reverse()[i]);
            assert(phis.reverse()[i] == phis[plen - 1 - i]);
            let e = st.ins[c][plen - 1 - i];
            lemma_simp_let(e.1, phi_value(e.0, phi_args(preds, st.outs, c, e.0)));
        } else {
            assert(out[c].stmts[i] == (phis.reverse() + r[c].stmts)[i]);
        }
    }
    assert forall|c1: int, i1: int, c2: int, i2: int|
        0 <= c1 < out.len() && 0 <= i1 < out[c1].stmts.len() && 0 <= c2 < out.len() && 0 <= i2 < out[c2].stmts.len()
            && (c1 != c2 || i1 != i2) && is_def(#[trigger] out[c1].stmts[i1]) && is_def(#[trigger] out[c2].stmts[i2])
        implies def_var(out[c1].stmts[i1]) != def_var(out[c2].stmts[i2]) by {
        let p1 = st.ins[c1].len();
        let p2 = st.ins[c2].len();
        if i1 < p1 && i2 < p2 {
            assert(st.ins[c1][p1 - 1 - i1].1 != st.ins[c2][p2 - 1 - i2].1);
        } else if i1 < p1 {
            assert(out[c2].stmts[i2] == r[c2].stmts[i2 - p2]);
            assert(def_var(r[c2].stmts[i2 - p2]) != st.ins[c1][p1 - 1 - i1].1);
        } else if i2 < p2 {
            assert(out[c1].stmts[i1] == r[c1].stmts[i1 - p1]);
            assert(def_var(r[c1].stmts[i1 - p1]) != st.ins[c2][p2 - 1 - i2].1);
        } else {
            assert(out[c1].stmts[i1] == r[c1].stmts[i1 - p1]);
            assert(out[c2].stmts[i2] == r[c2].stmts[i2 - p2]);
        }
    }
}

/// Whether `e` holds a register name anywhere.
pub open spec fn has_name(e: ExprV) -> bool
    decreases e,
{
    match e {
        ExprV::Name(_) => true,
        ExprV::Call(c) => has_name_any(c.args),
        _ => false,
    }
}

/// Whether one of `es` holds a register name.
pub open spec fn has_name_any(es: Seq<ExprV>) -> bool
    decreases es,
{
    if es.len() == 0 {
        false
    } else {
        has_name_any(es.drop_last()) || has_name(es.last())
    }
}

/// Whether an expression of the statement kind holds a register name.
pub open spec fn kind_has_name(k: StmtKindV) -> bool {
    match k {
        StmtKindV::Do(e) => has_name(e),
        StmtKindV::Assign(d, e) => has_name(d) || has_name(e),
        StmtKindV::Let(_, e) => has_name(e),
        StmtKindV::Jmp(c, d) => has_name_any(c.args) || has_name(d),
        StmtKindV::Raw(_) => false,
    }
}

proof fn lemma_walk_names(st: RenamerV, e: ExprV, fuel: nat)
    requires
        walk::<Renamer>(st, e, fuel) is Some,
    ensures
        !has_name(walk::<Renamer>(st, e, fuel).unwrap().1),
    decreases fuel, 0nat,
{
    let st1 = <Renamer as ExprVisitorMut>::after(st, e);
    if let ExprV::Call(c) = <Renamer as ExprVisitorMut>::rewrite(st, e) {
        lemma_walk_list_names(st1, c.args, (fuel - 1) as nat);
    }
}

proof fn lemma_walk_list_names(st: RenamerV, es: Seq<ExprV>, fuel: nat)
    requires
        walk_list::<Renamer>(st, es, fuel) is Some,
    ensures
        !has_name_any(walk_list::<Renamer>(st, es, fuel).unwrap().1),
    decreases fuel, es.len() + 1,
{
    if es.len() > 0 {
        lemma_walk_list_names(st, es.drop_last(), fuel);
        let (st1, pre) = walk_list::<Renamer>(st, es.drop_last(), fuel).unwrap();
        lemma_walk_names(st1, es.last(), fuel);
        let x = walk::<Renamer>(st1, es.last(), fuel).unwrap().1;
        assert(pre.push(x).drop_last() =~= pre);
    }
}

proof fn lemma_walk_stmt_names(st: RenamerV, k: StmtKindV, fuel: nat)
    requires
        walk_stmt::<Renamer>(st, k, fuel) is Some,
    ensures
        !kind_has_name(walk_stmt::<Renamer>(st, k, fuel).unwrap().1),
{
    match k {
        StmtKindV::Do(e) => lemma_walk_names(st, e, fuel),
        StmtKindV::Assign(d, e) => {
            lemma_walk_names(st, d, fuel);
            lemma_walk_names(walk::<Renamer>(st, d, fuel).unwrap().0, e, fuel);
        },
        StmtKindV::Let(_, e) => lemma_walk_names(st, e, fuel),
        StmtKindV::Jmp(c, d) => {
            lemma_walk_list_names(st, c.args, fuel);
            lemma_walk_names(walk_list::<Renamer>(st, c.args, fuel).unwrap().0, d, fuel);
        },
        StmtKindV::Raw(_) => {},
    }
}

proof fn lemma_rename_stmts_names(st0: RenamerV, s: Seq<StmtV>)
    requires
        rename_stmts(st0, s) is Some,
    ensures
        forall|i: int| 0 <= i < rename_stmts(st0, s).unwrap().1.len() ==> !kind_has_name(
            (#[trigger] rename_stmts(st0, s).unwrap().1[i]).kind,
        ),
        rename_stmts(st0, s).unwrap().1.len() == s.len(),
    decreases s.len(),
{
    if s.len() > 0 {
        let d = s.drop_last();
        lemma_rename_stmts_names(st0, d);
        let (st1, pre) = rename_stmts(st0, d).unwrap();
        let x = s.last();
        let (stA, k1) = match x.kind {
            StmtKindV::Assign(ExprV::Name(_), val) => (
                RenamerV { next: (st1.next + 1) as u16, ..st1 },
                StmtKindV::Let(st1.next, val),
            ),
            _ => (st1, x.kind),
        };
        let fuel = choose|fuel: nat| (#[trigger] walk_stmt::<Renamer>(stA, k1, fuel)) is Some;
        lemma_walk_stmt_names(stA, k1, fuel);
        let o = rename_stmts(st0, s).unwrap().1;
        assert forall|i: int| 0 <= i < o.len() implies !kind_has_name((#[trigger] o[i]).kind) by {
            if i < pre.len() {
                assert(o[i] == pre[i]);
            }
        }
    }
}

proof fn lemma_rename_blocks_names(bs: Seq<BlockV>, next: u16)
    requires
        rename_blocks(bs, next) is Some,
    ensures
        ({
            let r = rename_blocks(bs, next).unwrap().0;
            &&& r.len() == bs.len()
            &&& forall|c: int, i: int| 0 <= c < r.len() && 0 <= i < r[c].stmts.len() ==> !kind_has_name(
                (#[trigger] r[c].stmts[i]).kind,
            )
        }),
    decreases bs.len(),
{
    if bs.len() > 0 {
        lemma_rename_blocks_names(bs.drop_last(), next);
        let (pre, _, _, n1) = rename_blocks(bs.drop_last(), next).unwrap();
        lemma_rename_stmts_names(fresh_renamer(n1), bs.last().stmts);
        let r = rename_blocks(bs, next).unwrap().0;
        assert forall|c: int, i: int| 0 <= c < r.len() && 0 <= i < r[c].stmts.len() implies !kind_has_name(
            (#[trigger] r[c].stmts[i]).kind,
        ) by {
            if c < pre.len() {
                assert(r[c] == pre[c]);
            }
        }
    }
}

/// SSA form reads no register: every statement that holds a register name is
/// a definition at the head of its block, after nothing but definitions (the
/// definitions of the block's inputs); every other statement, whatever its
/// kind, reads variables only.
pub proof fn law_ssa_renames_names(s: Seq<StmtV>)
    requires
        ssa_accepts(s),
    ensures
        forall|c: int, i: int|
            0 <= c < ssa_of(s).len() && 0 <= i < ssa_of(s)[c].stmts.len() && kind_has_name(
                (#[trigger] ssa_of(s)[c].stmts[i]).kind,
            ) ==> ssa_of(s)[c].stmts[i].kind is Let && forall|j: int|
                0 <= j < i ==> (#[trigger] ssa_of(s)[c].stmts[j]).kind is Let,
{
    let bs = blocks_of(s);
    lemma_rename_blocks_names(bs, 1);
    lemma_rename_blocks(bs, 1, 0);
    let (r, ins, outs, n) = rename_blocks(bs, 1).unwrap();
    let preds = preds_of(bs);
    let rf = renamed_flow(bs);
    let fuel = missing(rf.outs, all_inputs(rf.ins)) + 1;
    lemma_fix_mono(preds, rf, fuel);
    let st = propagate(preds, rf);
    let out = ssa_of(s);
    assert forall|c: int, i: int|
        0 <= c < out.len() && 0 <= i < out[c].stmts.len() && kind_has_name((#[trigger] out[c].stmts[i]).kind)
        implies out[c].stmts[i].kind is Let && forall|j: int| 0 <= j < i ==> (#[trigger] out[c].stmts[j]).kind is Let by {
        let phis = phis_of(preds, st.ins, st.outs, c);
        let plen = st.ins[c].len();
        assert(out[c] == with_phis(r[c], phis));
        if i >= plen {
            assert(out[c].stmts[i] == r[c].stmts[i - plen]);
        }
        assert forall|j: int| 0 <= j <= i implies (#[trigger] out[c].stmts[j]).kind is Let by {
            assert(out[c].stmts[j] == phis.reverse()[j]);
            assert(phis.reverse()[j] == phis[plen - 1 - j]);
            let e = st.ins[c][plen - 1 - j];
            lemma_simp_let(e.1, phi_value(e.0, phi_args(preds, st.outs, c, e.0)));
        }
    }
}

} // verus!
