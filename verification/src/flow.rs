//! Propagation of block inputs to predecessors, until every block passes on
//! each name that a successor reads.

use vstd::prelude::*;
use crate::ast::Var;
use crate::names::{Entries, NameMap, assoc_get, assoc_insert, assoc_keys};
use crate::text::name_clone;

verus! {

/// The state of the propagation: each block's inputs and outputs, the next
/// unused variable, and whether the current round changed anything.
pub struct FlowV {
    pub ins: Seq<Entries>,
    pub outs: Seq<Entries>,
    pub next: int,
    pub changed: bool,
}

/// Name `n`, read by a successor, checked against block `prev`: when `prev`
/// does not pass `n` on, `prev` gets a new variable for it, as both an input
/// and an output.
pub open spec fn flow_key(st: FlowV, prev: int, n: Seq<char>) -> FlowV {
    if assoc_get(st.outs[prev], n) is Some {
        st
    } else {
        FlowV {
            ins: st.ins.update(prev, assoc_insert(st.ins[prev], n, st.next as u16)),
            outs: st.outs.update(prev, assoc_insert(st.outs[prev], n, st.next as u16)),
            next: st.next + 1,
            changed: true,
        }
    }
}

/// The rest of one round, from block `cur`, its `pi`-th predecessor, and the
/// `ki`-th input name of `cur`: every input name of every block is checked
/// against each predecessor other than the block itself.
pub open spec fn run_round(preds: Seq<Seq<usize>>, st: FlowV, cur: nat, pi: nat, ki: nat) -> FlowV
    decreases
            preds.len() - cur,
            (if cur < preds.len() { preds[cur as int].len() } else { 0 }) - pi,
            (if cur < st.ins.len() { st.ins[cur as int].len() } else { 0 }) - ki,
{
    if cur >= preds.len() || cur >= st.ins.len() {
        st
    } else if pi >= preds[cur as int].len() {
        run_round(preds, st, cur + 1, 0, 0)
    } else {
        let p = preds[cur as int][pi as int] as int;
        if p == cur || p >= st.ins.len() || ki >= st.ins[cur as int].len() {
            run_round(preds, st, cur, pi + 1, 0)
        } else {
            let n = st.ins[cur as int][ki as int].0;
            let st1 = flow_key(st, p, n);
            proof {
                assert(st1.ins[cur as int] == st.ins[cur as int]);
            }
            run_round(preds, st1, cur, pi, ki + 1)
        }
    }
}

/// Rounds are run until one changes nothing, at most `fuel` of them.
pub open spec fn run_fix(preds: Seq<Seq<usize>>, st: FlowV, fuel: nat) -> FlowV
    decreases fuel,
{
    if fuel == 0 {
        st
    } else {
        let r = run_round(preds, FlowV { changed: false, ..st }, 0, 0, 0);
        if r.changed {
            run_fix(preds, r, (fuel - 1) as nat)
        } else {
            r
        }
    }
}

/// Every name that some block reads on entry.
pub open spec fn all_inputs(ins: Seq<Entries>) -> Set<Seq<char>>
    decreases ins.len(),
{
    if ins.len() == 0 {
        Set::empty()
    } else {
        all_inputs(ins.drop_last()).union(assoc_keys(ins.last()).to_set())
    }
}

/// How many (block, name) pairs, for names in `names`, are not yet outputs.
pub open spec fn missing(outs: Seq<Entries>, names: Set<Seq<char>>) -> nat
    decreases outs.len(),
{
    if outs.len() == 0 {
        0
    } else {
        missing(outs.drop_last(), names) + names.difference(assoc_keys(outs.last()).to_set()).len()
    }
}

/// The propagation, with a bound on the number of rounds that suffices.
pub open spec fn propagate(preds: Seq<Seq<usize>>, st: FlowV) -> FlowV {
    run_fix(preds, st, missing(st.outs, all_inputs(st.ins)) + 1)
}

/// A round keeps the number of blocks and never lowers the next variable; a
/// round that changes nothing leaves the state as it was.
pub proof fn lemma_round_mono(preds: Seq<Seq<usize>>, st: FlowV, cur: nat, pi: nat, ki: nat)
    requires
        st.ins.len() == st.outs.len(),
    ensures
        run_round(preds, st, cur, pi, ki).ins.len() == st.ins.len(),
        run_round(preds, st, cur, pi, ki).outs.len() == st.outs.len(),
        run_round(preds, st, cur, pi, ki).next >= st.next,
        st.changed ==> run_round(preds, st, cur, pi, ki).changed,
        !run_round(preds, st, cur, pi, ki).changed ==> run_round(preds, st, cur, pi, ki) == st,
    decreases
            preds.len() - cur,
            (if cur < preds.len() { preds[cur as int].len() } else { 0 }) - pi,
            (if cur < st.ins.len() { st.ins[cur as int].len() } else { 0 }) - ki,
{
    if cur >= preds.len() || cur >= st.ins.len() {
    } else if pi >= preds[cur as int].len() {
        lemma_round_mono(preds, st, cur + 1, 0, 0);
    } else {
        let p = preds[cur as int][pi as int] as int;
        if p == cur || p >= st.ins.len() || ki >= st.ins[cur as int].len() {
            lemma_round_mono(preds, st, cur, pi + 1, 0);
        } else {
            let n = st.ins[cur as int][ki as int].0;
            let st1 = flow_key(st, p, n);
            assert(st1.ins[cur as int] == st.ins[cur as int]);
            lemma_round_mono(preds, st1, cur, pi, ki + 1);
        }
    }
}

/// Running rounds never lowers the next variable.
pub proof fn lemma_fix_mono(preds: Seq<Seq<usize>>, st: FlowV, fuel: nat)
    requires
        st.ins.len() == st.outs.len(),
    ensures
        run_fix(preds, st, fuel).next >= st.next,
        run_fix(preds, st, fuel).ins.len() == st.ins.len(),
        run_fix(preds, st, fuel).outs.len() == st.outs.len(),
    decreases fuel,
{
    if fuel > 0 {
        let st0 = FlowV { changed: false, ..st };
        lemma_round_mono(preds, st0, 0, 0, 0);
        let r = run_round(preds, st0, 0, 0, 0);
        if r.changed {
            lemma_fix_mono(preds, r, (fuel - 1) as nat);
        }
    }
}

/// A round that changes nothing found every input name of every block among
/// the outputs of each of its predecessors (other than itself), from the
/// round's current position on.
pub proof fn lemma_round_stable(preds: Seq<Seq<usize>>, st: FlowV, cur: nat, pi: nat, ki: nat)
    requires
        st.ins.len() == st.outs.len(),
        st.ins.len() == preds.len(),
        !run_round(preds, st, cur, pi, ki).changed,
    ensures
        forall|c: int, q: int, k: int|
            #![trigger preds[c][q], st.ins[c][k]]
            0 <= c < preds.len() && 0 <= q < preds[c].len() && 0 <= k < st.ins[c].len()
                && preds[c][q] != c && preds[c][q] < preds.len() && (c > cur || (c == cur && (q > pi
                || (q == pi && k >= ki)))) ==> assoc_get(st.outs[preds[c][q] as int], st.ins[c][k].0) is Some,
    decreases
            preds.len() - cur,
            (if cur < preds.len() { preds[cur as int].len() } else { 0 }) - pi,
            (if cur < st.ins.len() { st.ins[cur as int].len() } else { 0 }) - ki,
{
    lemma_round_mono(preds, st, cur, pi, ki);
    if cur >= preds.len() || cur >= st.ins.len() {
    } else if pi >= preds[cur as int].len() {
        lemma_round_stable(preds, st, cur + 1, 0, 0);
    } else {
        let p = preds[cur as int][pi as int] as int;
        if p == cur || p >= st.ins.len() || ki >= st.ins[cur as int].len() {
            lemma_round_stable(preds, st, cur, pi + 1, 0);
        } else {
            let n = st.ins[cur as int][ki as int].0;
            let st1 = flow_key(st, p, n);
            assert(st1.ins[cur as int] == st.ins[cur as int]);
            lemma_round_mono(preds, st1, cur, pi, ki + 1);
            assert(st1 == st);
            lemma_round_stable(preds, st1, cur, pi, ki + 1);
        }
    }
}

/// The inputs of every block are among `names`.
pub open spec fn flow_inv(st: FlowV, names: Set<Seq<char>>) -> bool {
    &&& names.finite()
    &&& st.ins.len() == st.outs.len()
    &&& forall|b: int| 0 <= b < st.ins.len() ==> assoc_keys(#[trigger] st.ins[b]).to_set().subset_of(names)
}

/// How many names of `names` are not outputs of one block.
pub open spec fn missing_one(o: Entries, names: Set<Seq<char>>) -> nat {
    names.difference(assoc_keys(o).to_set()).len()
}

proof fn lemma_missing_update(outs: Seq<Entries>, names: Set<Seq<char>>, p: int, x: Entries)
    requires
        0 <= p < outs.len(),
    ensures
        missing(outs.update(p, x), names) + missing_one(outs[p], names) == missing(outs, names)
            + missing_one(x, names),
    decreases outs.len(),
{
    let u = outs.update(p, x);
    assert(u.drop_last() =~= if p < outs.len() - 1 {
        outs.drop_last().update(p, x)
    } else {
        outs.drop_last()
    });
    if p < outs.len() - 1 {
        lemma_missing_update(outs.drop_last(), names, p, x);
    }
}

/// The names of `o` with `n` added.
pub proof fn lemma_insert_keys(o: Entries, n: Seq<char>, v: u16)
    ensures
        assoc_keys(assoc_insert(o, n, v)).to_set() == assoc_keys(o).to_set().insert(n),
        assoc_get(o, n) is None ==> !assoc_keys(o).to_set().contains(n),
{
    crate::names::lemma_key_index(o, n);
    let i = crate::names::key_index(o, n);
    if i >= 0 {
        assert(assoc_keys(o.update(i, (n, v))) =~= assoc_keys(o));
        assert(assoc_keys(o)[i] == n);
        assert(assoc_keys(o).to_set().insert(n) =~= assoc_keys(o).to_set());
    } else {
        assert(assoc_keys(o.push((n, v))) =~= assoc_keys(o).push(n));
        assoc_keys(o).lemma_push_to_set_commute(n);
        assert forall|j: int| 0 <= j < assoc_keys(o).len() implies assoc_keys(o)[j] != n by {
            assert(o[j].0 != n);
        }
    }
}

/// Adding a missing name of `names` to a block's outputs lowers the count by one.
proof fn lemma_missing_insert(o: Entries, names: Set<Seq<char>>, n: Seq<char>, v: u16)
    requires
        names.finite(),
        names.contains(n),
        assoc_get(o, n) is None,
    ensures
        missing_one(assoc_insert(o, n, v), names) + 1 == missing_one(o, names),
{
    lemma_insert_keys(o, n, v);
    let k = assoc_keys(o).to_set();
    assert(names.difference(k.insert(n)) =~= names.difference(k).remove(n));
    assert(names.difference(k).contains(n));
}

/// One check either changes nothing or adds a missing output.
proof fn lemma_key_progress(st: FlowV, names: Set<Seq<char>>, p: int, n: Seq<char>)
    requires
        flow_inv(st, names),
        names.contains(n),
        0 <= p < st.ins.len(),
    ensures
        flow_inv(flow_key(st, p, n), names),
        flow_key(st, p, n) == st || (flow_key(st, p, n).changed && missing(
            flow_key(st, p, n).outs,
            names,
        ) < missing(st.outs, names)),
{
    if assoc_get(st.outs[p], n) is None {
        let r = flow_key(st, p, n);
        lemma_insert_keys(st.ins[p], n, st.next as u16);
        lemma_missing_insert(st.outs[p], names, n, st.next as u16);
        lemma_missing_update(st.outs, names, p, assoc_insert(st.outs[p], n, st.next as u16));
        assert forall|b: int| 0 <= b < r.ins.len() implies assoc_keys(#[trigger] r.ins[b]).to_set().subset_of(
            names,
        ) by {
            if b != p {
                assert(r.ins[b] == st.ins[b]);
            }
        }
    }
}

/// A round either changes nothing or lowers the count of missing outputs.
pub proof fn lemma_round_progress(
    preds: Seq<Seq<usize>>,
    st: FlowV,
    names: Set<Seq<char>>,
    cur: nat,
    pi: nat,
    ki: nat,
)
    requires
        flow_inv(st, names),
    ensures
        flow_inv(run_round(preds, st, cur, pi, ki), names),
        run_round(preds, st, cur, pi, ki) == st || (run_round(preds, st, cur, pi, ki).changed
            && missing(run_round(preds, st, cur, pi, ki).outs, names) < missing(st.outs, names)),
    decreases
            preds.len() - cur,
            (if cur < preds.len() { preds[cur as int].len() } else { 0 }) - pi,
            (if cur < st.ins.len() { st.ins[cur as int].len() } else { 0 }) - ki,
{
    if cur >= preds.len() || cur >= st.ins.len() {
    } else if pi >= preds[cur as int].len() {
        lemma_round_progress(preds, st, names, cur + 1, 0, 0);
    } else {
        let p = preds[cur as int][pi as int] as int;
        if p == cur || p >= st.ins.len() || ki >= st.ins[cur as int].len() {
            lemma_round_progress(preds, st, names, cur, pi + 1, 0);
        } else {
            let n = st.ins[cur as int][ki as int].0;
            assert(assoc_keys(st.ins[cur as int])[ki as int] == n);
            assert(assoc_keys(st.ins[cur as int]).to_set().contains(n));
            lemma_key_progress(st, names, p, n);
            let st1 = flow_key(st, p, n);
            assert(st1.ins[cur as int] == st.ins[cur as int]);
            lemma_round_progress(preds, st1, names, cur, pi, ki + 1);
            lemma_round_mono(preds, st1, cur, pi, ki + 1);
        }
    }
}

/// The inputs of the blocks are among `all_inputs`.
pub proof fn lemma_all_inputs(ins: Seq<Entries>)
    ensures
        all_inputs(ins).finite(),
        forall|b: int| 0 <= b < ins.len() ==> assoc_keys(#[trigger] ins[b]).to_set().subset_of(all_inputs(ins)),
    decreases ins.len(),
{
    if ins.len() > 0 {
        lemma_all_inputs(ins.drop_last());
        assert forall|b: int| 0 <= b < ins.len() implies assoc_keys(#[trigger] ins[b]).to_set().subset_of(
            all_inputs(ins),
        ) by {
            if b < ins.len() - 1 {
                assert(ins.drop_last()[b] == ins[b]);
            }
        }
    }
}

/// With fuel above the count of missing outputs, the rounds reach one that
/// changes nothing.
pub proof fn lemma_fix_ends(preds: Seq<Seq<usize>>, st: FlowV, names: Set<Seq<char>>, fuel: nat)
    requires
        flow_inv(st, names),
        fuel > missing(st.outs, names),
    ensures
        !run_fix(preds, st, fuel).changed,
    decreases fuel,
{
    let st0 = FlowV { changed: false, ..st };
    lemma_round_progress(preds, st0, names, 0, 0, 0);
    let r = run_round(preds, st0, 0, 0, 0);
    if r.changed {
        lemma_fix_ends(preds, r, names, (fuel - 1) as nat);
    }
}

/// The abstract values of a list of name maps.
pub open spec fn maps_view(v: Seq<NameMap>) -> Seq<Entries> {
    v.map_values(|m: NameMap| m@)
}

/// The abstract values of a list of index lists.
pub open spec fn seqs_view(v: Seq<Vec<usize>>) -> Seq<Seq<usize>> {
    v.map_values(|x: Vec<usize>| x@)
}

/// Gives each block an input and output variable for every name that one of
/// its successors reads, as `propagate` says; the result is a state in which
/// a round changes nothing.
pub fn propagate_inputs(
    preds: &Vec<Vec<usize>>,
    block_ins: &mut Vec<NameMap>,
    block_outs: &mut Vec<NameMap>,
    next_var: &mut Var,
)
    requires
        preds.len() == old(block_ins).len(),
        preds.len() == old(block_outs).len(),
        forall|c: int, q: int| 0 <= c < preds.len() && 0 <= q < preds[c].len() ==> #[trigger] preds[c][q]
            < preds.len(),
        propagate(
            seqs_view(preds@),
            FlowV { ins: maps_view(old(block_ins)@), outs: maps_view(old(block_outs)@), next: old(next_var).0 as int, changed: false },
        ).next <= u16::MAX,
    ensures
        propagate(
            seqs_view(preds@),
            FlowV { ins: maps_view(old(block_ins)@), outs: maps_view(old(block_outs)@), next: old(next_var).0 as int, changed: false },
        ) == (FlowV { ins: maps_view(final(block_ins)@), outs: maps_view(final(block_outs)@), next: final(next_var).0 as int, changed: false }),
{
    let ghost pv = seqs_view(preds@);
    let ghost st0 = FlowV { ins: maps_view(block_ins@), outs: maps_view(block_outs@), next: next_var.0 as int, changed: false };
    let ghost names = all_inputs(st0.ins);
    let ghost target = propagate(pv, st0);
    let ghost mut fuel: nat = missing(st0.outs, names) + 1;
    proof {
        lemma_all_inputs(st0.ins);
        lemma_fix_mono(pv, st0, fuel);
    }
    let mut done = false;
    while !done
        invariant
            pv == seqs_view(preds@),
            preds.len() == block_ins.len(),
            preds.len() == block_outs.len(),
            forall|c: int, q: int| 0 <= c < preds.len() && 0 <= q < preds[c].len() ==> #[trigger] preds[c][q]
                < preds.len(),
            target.next <= u16::MAX,
            flow_inv(FlowV { ins: maps_view(block_ins@), outs: maps_view(block_outs@), next: next_var.0 as int, changed: false }, names),
            !done ==> target == run_fix(pv, FlowV { ins: maps_view(block_ins@), outs: maps_view(block_outs@), next: next_var.0 as int, changed: false }, fuel),
            !done ==> fuel > missing(maps_view(block_outs@), names),
            done ==> target == (FlowV { ins: maps_view(block_ins@), outs: maps_view(block_outs@), next: next_var.0 as int, changed: false }),
        decreases (if done { 0 } else { missing(maps_view(block_outs@), names) + 1 }),
    {
        let ghost sk = FlowV { ins: maps_view(block_ins@), outs: maps_view(block_outs@), next: next_var.0 as int, changed: false };
        let ghost r = run_round(pv, sk, 0, 0, 0);
        proof {
            lemma_round_mono(pv, sk, 0, 0, 0);
            lemma_round_progress(pv, sk, names, 0, 0, 0);
            if r.changed {
                lemma_fix_mono(pv, r, (fuel - 1) as nat);
            }
        }
        let mut changed = false;
        let mut cur: usize = 0;
        while cur < preds.len()
            invariant
                pv == seqs_view(preds@),
                preds.len() == block_ins.len(),
                preds.len() == block_outs.len(),
                forall|c: int, q: int| 0 <= c < preds.len() && 0 <= q < preds[c].len() ==> #[trigger] preds[c][q]
                    < preds.len(),
                cur <= preds.len(),
                r.next <= target.next,
                target.next <= u16::MAX,
                run_round(pv, FlowV { ins: maps_view(block_ins@), outs: maps_view(block_outs@), next: next_var.0 as int, changed }, cur as nat, 0, 0) == r,
            decreases preds.len() - cur,
        {
            let mut pi: usize = 0;
            while pi < preds[cur].len()
                invariant
                    pv == seqs_view(preds@),
                    preds.len() == block_ins.len(),
                    preds.len() == block_outs.len(),
                    forall|c: int, q: int| 0 <= c < preds.len() && 0 <= q < preds[c].len() ==> #[trigger] preds[c][q]
                        < preds.len(),
                    cur < preds.len(),
                    pi <= preds[cur as int].len(),
                    r.next <= target.next,
                    target.next <= u16::MAX,
                    run_round(pv, FlowV { ins: maps_view(block_ins@), outs: maps_view(block_outs@), next: next_var.0 as int, changed }, cur as nat, pi as nat, 0) == r,
                decreases preds[cur as int].len() - pi,
            {
                let prev = preds[cur][pi];
                if prev != cur {
                    let mut ki: usize = 0;
                    while ki < block_ins[cur].len()
                        invariant
                            pv == seqs_view(preds@),
                            preds.len() == block_ins.len(),
                            preds.len() == block_outs.len(),
                            cur < preds.len(),
                            pi < preds[cur as int].len(),
                            prev == preds[cur as int][pi as int],
                            prev < preds.len(),
                            prev != cur,
                            r.next <= target.next,
                            target.next <= u16::MAX,
                            run_round(pv, FlowV { ins: maps_view(block_ins@), outs: maps_view(block_outs@), next: next_var.0 as int, changed }, cur as nat, pi as nat, ki as nat) == r,
                        decreases block_ins[cur as int]@.len() - ki,
                    {
                        let ghost cs = FlowV { ins: maps_view(block_ins@), outs: maps_view(block_outs@), next: next_var.0 as int, changed };
                        let name = block_ins[cur].name_at(ki);
                        if block_outs[prev].get(&name).is_none() {
                            proof {
                                let st1 = flow_key(cs, prev as int, cs.ins[cur as int][ki as int].0);
                                lemma_round_mono(pv, st1, cur as nat, pi as nat, (ki + 1) as nat);
                            }
                            let new_var = *next_var;
                            *next_var = next_var.next();
                            block_ins[prev].insert(name_clone(&name), new_var);
                            block_outs[prev].insert(name, new_var);
                            changed = true;
                        }
                        proof {
                            assert(maps_view(block_ins@) =~= flow_key(cs, prev as int, cs.ins[cur as int][ki as int].0).ins);
                            assert(maps_view(block_outs@) =~= flow_key(cs, prev as int, cs.ins[cur as int][ki as int].0).outs);
                        }
                        ki += 1;
                    }
                }
                pi += 1;
            }
            cur += 1;
        }
        if changed {
            proof {
                fuel = (fuel - 1) as nat;
            }
        } else {
            done = true;
        }
    }
}

/// The names of `a` are names of `b`.
pub open spec fn keys_sub(a: Entries, b: Entries) -> bool {
    assoc_keys(a).to_set().subset_of(assoc_keys(b).to_set())
}

/// Each block outputs every name it inputs.
pub open spec fn ins_in_outs(st: FlowV) -> bool {
    &&& st.ins.len() == st.outs.len()
    &&& forall|b: int| 0 <= b < st.ins.len() ==> keys_sub(#[trigger] st.ins[b], st.outs[b])
}

proof fn lemma_round_sub(preds: Seq<Seq<usize>>, st: FlowV, cur: nat, pi: nat, ki: nat)
    requires
        ins_in_outs(st),
    ensures
        ins_in_outs(run_round(preds, st, cur, pi, ki)),
    decreases
            preds.len() - cur,
            (if cur < preds.len() { preds[cur as int].len() } else { 0 }) - pi,
            (if cur < st.ins.len() { st.ins[cur as int].len() } else { 0 }) - ki,
{
    if cur >= preds.len() || cur >= st.ins.len() {
    } else if pi >= preds[cur as int].len() {
        lemma_round_sub(preds, st, cur + 1, 0, 0);
    } else {
        let p = preds[cur as int][pi as int] as int;
        if p == cur || p >= st.ins.len() || ki >= st.ins[cur as int].len() {
            lemma_round_sub(preds, st, cur, pi + 1, 0);
        } else {
            let n = st.ins[cur as int][ki as int].0;
            let st1 = flow_key(st, p, n);
            assert(st1.ins[cur as int] == st.ins[cur as int]);
            if assoc_get(st.outs[p], n) is None {
                lemma_insert_keys(st.ins[p], n, st.next as u16);
                lemma_insert_keys(st.outs[p], n, st.next as u16);
                assert forall|b: int| 0 <= b < st1.ins.len() implies keys_sub(#[trigger] st1.ins[b], st1.outs[b]) by {
                    if b != p {
                        assert(st1.ins[b] == st.ins[b]);
                        assert(st1.outs[b] == st.outs[b]);
                    } else {
                        assert(keys_sub(st.ins[b], st.outs[b]));
                    }
                }
            }
            lemma_round_sub(preds, st1, cur, pi, ki + 1);
        }
    }
}

/// After the rounds, each block outputs every name it inputs, if it did before.
pub proof fn lemma_fix_sub(preds: Seq<Seq<usize>>, st: FlowV, fuel: nat)
    requires
        ins_in_outs(st),
    ensures
        ins_in_outs(run_fix(preds, st, fuel)),
    decreases fuel,
{
    if fuel > 0 {
        let st0 = FlowV { changed: false, ..st };
        lemma_round_sub(preds, st0, 0, 0, 0);
        let r = run_round(preds, st0, 0, 0, 0);
        if r.changed {
            lemma_fix_sub(preds, r, (fuel - 1) as nat);
        }
    }
}

/// Every input name of a block is an output of each of its predecessors,
/// the block itself included.
pub open spec fn inputs_flow(preds: Seq<Seq<usize>>, st: FlowV) -> bool {
    forall|c: int, q: int, k: int|
        #![trigger preds[c][q], st.ins[c][k]]
        0 <= c < preds.len() && 0 <= q < preds[c].len() && 0 <= k < st.ins[c].len()
            && preds[c][q] < preds.len() ==> assoc_get(st.outs[preds[c][q] as int], st.ins[c][k].0) is Some
}

/// When the rounds end in one that changes nothing, inputs flow from every
/// predecessor.
pub proof fn lemma_fix_flows(preds: Seq<Seq<usize>>, st: FlowV, fuel: nat)
    requires
        ins_in_outs(st),
        st.ins.len() == preds.len(),
        fuel > 0 || st.changed,
        !run_fix(preds, st, fuel).changed,
    ensures
        inputs_flow(preds, run_fix(preds, st, fuel)),
    decreases fuel,
{
    let r0 = run_fix(preds, st, fuel);
    lemma_fix_sub(preds, st, fuel);
    if fuel == 0 {
    } else {
        let st0 = FlowV { changed: false, ..st };
        lemma_round_mono(preds, st0, 0, 0, 0);
        lemma_round_sub(preds, st0, 0, 0, 0);
        let r = run_round(preds, st0, 0, 0, 0);
        if r.changed {
            lemma_fix_flows(preds, r, (fuel - 1) as nat);
        } else {
            lemma_round_stable(preds, st0, 0, 0, 0);
            assert forall|c: int, q: int, k: int|
                #![trigger preds[c][q], r.ins[c][k]]
                0 <= c < preds.len() && 0 <= q < preds[c].len() && 0 <= k < r.ins[c].len()
                    && preds[c][q] < preds.len() implies assoc_get(r.outs[preds[c][q] as int], r.ins[c][k].0) is Some by {
                if preds[c][q] == c {
                    assert(keys_sub(r.ins[c], r.outs[c]));
                    assert(assoc_keys(r.ins[c])[k] == r.ins[c][k].0);
                    assert(assoc_keys(r.ins[c]).to_set().contains(r.ins[c][k].0));
                    crate::names::lemma_key_index(r.outs[c], r.ins[c][k].0);
                    if assoc_get(r.outs[c], r.ins[c][k].0) is None {
                        let j = choose|j: int| 0 <= j < assoc_keys(r.outs[c]).len() && assoc_keys(r.outs[c])[j] == r.ins[c][k].0;
                        assert(r.outs[c][j].0 == r.ins[c][k].0);
                    }
                }
            }
        }
    }
}

} // verus!
