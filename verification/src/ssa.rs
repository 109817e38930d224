//! Conversion of statements to SSA form over basic blocks.

use vstd::prelude::*;
use crate::ast::{Expr, ExprV, Stmt, StmtKind, StmtKindV, StmtV, Var, clone_expr, stmts_view};
use crate::ast::{CallV, args_view, lemma_args_view, lemma_args_view_push};
use crate::flow::{FlowV, inputs_flow, maps_view, seqs_view};
use crate::simp::{simp_stmt, simp_stmt_kind};
use crate::text::{name_as_str, name_new};
pub use crate::blocks::Block;
pub use crate::fmt::fmt_blocks;
use crate::blocks::{BlockV, all_succs_defined, block_preds, blocks, blocks_of, blocks_view, lemma_preds_entries, preds_of, starts_have_ip};
use crate::flow::{all_inputs, lemma_all_inputs, lemma_fix_ends, lemma_fix_flows, missing, propagate, propagate_inputs};
use crate::names::{Entries, NameMap, assoc_get, assoc_insert};
use crate::text::{name_chars, name_clone};
use crate::flow::{keys_sub, lemma_insert_keys};
use crate::visit::{ExprVisitorMut, visit_stmt_expr_mut, walk, walk_list, walk_stmt, walk_stmt_ends, walk_stmt_result};

verus! {

/// Renames register reads to SSA variables while walking a block: a name
/// written earlier in the block reads the variable it was last written to; any
/// other name is an input of the block and gets a new variable.
pub struct Renamer {
    /// The inputs of the block: each name read before any write to it.
    pub reads: NameMap,
    /// The variable that each name currently holds.
    pub writes: NameMap,
    /// The next unused variable.
    pub next: Var,
}

/// The abstract state of a `Renamer`.
pub struct RenamerV {
    pub reads: Entries,
    pub writes: Entries,
    pub next: u16,
}

impl View for Renamer {
    type V = RenamerV;

    open spec fn view(&self) -> RenamerV {
        RenamerV { reads: self.reads@, writes: self.writes@, next: self.next.0 }
    }
}

impl ExprVisitorMut for Renamer {
    open spec fn ready(s: RenamerV, e: ExprV) -> bool {
        match e {
            ExprV::Name(n) => assoc_get(s.writes, n) is Some || s.next < u16::MAX,
            _ => true,
        }
    }

    open spec fn rewrite(s: RenamerV, e: ExprV) -> ExprV {
        match e {
            ExprV::Name(n) => match assoc_get(s.writes, n) {
                Some(v) => ExprV::Var(v),
                None => ExprV::Var(s.next),
            },
            _ => e,
        }
    }

    open spec fn after(s: RenamerV, e: ExprV) -> RenamerV {
        match e {
            ExprV::Name(n) => match assoc_get(s.writes, n) {
                Some(_) => s,
                None => RenamerV {
                    reads: assoc_insert(s.reads, n, s.next),
                    writes: assoc_insert(s.writes, n, s.next),
                    next: (s.next + 1) as u16,
                },
            },
            _ => s,
        }
    }

    fn visit(&mut self, e: &mut Expr) {
        let name = match e {
            Expr::Name(name) => name_clone(name),
            _ => return,
        };
        match self.writes.get(&name) {
            Some(v) => {
                *e = Expr::Var(v);
            },
            None => {
                // a read of a name not yet written is an input of the block
                let v = self.next;
                self.next = v.next();
                self.reads.insert(name_clone(&name), v);
                self.writes.insert(name, v);
                *e = Expr::Var(v);
            },
        }
    }
}

/// One statement renamed: `(set name val)` becomes `(let v val)` with a new
/// variable `v`, the expressions are renamed, and then `name` holds `v`.
/// `None` when the variables run out.
pub open spec fn rename_stmt(st: RenamerV, s: StmtV) -> Option<(RenamerV, StmtV)> {
    let pending = match s.kind {
        StmtKindV::Assign(ExprV::Name(n), _) => Some(n),
        _ => None,
    };
    if pending is Some && st.next == u16::MAX {
        None
    } else {
        let (st1, k1) = match s.kind {
            StmtKindV::Assign(ExprV::Name(_), val) => (
                RenamerV { next: (st.next + 1) as u16, ..st },
                StmtKindV::Let(st.next, val),
            ),
            _ => (st, s.kind),
        };
        if !walk_stmt_ends::<Renamer>(st1, k1) {
            None
        } else {
            let (st2, k2) = walk_stmt_result::<Renamer>(st1, k1);
            let st3 = match pending {
                Some(n) => RenamerV { writes: assoc_insert(st2.writes, n, st.next), ..st2 },
                None => st2,
            };
            Some((st3, StmtV { ip: s.ip, kind: k2 }))
        }
    }
}

/// The statements of `s` renamed in order, with the final renamer state.
pub open spec fn rename_stmts(st: RenamerV, s: Seq<StmtV>) -> Option<(RenamerV, Seq<StmtV>)>
    decreases s.len(),
{
    if s.len() == 0 {
        Some((st, Seq::empty()))
    } else {
        match rename_stmts(st, s.drop_last()) {
            Some((st1, pre)) => match rename_stmt(st1, s.last()) {
                Some((st2, x)) => Some((st2, pre.push(x))),
                None => None,
            },
            None => None,
        }
    }
}

/// The renamer that starts a block: no inputs or writes yet.
pub open spec fn fresh_renamer(next: u16) -> RenamerV {
    RenamerV { reads: Seq::empty(), writes: Seq::empty(), next }
}

/// Renames the block's statements into SSA form, as `rename_stmts` says, and
/// returns the block's inputs and outputs: the variables that each name holds
/// on entry (for names read before written) and on exit.
pub fn ssa_names(block: &mut Block, next_var: &mut Var) -> (res: (NameMap, NameMap))
    requires
        rename_stmts(fresh_renamer(old(next_var).0), old(block)@.stmts) is Some,
    ensures
        ({
            let (st, stmts) = rename_stmts(fresh_renamer(old(next_var).0), old(block)@.stmts).unwrap();
            &&& res.0@ == st.reads
            &&& res.1@ == st.writes
            &&& final(next_var).0 == st.next
            &&& final(block)@ == (BlockV { ip: old(block)@.ip, stmts })
        }),
{
    let ghost s0 = block@.stmts;
    let mut r = Renamer { reads: NameMap::new(), writes: NameMap::new(), next: *next_var };
    let mut i: usize = 0;
    proof {
        assert(s0.take(0) =~= Seq::<StmtV>::empty());
        assert(r@ == fresh_renamer(old(next_var).0));
        lemma_rename_prefix(fresh_renamer(old(next_var).0), s0, 0);
    }
    while i < block.stmts.len()
        invariant
            i <= block.stmts.len(),
            block.stmts.len() == s0.len(),
            block.ip == old(block).ip,
            rename_stmts(fresh_renamer(old(next_var).0), s0) is Some,
            rename_stmts(fresh_renamer(old(next_var).0), s0.take(i as int)) == Some(
                (r@, stmts_view(block.stmts@).take(i as int)),
            ),
            forall|j: int| i <= j < s0.len() ==> #[trigger] block.stmts@[j]@ == s0[j],
        decreases block.stmts.len() - i,
    {
        proof {
            lemma_rename_prefix(fresh_renamer(old(next_var).0), s0, i + 1);
            assert(s0.take(i + 1).drop_last() =~= s0.take(i as int));
            assert(s0.take(i + 1).last() == s0[i as int]);
            assert(rename_stmt(r@, s0[i as int]) is Some);
        }
        let ghost before = block.stmts@;
        let ghost st_i = r@;
        let stmt = &mut block.stmts[i];
        assert(stmt@ == s0[i as int]);
        let pending = match &stmt.kind {
            StmtKind::Assign(Expr::Name(name), val) => {
                assert(s0[i as int].kind matches StmtKindV::Assign(ExprV::Name(_), _));
                assert(st_i.next < u16::MAX);
                let new_var = r.next;
                r.next = r.next.next();
                let name = name_clone(name);
                let val = clone_expr(val);
                stmt.kind = StmtKind::Let(new_var, val);
                Some((name, new_var))
            },
            _ => None,
        };
        proof {
            assert(stmt@.ip == s0[i as int].ip);
            match s0[i as int].kind {
                StmtKindV::Assign(ExprV::Name(n), val) => {
                    assert(pending is Some);
                    assert(stmt.kind@ == StmtKindV::Let(st_i.next, val));
                    assert(r@ == RenamerV { next: (st_i.next + 1) as u16, ..st_i });
                },
                _ => {
                    assert(pending is None);
                    assert(stmt.kind@ == s0[i as int].kind);
                    assert(r@ == st_i);
                },
            }
        }
        visit_stmt_expr_mut(stmt, &mut r);
        if let Some((name, var)) = pending {
            r.writes.insert(name, var);
        }
        proof {
            assert(stmts_view(block.stmts@).take(i + 1) =~= stmts_view(before).take(i as int).push(
                block.stmts@[i as int]@,
            ));
        }
        i += 1;
    }
    proof {
        assert(s0.take(s0.len() as int) =~= s0);
        assert(stmts_view(block.stmts@).take(s0.len() as int) =~= stmts_view(block.stmts@));
    }
    *next_var = r.next;
    (r.reads, r.writes)
}

/// Renaming that succeeds on a list succeeds on each prefix.
proof fn lemma_rename_prefix(st: RenamerV, s: Seq<StmtV>, i: int)
    requires
        rename_stmts(st, s) is Some,
        0 <= i <= s.len(),
    ensures
        rename_stmts(st, s.take(i)) is Some,
    decreases s.len(),
{
    if i < s.len() {
        lemma_rename_prefix(st, s.drop_last(), i);
        assert(s.drop_last().take(i) =~= s.take(i));
    } else {
        assert(s.take(i) =~= s);
    }
}

/// Every name that the renamer has found as an input also has a variable.
pub open spec fn reads_written(st: RenamerV) -> bool {
    keys_sub(st.reads, st.writes)
}

proof fn lemma_after_sub(st: RenamerV, e: ExprV)
    requires
        reads_written(st),
    ensures
        reads_written(<Renamer as ExprVisitorMut>::after(st, e)),
{
    if let ExprV::Name(n) = e {
        if assoc_get(st.writes, n) is None {
            lemma_insert_keys(st.reads, n, st.next);
            lemma_insert_keys(st.writes, n, st.next);
        }
    }
}

proof fn lemma_walk_sub(st: RenamerV, e: ExprV, fuel: nat)
    requires
        reads_written(st),
        walk::<Renamer>(st, e, fuel) is Some,
    ensures
        reads_written(walk::<Renamer>(st, e, fuel).unwrap().0),
    decreases fuel, 0nat,
{
    let st1 = <Renamer as ExprVisitorMut>::after(st, e);
    lemma_after_sub(st, e);
    if let ExprV::Call(c) = <Renamer as ExprVisitorMut>::rewrite(st, e) {
        lemma_walk_list_sub(st1, c.args, (fuel - 1) as nat);
    }
}

proof fn lemma_walk_list_sub(st: RenamerV, es: Seq<ExprV>, fuel: nat)
    requires
        reads_written(st),
        walk_list::<Renamer>(st, es, fuel) is Some,
    ensures
        reads_written(walk_list::<Renamer>(st, es, fuel).unwrap().0),
    decreases fuel, es.len() + 1,
{
    if es.len() > 0 {
        lemma_walk_list_sub(st, es.drop_last(), fuel);
        let st1 = walk_list::<Renamer>(st, es.drop_last(), fuel).unwrap().0;
        lemma_walk_sub(st1, es.last(), fuel);
    }
}

proof fn lemma_walk_stmt_sub(st: RenamerV, k: StmtKindV, fuel: nat)
    requires
        reads_written(st),
        walk_stmt::<Renamer>(st, k, fuel) is Some,
    ensures
        reads_written(walk_stmt::<Renamer>(st, k, fuel).unwrap().0),
{
    match k {
        StmtKindV::Do(e) => lemma_walk_sub(st, e, fuel),
        StmtKindV::Assign(d, e) => {
            lemma_walk_sub(st, d, fuel);
            lemma_walk_sub(walk::<Renamer>(st, d, fuel).unwrap().0, e, fuel);
        },
        StmtKindV::Let(_, e) => lemma_walk_sub(st, e, fuel),
        StmtKindV::Jmp(c, d) => {
            lemma_walk_list_sub(st, c.args, fuel);
            lemma_walk_sub(walk_list::<Renamer>(st, c.args, fuel).unwrap().0, d, fuel);
        },
        StmtKindV::Raw(_) => {},
    }
}

/// Renaming a list of statements keeps every input name among the written names.
pub proof fn lemma_rename_sub(st: RenamerV, s: Seq<StmtV>)
    requires
        reads_written(st),
        rename_stmts(st, s) is Some,
    ensures
        reads_written(rename_stmts(st, s).unwrap().0),
    decreases s.len(),
{
    if s.len() > 0 {
        lemma_rename_sub(st, s.drop_last());
        let st1 = rename_stmts(st, s.drop_last()).unwrap().0;
        let x = s.last();
        let st2_in = match x.kind {
            StmtKindV::Assign(ExprV::Name(_), _) => RenamerV { next: (st1.next + 1) as u16, ..st1 },
            _ => st1,
        };
        let k1 = match x.kind {
            StmtKindV::Assign(ExprV::Name(_), val) => StmtKindV::Let(st1.next, val),
            _ => x.kind,
        };
        if walk_stmt_ends::<Renamer>(st2_in, k1) {
            let fuel = choose|fuel: nat| (#[trigger] walk_stmt::<Renamer>(st2_in, k1, fuel)) is Some;
            lemma_walk_stmt_sub(st2_in, k1, fuel);
            let st2 = walk_stmt_result::<Renamer>(st2_in, k1).0;
            if let StmtKindV::Assign(ExprV::Name(n), _) = x.kind {
                lemma_insert_keys(st2.writes, n, st1.next);
            }
        }
    }
}

/// The blocks renamed in order, numbering variables on from `next`, with each
/// block's inputs and outputs and the next unused variable.
pub open spec fn rename_blocks(bs: Seq<BlockV>, next: u16) -> Option<
    (Seq<BlockV>, Seq<Entries>, Seq<Entries>, u16),
>
    decreases bs.len(),
{
    if bs.len() == 0 {
        Some((Seq::empty(), Seq::empty(), Seq::empty(), next))
    } else {
        match rename_blocks(bs.drop_last(), next) {
            Some((pre, ins, outs, n1)) => match rename_stmts(fresh_renamer(n1), bs.last().stmts) {
                Some((st, stmts)) => Some(
                    (
                        pre.push(BlockV { ip: bs.last().ip, stmts }),
                        ins.push(st.reads),
                        outs.push(st.writes),
                        st.next,
                    ),
                ),
                None => None,
            },
            None => None,
        }
    }
}

/// Renaming succeeds on each prefix of the blocks, and gives one input map and
/// one output map per block, inputs among outputs.
pub proof fn lemma_rename_blocks(bs: Seq<BlockV>, next: u16, i: int)
    requires
        rename_blocks(bs, next) is Some,
        0 <= i <= bs.len(),
    ensures
        rename_blocks(bs.take(i), next) is Some,
        ({
            let (r, ins, outs, _) = rename_blocks(bs, next).unwrap();
            &&& r.len() == bs.len()
            &&& ins.len() == bs.len()
            &&& outs.len() == bs.len()
            &&& forall|b: int| 0 <= b < bs.len() ==> keys_sub(#[trigger] ins[b], outs[b])
        }),
    decreases bs.len(),
{
    if bs.len() > 0 {
        lemma_rename_blocks(bs.drop_last(), next, if i < bs.len() { i } else { 0 });
        if i < bs.len() {
            assert(bs.drop_last().take(i) =~= bs.take(i));
        } else {
            assert(bs.take(i) =~= bs);
        }
        let (pre, ins, outs, n1) = rename_blocks(bs.drop_last(), next).unwrap();
        let st = rename_stmts(fresh_renamer(n1), bs.last().stmts).unwrap().0;
        assert(reads_written(fresh_renamer(n1))) by {
            lemma_assoc_keys_empty();
        }
        lemma_rename_sub(fresh_renamer(n1), bs.last().stmts);
        let (r2, ins2, outs2, _) = rename_blocks(bs, next).unwrap();
        assert forall|b: int| 0 <= b < bs.len() implies keys_sub(#[trigger] ins2[b], outs2[b]) by {
            if b < bs.len() - 1 {
                assert(ins2[b] == ins[b]);
                assert(outs2[b] == outs[b]);
            }
        }
    } else {
        assert(bs.take(i) =~= bs);
    }
}

proof fn lemma_assoc_keys_empty()
    ensures
        crate::names::assoc_keys(Seq::<(Seq<char>, u16)>::empty()).to_set() == Set::<Seq<char>>::empty(),
{
    assert(crate::names::assoc_keys(Seq::<(Seq<char>, u16)>::empty()).to_set() =~= Set::<Seq<char>>::empty());
}

/// Renames every block in order, numbering variables from 1.
fn rename_all(blocks: &mut Vec<Block>) -> (res: (Vec<NameMap>, Vec<NameMap>, Var))
    requires
        rename_blocks(blocks_view(old(blocks)@), 1) is Some,
    ensures
        ({
            let (r, ins, outs, next) = rename_blocks(blocks_view(old(blocks)@), 1).unwrap();
            &&& blocks_view(final(blocks)@) == r
            &&& res.0@.map_values(|m: NameMap| m@) == ins
            &&& res.1@.map_values(|m: NameMap| m@) == outs
            &&& res.2.0 == next
        }),
{
    let ghost bs = blocks_view(blocks@);
    let mut next_var = Var(1);
    let mut block_ins: Vec<NameMap> = Vec::new();
    let mut block_outs: Vec<NameMap> = Vec::new();
    let mut i: usize = 0;
    proof {
        lemma_rename_blocks(bs, 1, 0);
        assert(bs.take(0) =~= Seq::<BlockV>::empty());
        assert(blocks_view(blocks@).take(0) =~= Seq::<BlockV>::empty());
        assert(block_ins@.map_values(|m: NameMap| m@) =~= Seq::<Entries>::empty());
        assert(block_outs@.map_values(|m: NameMap| m@) =~= Seq::<Entries>::empty());
    }
    while i < blocks.len()
        invariant
            i <= blocks.len(),
            blocks.len() == bs.len(),
            rename_blocks(bs, 1) is Some,
            rename_blocks(bs.take(i as int), 1) == Some(
                (
                    blocks_view(blocks@).take(i as int),
                    block_ins@.map_values(|m: NameMap| m@),
                    block_outs@.map_values(|m: NameMap| m@),
                    next_var.0,
                ),
            ),
            forall|j: int| i <= j < bs.len() ==> #[trigger] blocks@[j]@ == bs[j],
        decreases blocks.len() - i,
    {
        proof {
            lemma_rename_blocks(bs, 1, i + 1);
            assert(bs.take(i + 1).drop_last() =~= bs.take(i as int));
            assert(bs.take(i + 1).last() == bs[i as int]);
            assert(blocks@[i as int]@ == bs[i as int]);
        }
        let ghost before = blocks@;
        let (ins, outs) = ssa_names(&mut blocks[i], &mut next_var);
        proof {
            assert(blocks_view(blocks@).take(i + 1) =~= blocks_view(before).take(i as int).push(
                blocks@[i as int]@,
            ));
        }
        let ghost ins_before = block_ins@.map_values(|m: NameMap| m@);
        let ghost outs_before = block_outs@.map_values(|m: NameMap| m@);
        block_ins.push(ins);
        block_outs.push(outs);
        proof {
            assert(block_ins@.map_values(|m: NameMap| m@) =~= ins_before.push(ins@));
            assert(block_outs@.map_values(|m: NameMap| m@) =~= outs_before.push(outs@));
        }
        i += 1;
    }
    proof {
        assert(bs.take(bs.len() as int) =~= bs);
        assert(blocks_view(blocks@).take(bs.len() as int) =~= blocks_view(blocks@));
    }
    (block_ins, block_outs, next_var)
}

/// The arguments of the phi for input `name` of block `cur`: for the first
/// block the name's value on entry to the program, `<name>_in`; then the name's
/// output variable in each predecessor.
pub open spec fn phi_args(preds: Seq<Seq<usize>>, outs: Seq<Entries>, cur: int, name: Seq<char>) -> Seq<
    ExprV,
> {
    (if cur == 0 {
        seq![ExprV::Name(name + "_in"@)]
    } else {
        Seq::empty()
    }) + preds[cur].map_values(|p: usize| ExprV::Var(assoc_get(outs[p as int], name).unwrap()))
}

/// The value of an input: `(todo name)` with no source, the single source
/// itself, or a phi of the sources.
pub open spec fn phi_value(name: Seq<char>, args: Seq<ExprV>) -> ExprV {
    if args.len() == 0 {
        ExprV::Call(CallV { func: "todo"@, args: seq![ExprV::Name(name)] })
    } else if args.len() == 1 {
        args[0]
    } else {
        ExprV::Call(CallV { func: "phi"@, args })
    }
}

/// The statement that defines input `e` of block `cur`, simplified.
pub open spec fn phi_stmt(preds: Seq<Seq<usize>>, outs: Seq<Entries>, cur: int, e: (Seq<char>, u16)) -> StmtV {
    StmtV {
        ip: Seq::empty(),
        kind: simp_stmt_kind(StmtKindV::Let(e.1, phi_value(e.0, phi_args(preds, outs, cur, e.0)))),
    }
}

/// The definitions of the inputs of block `cur`, one per input, in order.
pub open spec fn phis_of(preds: Seq<Seq<usize>>, ins: Seq<Entries>, outs: Seq<Entries>, cur: int) -> Seq<StmtV> {
    ins[cur].map_values(|e: (Seq<char>, u16)| phi_stmt(preds, outs, cur, e))
}

/// A block with definitions put in front of its statements, each in front of
/// the ones before it.
pub open spec fn with_phis(b: BlockV, phis: Seq<StmtV>) -> BlockV {
    BlockV { ip: b.ip, stmts: phis.reverse() + b.stmts }
}

/// Puts the definitions of its inputs at the start of each block.
fn insert_phis(blocks: &mut Vec<Block>, preds: &Vec<Vec<usize>>, ins: &Vec<NameMap>, outs: &Vec<NameMap>)
    requires
        old(blocks).len() == preds.len(),
        ins.len() == preds.len(),
        outs.len() == preds.len(),
        forall|c: int, q: int| 0 <= c < preds.len() && 0 <= q < preds[c].len() ==> #[trigger] preds[c][q]
            < preds.len(),
        inputs_flow(seqs_view(preds@), FlowV { ins: maps_view(ins@), outs: maps_view(outs@), next: 0, changed: false }),
    ensures
        final(blocks).len() == old(blocks).len(),
        forall|c: int| 0 <= c < old(blocks).len() ==> #[trigger] final(blocks)@[c]@ == with_phis(
            old(blocks)@[c]@,
            phis_of(seqs_view(preds@), maps_view(ins@), maps_view(outs@), c),
        ),
{
    let ghost pv = seqs_view(preds@);
    let ghost iv = maps_view(ins@);
    let ghost ov = maps_view(outs@);
    let ghost b0 = blocks@;
    let mut cur: usize = 0;
    while cur < blocks.len()
        invariant
            cur <= blocks.len(),
            blocks.len() == b0.len(),
            b0.len() == preds.len(),
            ins.len() == preds.len(),
            outs.len() == preds.len(),
            pv == seqs_view(preds@),
            iv == maps_view(ins@),
            ov == maps_view(outs@),
            forall|c: int, q: int| 0 <= c < preds.len() && 0 <= q < preds[c].len() ==> #[trigger] preds[c][q]
                < preds.len(),
            inputs_flow(pv, FlowV { ins: iv, outs: ov, next: 0, changed: false }),
            forall|c: int| 0 <= c < cur ==> #[trigger] blocks@[c]@ == with_phis(b0[c]@, phis_of(pv, iv, ov, c)),
            forall|c: int| cur <= c < b0.len() ==> #[trigger] blocks@[c]@ == b0[c]@,
        decreases blocks.len() - cur,
    {
        let mut k: usize = 0;
        proof {
            assert(phis_of(pv, iv, ov, cur as int).take(0).reverse() + b0[cur as int]@.stmts =~= b0[cur as int]@.stmts);
        }
        while k < ins[cur].len()
            invariant
                cur < blocks.len(),
                k <= ins[cur as int]@.len(),
                blocks.len() == b0.len(),
                b0.len() == preds.len(),
                ins.len() == preds.len(),
                outs.len() == preds.len(),
                pv == seqs_view(preds@),
                iv == maps_view(ins@),
                ov == maps_view(outs@),
                forall|c: int, q: int| 0 <= c < preds.len() && 0 <= q < preds[c].len() ==> #[trigger] preds[c][q]
                    < preds.len(),
                inputs_flow(pv, FlowV { ins: iv, outs: ov, next: 0, changed: false }),
                forall|c: int| 0 <= c < cur ==> #[trigger] blocks@[c]@ == with_phis(b0[c]@, phis_of(pv, iv, ov, c)),
                forall|c: int| cur < c < b0.len() ==> #[trigger] blocks@[c]@ == b0[c]@,
                blocks@[cur as int]@ == with_phis(b0[cur as int]@, phis_of(pv, iv, ov, cur as int).take(k as int)),
            decreases ins[cur as int]@.len() - k,
        {
            let name = ins[cur].name_at(k);
            let new = ins[cur].var_at(k);
            let ghost e = iv[cur as int][k as int];
            let ghost pa = phi_args(pv, ov, cur as int, e.0);
            let mut args: Vec<Expr> = Vec::new();
            if cur == 0 {
                let mut text = String::from_str(name_as_str(&name));
                text.append("_in");
                args.push(Expr::Name(name_new(text.as_str())));
            }
            let ghost prefix = args_view(args@);
            proof {
                lemma_args_view(args@);
                assert(prefix =~= (if cur == 0 { seq![ExprV::Name(e.0 + "_in"@)] } else { Seq::<ExprV>::empty() }));
            }
            let mut q: usize = 0;
            while q < preds[cur].len()
                invariant
                    cur < preds.len(),
                    q <= preds[cur as int].len(),
                    outs.len() == preds.len(),
                    pv == seqs_view(preds@),
                    ov == maps_view(outs@),
                    iv == maps_view(ins@),
                    ins.len() == preds.len(),
                    k < ins[cur as int]@.len(),
                    e == iv[cur as int][k as int],
                    name_chars(name) == e.0,
                    forall|c: int, q: int| 0 <= c < preds.len() && 0 <= q < preds[c].len() ==> #[trigger] preds[c][q]
                        < preds.len(),
                    inputs_flow(pv, FlowV { ins: iv, outs: ov, next: 0, changed: false }),
                    args_view(args@) == prefix + pv[cur as int].take(q as int).map_values(
                        |p: usize| ExprV::Var(assoc_get(ov[p as int], e.0).unwrap()),
                    ),
                decreases preds[cur as int].len() - q,
            {
                let prev = preds[cur][q];
                proof {
                    assert(pv[cur as int][q as int] == prev);
                    assert(iv[cur as int][k as int] == e);
                }
                let out = outs[prev].get(&name).unwrap();
                let ghost before = args@;
                args.push(Expr::Var(out));
                proof {
                    lemma_args_view_push(before, Expr::Var(out));
                    assert(pv[cur as int].take(q + 1) =~= pv[cur as int].take(q as int).push(prev));
                    assert(args_view(args@) =~= prefix + pv[cur as int].take(q + 1).map_values(
                        |p: usize| ExprV::Var(assoc_get(ov[p as int], e.0).unwrap()),
                    ));
                }
                q += 1;
            }
            proof {
                assert(pv[cur as int].take(pv[cur as int].len() as int) =~= pv[cur as int]);
                assert(args_view(args@) =~= pa);
                lemma_args_view(args@);
            }
            let val = if args.len() == 0 {
                let todo_args = vec![Expr::Name(name)];
                proof {
                    lemma_args_view(todo_args@);
                    assert(args_view(todo_args@) =~= seq![ExprV::Name(e.0)]);
                }
                Expr::call("todo", todo_args)
            } else if args.len() == 1 {
                args.pop().unwrap()
            } else {
                Expr::call("phi", args)
            };
            let mut stmt = Stmt { ip: Vec::new(), kind: StmtKind::Let(new, val) };
            assert(stmt@.kind == StmtKindV::Let(e.1, phi_value(e.0, pa)));
            simp_stmt(&mut stmt);
            let ghost old_b = blocks@[cur as int]@;
            let ghost old_stmts = blocks@[cur as int].stmts@;
            let ghost sv = stmt@;
            blocks[cur].stmts.insert(0, stmt);
            proof {
                let phis = phis_of(pv, iv, ov, cur as int);
                assert(sv == phis[k as int]);
                assert(blocks@[cur as int].stmts@ =~= seq![stmt].add(old_stmts));
                assert(stmts_view(blocks@[cur as int].stmts@) =~= seq![sv] + old_b.stmts);
                assert(phis.take(k + 1).reverse() =~= seq![phis[k as int]] + phis.take(k as int).reverse());
                assert(blocks@[cur as int].ip == old_b.ip);
                assert(old_b.stmts == phis.take(k as int).reverse() + b0[cur as int]@.stmts);
                assert(seq![sv] + (phis.take(k as int).reverse() + b0[cur as int]@.stmts) =~= (seq![sv]
                    + phis.take(k as int).reverse()) + b0[cur as int]@.stmts);
                assert(blocks@[cur as int]@ =~= with_phis(b0[cur as int]@, phis.take(k + 1)));
            }
            k += 1;
        }
        proof {
            let phis = phis_of(pv, iv, ov, cur as int);
            assert(phis.take(phis.len() as int) =~= phis);
        }
        cur += 1;
    }
}

/// The state that renaming leaves for propagation.
pub open spec fn renamed_flow(bs: Seq<BlockV>) -> FlowV {
    let (_, ins, outs, next) = rename_blocks(bs, 1).unwrap();
    FlowV { ins, outs, next: next as int, changed: false }
}

/// The inputs whose propagation `ssa` can do: there are statements, block
/// starts have addresses, jumps go to blocks, and the variables suffice.
pub open spec fn ssa_accepts(s: Seq<StmtV>) -> bool {
    let bs = blocks_of(s);
    &&& s.len() > 0
    &&& starts_have_ip(s)
    &&& all_succs_defined(bs)
    &&& rename_blocks(bs, 1) is Some
    &&& propagate(preds_of(bs), renamed_flow(bs)).next <= u16::MAX
}

/// SSA form of `s`: its blocks with registers renamed to variables, each
/// block's inputs passed on from its predecessors, and a definition of each
/// input at the start of its block.
pub open spec fn ssa_of(s: Seq<StmtV>) -> Seq<BlockV> {
    let bs = blocks_of(s);
    let preds = preds_of(bs);
    let renamed = rename_blocks(bs, 1).unwrap().0;
    let st = propagate(preds, renamed_flow(bs));
    Seq::new(renamed.len(), |c: int| with_phis(renamed[c], phis_of(preds, st.ins, st.outs, c)))
}

/// Converts statements into SSA form over basic blocks, as `ssa_of` says.
pub fn ssa(stmts: Vec<Stmt>) -> (res: Vec<Block>)
    requires
        ssa_accepts(stmts_view(stmts@)),
    ensures
        blocks_view(res@) == ssa_of(stmts_view(stmts@)),
{
    let ghost s = stmts_view(stmts@);
    let ghost bs = blocks_of(s);
    let mut blocks = blocks(stmts);
    let preds = block_preds(blocks.as_slice());
    let ghost pv = seqs_view(preds@);
    proof {
        assert(seqs_view(preds@) =~= preds@.map_values(|x: Vec<usize>| x@));
        lemma_preds_entries(bs, bs.len());
        lemma_rename_blocks(bs, 1, 0);
        assert forall|c: int, q: int| 0 <= c < preds.len() && 0 <= q < preds[c].len() implies #[trigger] preds[c][q]
            < preds.len() by {
            assert(pv[c] == preds[c]@);
            assert(pv[c][q] == preds[c][q]);
        }
    }
    let (mut ins, mut outs, mut next_var) = rename_all(&mut blocks);
    let ghost st0 = renamed_flow(bs);
    proof {
        assert(maps_view(ins@) =~= ins@.map_values(|m: NameMap| m@));
        assert(maps_view(outs@) =~= outs@.map_values(|m: NameMap| m@));
        assert(st0 == FlowV { ins: maps_view(ins@), outs: maps_view(outs@), next: next_var.0 as int, changed: false });
    }
    propagate_inputs(&preds, &mut ins, &mut outs, &mut next_var);
    proof {
        let names = all_inputs(st0.ins);
        let fuel = missing(st0.outs, names) + 1;
        lemma_all_inputs(st0.ins);
        lemma_fix_ends(pv, st0, names, fuel);
        lemma_fix_flows(pv, st0, fuel);
        crate::flow::lemma_fix_mono(pv, st0, fuel);
        assert(maps_view(ins@).len() == bs.len());
        assert(ins.len() == bs.len());
        assert(maps_view(outs@).len() == bs.len());
        assert(outs.len() == bs.len());
    }
    proof {
        let r = rename_blocks(bs, 1).unwrap().0;
        assert(blocks_view(blocks@).len() == r.len());
        assert(blocks.len() == bs.len());
        assert(preds@.map_values(|x: Vec<usize>| x@).len() == bs.len());
        assert(preds.len() == bs.len());
    }
    let ghost renamed = blocks@;
    insert_phis(&mut blocks, &preds, &ins, &outs);
    proof {
        assert(blocks_view(blocks@) =~= ssa_of(s));
    }
    blocks
}

} // verus!
