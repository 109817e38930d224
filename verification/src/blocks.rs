//! Basic blocks: splitting statements into blocks, and the control flow
//! between blocks.

use vstd::prelude::*;
use crate::ast::{Expr, ExprV, Stmt, StmtKind, StmtKindV, StmtV, stmts_view};

verus! {

/// A straight-line run of statements entered only at its start.
#[derive(Debug)]
pub struct Block {
    pub ip: u32,
    pub stmts: Vec<Stmt>,
}

/// The abstract value of a block.
pub struct BlockV {
    pub ip: u32,
    pub stmts: Seq<StmtV>,
}

impl View for Block {
    type V = BlockV;

    open spec fn view(&self) -> BlockV {
        BlockV { ip: self.ip, stmts: stmts_view(self.stmts@) }
    }
}

/// The abstract values of a list of blocks.
pub open spec fn blocks_view(bs: Seq<Block>) -> Seq<BlockV> {
    bs.map_values(|b: Block| b@)
}

impl Block {
    /// The block holding `stmts`, at the first address of the first statement.
    pub fn new(stmts: Vec<Stmt>) -> (res: Block)
        requires
            stmts.len() > 0,
            stmts[0].ip.len() > 0,
        ensures
            res@ == (BlockV { ip: stmts[0].ip[0], stmts: stmts_view(stmts@) }),
    {
        Block { ip: stmts[0].ip[0], stmts }
    }
}

/// The addresses that jumps in `s` go to, in order of the jumps.
pub open spec fn targets_of(s: Seq<StmtV>) -> Seq<u32>
    decreases s.len(),
{
    if s.len() == 0 {
        Seq::empty()
    } else {
        match s.last().kind {
            StmtKindV::Jmp(_, ExprV::Val(v)) => targets_of(s.drop_last()).push(v),
            _ => targets_of(s.drop_last()),
        }
    }
}

/// Statement `i` of `s` starts a block: it is the first one, it follows a
/// jump, or one of its addresses is a jump target in `t`.
pub open spec fn is_start(s: Seq<StmtV>, t: Seq<u32>, i: int) -> bool {
    ||| i == 0
    ||| s[i - 1].kind is Jmp
    ||| exists|j: int| 0 <= j < s[i].ip.len() && t.contains(#[trigger] s[i].ip[j])
}

/// `s` cut before each statement that starts a block.
pub open spec fn segments(s: Seq<StmtV>, t: Seq<u32>) -> Seq<Seq<StmtV>>
    decreases s.len(),
{
    if s.len() == 0 {
        Seq::empty()
    } else {
        let p = segments(s.drop_last(), t);
        if is_start(s, t, s.len() - 1) {
            p.push(seq![s.last()])
        } else {
            p.update(p.len() - 1, p.last().push(s.last()))
        }
    }
}

/// The blocks of `s`: one per segment, at the first address of its first statement.
pub open spec fn blocks_of(s: Seq<StmtV>) -> Seq<BlockV> {
    segments(s, targets_of(s)).map_values(|seg: Seq<StmtV>| BlockV { ip: seg[0].ip[0], stmts: seg })
}

/// Every statement of `s` that starts a block has an address.
pub open spec fn starts_have_ip(s: Seq<StmtV>) -> bool {
    forall|i: int| 0 <= i < s.len() && is_start(s, targets_of(s), i) ==> s[i].ip.len() > 0
}

proof fn lemma_targets_take(s: Seq<StmtV>, i: int)
    requires
        0 <= i < s.len(),
    ensures
        targets_of(s.take(i + 1)) == match s[i].kind {
            StmtKindV::Jmp(_, ExprV::Val(v)) => targets_of(s.take(i)).push(v),
            _ => targets_of(s.take(i)),
        },
{
    assert(s.take(i + 1).drop_last() =~= s.take(i));
}

/// Each segment is nonempty.
proof fn lemma_segments_nonempty(s: Seq<StmtV>, t: Seq<u32>)
    ensures
        forall|k: int| 0 <= k < segments(s, t).len() ==> #[trigger] segments(s, t)[k].len() > 0,
        s.len() > 0 <==> segments(s, t).len() > 0,
    decreases s.len(),
{
    if s.len() > 0 {
        lemma_segments_nonempty(s.drop_last(), t);
    }
}

fn contains_u32(v: &Vec<u32>, x: u32) -> (res: bool)
    ensures
        res == v@.contains(x),
{
    let mut i: usize = 0;
    while i < v.len()
        invariant
            i <= v.len(),
            forall|j: int| 0 <= j < i ==> v@[j] != x,
        decreases v.len() - i,
    {
        if v[i] == x {
            return true;
        }
        i += 1;
    }
    false
}

fn hits_target(ips: &Vec<u32>, targets: &Vec<u32>) -> (res: bool)
    ensures
        res == exists|j: int| 0 <= j < ips.len() && targets@.contains(#[trigger] ips@[j]),
{
    let mut i: usize = 0;
    while i < ips.len()
        invariant
            i <= ips.len(),
            forall|j: int| 0 <= j < i ==> !targets@.contains(#[trigger] ips@[j]),
        decreases ips.len() - i,
    {
        if contains_u32(targets, ips[i]) {
            return true;
        }
        i += 1;
    }
    false
}

/// Splits `stmts` into blocks, as `blocks_of` says.
pub fn blocks(stmts: Vec<Stmt>) -> (res: Vec<Block>)
    requires
        starts_have_ip(stmts_view(stmts@)),
    ensures
        blocks_view(res@) == blocks_of(stmts_view(stmts@)),
{
    let ghost s = stmts_view(stmts@);
    let mut jmp_targets: Vec<u32> = Vec::new();
    let mut i: usize = 0;
    proof {
        assert(s.take(0) =~= Seq::<StmtV>::empty());
    }
    while i < stmts.len()
        invariant
            i <= stmts.len(),
            s == stmts_view(stmts@),
            jmp_targets@ == targets_of(s.take(i as int)),
        decreases stmts.len() - i,
    {
        proof {
            lemma_targets_take(s, i as int);
        }
        if let StmtKind::Jmp(_, Expr::Val(dst)) = &stmts[i].kind {
            jmp_targets.push(*dst);
        }
        i += 1;
    }
    proof {
        assert(s.take(s.len() as int) =~= s);
    }
    let ghost t = jmp_targets@;
    let mut out: Vec<Block> = Vec::new();
    let mut cur: Vec<Stmt> = Vec::new();
    let mut i: usize = 0;
    while i < stmts.len()
        invariant
            i <= stmts.len(),
            s == stmts_view(stmts@),
            t == targets_of(s),
            t == jmp_targets@,
            starts_have_ip(s),
            i == 0 ==> cur.len() == 0 && out.len() == 0,
            i > 0 ==> cur.len() > 0 && cur[0].ip.len() > 0,
            i > 0 ==> segments(s.take(i as int), t) == blocks_view(out@).map_values(
                |b: BlockV| b.stmts,
            ).push(stmts_view(cur@)),
            forall|k: int| 0 <= k < out.len() ==> #[trigger] out[k]@.stmts.len() > 0
                && out[k]@.ip == out[k]@.stmts[0].ip[0],
        decreases stmts.len() - i,
    {
        let stmt = stmts[i].clone();
        let start = i == 0 || (match &stmts[i - 1].kind {
            StmtKind::Jmp(_, _) => true,
            _ => false,
        }) || hits_target(&stmts[i].ip, &jmp_targets);
        proof {
            assert(s.take(i + 1).drop_last() =~= s.take(i as int));
            assert(start == is_start(s, t, i as int));
            assert(is_start(s.take(i + 1), t, i as int) == is_start(s, t, i as int));
        }
        let ghost old_blocks = blocks_view(out@).map_values(|b: BlockV| b.stmts);
        let ghost old_cur = stmts_view(cur@);
        if start {
            if i > 0 {
                let block = Block::new(cur);
                out.push(block);
                proof {
                    assert(blocks_view(out@).map_values(|b: BlockV| b.stmts) =~= old_blocks.push(
                        old_cur,
                    ));
                }
            }
            cur = Vec::new();
        }
        cur.push(stmt);
        proof {
            if start {
                assert(stmts_view(cur@) =~= seq![s[i as int]]);
                if i == 0 {
                    assert(s.take(1).drop_last() =~= Seq::<StmtV>::empty());
                    assert(blocks_view(out@).map_values(|b: BlockV| b.stmts) =~= Seq::<Seq<StmtV>>::empty());
                }
            } else {
                assert(stmts_view(cur@) =~= old_cur.push(s[i as int]));
            }
            assert(s.take(i + 1).last() == s[i as int]);
            let p = segments(s.take(i as int), t);
            if i > 0 {
                assert(p == old_blocks.push(old_cur));
                if !start {
                    assert(p.update(p.len() - 1, p.last().push(s[i as int])) =~= old_blocks.push(
                        old_cur.push(s[i as int]),
                    ));
                }
            } else {
                assert(p =~= Seq::<Seq<StmtV>>::empty());
            }
            assert(segments(s.take(i + 1), t) =~= blocks_view(out@).map_values(|b: BlockV| b.stmts).push(
                stmts_view(cur@),
            ));
        }
        i += 1;
    }
    let ghost old_blocks = blocks_view(out@).map_values(|b: BlockV| b.stmts);
    let ghost old_cur = stmts_view(cur@);
    if cur.len() > 0 {
        let block = Block::new(cur);
        out.push(block);
        proof {
            assert(blocks_view(out@).map_values(|b: BlockV| b.stmts) =~= old_blocks.push(old_cur));
        }
    }
    proof {
        assert(s.take(s.len() as int) =~= s);
        if s.len() == 0 {
            assert(segments(s, t) =~= Seq::<Seq<StmtV>>::empty());
        }
        let segs = segments(s, t);
        lemma_segments_nonempty(s, t);
        assert(blocks_view(out@).map_values(|b: BlockV| b.stmts) =~= segs);
        assert forall|k: int| 0 <= k < out.len() implies #[trigger] blocks_view(out@)[k] == blocks_of(
            s,
        )[k] by {
            assert(blocks_view(out@)[k].stmts == segs[k]);
            assert(out[k]@.ip == out[k]@.stmts[0].ip[0]);
        }
        assert(blocks_view(out@) =~= blocks_of(s));
    }
    out
}

/// The statements of `segs`, one segment after another.
pub open spec fn concat(segs: Seq<Seq<StmtV>>) -> Seq<StmtV>
    decreases segs.len(),
{
    if segs.len() == 0 {
        Seq::empty()
    } else {
        concat(segs.drop_last()) + segs.last()
    }
}

/// The statements of the blocks, one block after another.
pub open spec fn block_stmts(bs: Seq<BlockV>) -> Seq<StmtV> {
    concat(bs.map_values(|b: BlockV| b.stmts))
}

proof fn lemma_segments_shape(s: Seq<StmtV>, t: Seq<u32>)
    ensures
        concat(segments(s, t)) == s,
        s.len() > 0 ==> segments(s, t).last().last() == s.last(),
        forall|k: int, i: int|
            0 <= k < segments(s, t).len() && 0 <= i < segments(s, t)[k].len() - 1 ==> (#[trigger] segments(s, t)[k][i]).kind !is Jmp,
    decreases s.len(),
{
    lemma_segments_nonempty(s, t);
    if s.len() > 0 {
        let d = s.drop_last();
        lemma_segments_shape(d, t);
        lemma_segments_nonempty(d, t);
        let p = segments(d, t);
        let x = s.last();
        if is_start(s, t, s.len() - 1) {
            let q = p.push(seq![x]);
            assert(q.drop_last() =~= p);
            assert(concat(q) =~= s);
        } else {
            let l = p.last();
            let q = p.update(p.len() - 1, l.push(x));
            assert(q.drop_last() =~= p.drop_last());
            assert(concat(p) == concat(p.drop_last()) + l);
            assert(q.last() == l.push(x));
            assert(concat(p.drop_last()) + l.push(x) =~= (concat(p.drop_last()) + l).push(x));
            assert(d.push(x) =~= s);
            assert(concat(q) =~= s);
            assert forall|k: int, i: int| 0 <= k < q.len() && 0 <= i < q[k].len() - 1 implies (#[trigger] q[k][i]).kind !is Jmp by {
                if k == q.len() - 1 && i == l.len() - 1 {
                    assert(q[k][i] == d.last());
                    assert(d.last() == s[s.len() - 2]);
                } else if k == q.len() - 1 {
                    assert(q[k][i] == p[k][i]);
                }
            }
        }
    }
}

/// Splitting into blocks keeps every statement, in order: the statements of
/// the blocks, one block after another, are the statements split.
pub proof fn law_blocks_cover(s: Seq<StmtV>)
    ensures
        block_stmts(blocks_of(s)) == s,
{
    let segs = segments(s, targets_of(s));
    lemma_segments_shape(s, targets_of(s));
    assert(blocks_of(s).map_values(|b: BlockV| b.stmts) =~= segs);
}

/// A jump ends its block: no statement but the last of a block is a jump.
pub proof fn law_jumps_end_blocks(s: Seq<StmtV>)
    ensures
        forall|k: int, i: int|
            0 <= k < blocks_of(s).len() && 0 <= i < blocks_of(s)[k].stmts.len() - 1 ==> (#[trigger] blocks_of(s)[k].stmts[i]).kind !is Jmp,
{
    let segs = segments(s, targets_of(s));
    lemma_segments_shape(s, targets_of(s));
    assert forall|k: int, i: int|
        0 <= k < blocks_of(s).len() && 0 <= i < blocks_of(s)[k].stmts.len() - 1 implies (#[trigger] blocks_of(s)[k].stmts[i]).kind !is Jmp by {
        assert(blocks_of(s)[k].stmts == segs[k]);
    }
}

/// Whether some jump of `s` goes to address `a`.
pub open spec fn jumps_to(s: Seq<StmtV>, a: u32) -> bool {
    exists|m: int| 0 <= m < s.len() && is_jump_to(#[trigger] s[m], a)
}

/// Whether `s` is a jump to address `a`.
pub open spec fn is_jump_to(s: StmtV, a: u32) -> bool {
    s.kind matches StmtKindV::Jmp(_, ExprV::Val(t)) && t == a
}

proof fn lemma_targets_jumps(s: Seq<StmtV>, a: u32)
    ensures
        targets_of(s).contains(a) <==> jumps_to(s, a),
    decreases s.len(),
{
    if s.len() > 0 {
        let d = s.drop_last();
        lemma_targets_jumps(d, a);
        if jumps_to(d, a) {
            let m = choose|m: int| 0 <= m < d.len() && is_jump_to(#[trigger] d[m], a);
            assert(s[m] == d[m]);
        }
        if jumps_to(s, a) {
            let m = choose|m: int| 0 <= m < s.len() && is_jump_to(#[trigger] s[m], a);
            if m < d.len() {
                assert(d[m] == s[m]);
            }
        }
        if let StmtKindV::Jmp(_, ExprV::Val(v)) = s.last().kind {
            assert(targets_of(s) == targets_of(d).push(v));
            assert(targets_of(d).push(v).contains(a) <==> (targets_of(d).contains(a) || v == a)) by {
                if targets_of(d).push(v).contains(a) {
                    let q = choose|q: int| 0 <= q < targets_of(d).push(v).len() && targets_of(d).push(v)[q] == a;
                    if q < targets_of(d).len() {
                        assert(targets_of(d)[q] == a);
                    }
                }
                if targets_of(d).contains(a) {
                    let q = choose|q: int| 0 <= q < targets_of(d).len() && targets_of(d)[q] == a;
                    assert(targets_of(d).push(v)[q] == a);
                }
                if v == a {
                    assert(targets_of(d).push(v)[targets_of(d).len() as int] == a);
                }
            }
            if v == a {
                assert(is_jump_to(s[s.len() - 1], a));
            }
        }
    }
}

proof fn lemma_segments_starts(s: Seq<StmtV>, t: Seq<u32>)
    ensures
        forall|k: int, i: int, j: int|
            0 <= k < segments(s, t).len() && 0 < i < segments(s, t)[k].len() && 0 <= j < segments(s, t)[k][i].ip.len()
                ==> !t.contains(#[trigger] segments(s, t)[k][i].ip[j]),
    decreases s.len(),
{
    if s.len() > 0 {
        let d = s.drop_last();
        lemma_segments_starts(d, t);
        lemma_segments_nonempty(d, t);
        let p = segments(d, t);
        let x = s.last();
        if is_start(s, t, s.len() - 1) {
            let q = p.push(seq![x]);
            assert forall|k: int, i: int, j: int|
                0 <= k < q.len() && 0 < i < q[k].len() && 0 <= j < q[k][i].ip.len() implies !t.contains(
                #[trigger] q[k][i].ip[j],
            ) by {
                assert(k < p.len());
                assert(q[k] == p[k]);
            }
        } else {
            let l = p.last();
            let q = p.update(p.len() - 1, l.push(x));
            assert forall|k: int, i: int, j: int|
                0 <= k < q.len() && 0 < i < q[k].len() && 0 <= j < q[k][i].ip.len() implies !t.contains(
                #[trigger] q[k][i].ip[j],
            ) by {
                if k == q.len() - 1 && i == l.len() {
                    assert(q[k][i] == x);
                    assert(x == s[s.len() - 1]);
                } else if k == q.len() - 1 {
                    assert(q[k][i] == p[k][i]);
                } else {
                    assert(q[k] == p[k]);
                }
            }
        }
    }
}

/// A statement any of whose addresses some jump of the input goes to starts a
/// block: no block holds one after its first statement.
pub proof fn law_targets_start_blocks(s: Seq<StmtV>)
    ensures
        forall|k: int, i: int, j: int|
            0 <= k < blocks_of(s).len() && 0 < i < blocks_of(s)[k].stmts.len() && 0 <= j
                < blocks_of(s)[k].stmts[i].ip.len() ==> !jumps_to(s, #[trigger] blocks_of(s)[k].stmts[i].ip[j]),
{
    let t = targets_of(s);
    lemma_segments_starts(s, t);
    assert forall|k: int, i: int, j: int|
        0 <= k < blocks_of(s).len() && 0 < i < blocks_of(s)[k].stmts.len() && 0 <= j
            < blocks_of(s)[k].stmts[i].ip.len() implies !jumps_to(s, #[trigger] blocks_of(s)[k].stmts[i].ip[j]) by {
        assert(blocks_of(s)[k].stmts == segments(s, t)[k]);
        lemma_targets_jumps(s, blocks_of(s)[k].stmts[i].ip[j]);
    }
}

/// A jump that never falls through: `(jmp (jmp) ..)` or `(jmp (ret) ..)`.
pub open spec fn ends_flow(k: StmtKindV) -> bool {
    match k {
        StmtKindV::Jmp(c, _) => c.func == "jmp"@ || c.func == "ret"@,
        _ => false,
    }
}

/// The position of the first block at `addr`, or -1.
pub open spec fn block_at(bs: Seq<BlockV>, addr: u32) -> int
    decreases bs.len(),
{
    if bs.len() == 0 {
        -1
    } else {
        let i = block_at(bs.drop_last(), addr);
        if i >= 0 {
            i
        } else if bs.last().ip == addr {
            bs.len() - 1
        } else {
            -1
        }
    }
}

/// `block_at` finds the first block at the address.
pub proof fn lemma_block_at(bs: Seq<BlockV>, addr: u32)
    ensures
        -1 <= block_at(bs, addr) < bs.len(),
        block_at(bs, addr) >= 0 ==> bs[block_at(bs, addr)].ip == addr,
        forall|j: int| 0 <= j < bs.len() && (block_at(bs, addr) < 0 || j < block_at(bs, addr))
            ==> #[trigger] bs[j].ip != addr,
    decreases bs.len(),
{
    if bs.len() > 0 {
        let t = bs.drop_last();
        lemma_block_at(t, addr);
        assert forall|j: int|
            0 <= j < bs.len() && (block_at(bs, addr) < 0 || j < block_at(bs, addr)) implies #[trigger] bs[j].ip
            != addr by {
            if j < bs.len() - 1 {
                assert(t[j] == bs[j]);
            }
        }
    }
}

/// The blocks that control can pass to from block `b`: the next block, unless
/// `b` ends in `jmp` or `ret`, and then the block that a jump at the end of `b`
/// goes to.
pub open spec fn succs(bs: Seq<BlockV>, b: int) -> Seq<usize> {
    let last = bs[b].stmts.last();
    let fall: Seq<usize> = if b + 1 < bs.len() && !ends_flow(last.kind) {
        seq![(b + 1) as usize]
    } else {
        Seq::empty()
    };
    match last.kind {
        StmtKindV::Jmp(_, ExprV::Val(a)) => fall.push(block_at(bs, a) as usize),
        _ => fall,
    }
}

/// Block `b` is nonempty and a jump at its end goes to an existing block.
pub open spec fn succs_defined(bs: Seq<BlockV>, b: int) -> bool {
    &&& bs[b].stmts.len() > 0
    &&& (bs[b].stmts.last().kind matches StmtKindV::Jmp(_, ExprV::Val(a)) ==> block_at(bs, a) >= 0)
}

/// Every jump of every block goes to a block.
pub open spec fn all_succs_defined(bs: Seq<BlockV>) -> bool {
    forall|b: int| 0 <= b < bs.len() ==> #[trigger] succs_defined(bs, b)
}

/// The successors of `block`, as `succs` says.
pub fn nexts(blocks: &[Block], block: usize) -> (res: Vec<usize>)
    requires
        block < blocks@.len(),
        succs_defined(blocks_view(blocks@), block as int),
    ensures
        res@ == succs(blocks_view(blocks@), block as int),
        forall|i: int| 0 <= i < res.len() ==> #[trigger] res[i] < blocks@.len(),
{
    let ghost bs = blocks_view(blocks@);
    let stmts = &blocks[block].stmts;
    let last = &stmts[stmts.len() - 1];
    assert(last@ == bs[block as int].stmts.last());
    let mut res: Vec<usize> = Vec::new();
    let mut fall = block + 1 < blocks.len();
    if let StmtKind::Jmp(cond, dst) = &last.kind {
        if crate::text::str_eq(cond.func.as_str(), "jmp") || crate::text::str_eq(cond.func.as_str(), "ret") {
            fall = false;
        }
    }
    if fall {
        res.push(block + 1);
    }
    if let StmtKind::Jmp(_, Expr::Val(addr)) = &last.kind {
        proof {
            lemma_block_at(bs, *addr);
        }
        let mut k: usize = 0;
        while k < blocks.len() && blocks[k].ip != *addr
            invariant
                k <= blocks@.len(),
                bs == blocks_view(blocks@),
                forall|j: int| 0 <= j < k ==> #[trigger] bs[j].ip != *addr,
            decreases blocks@.len() - k,
        {
            k += 1;
        }
        proof {
            lemma_block_at(bs, *addr);
            let ki = block_at(bs, *addr);
            if k < blocks@.len() {
                assert(bs[k as int].ip == *addr);
                if ki < 0 || ki > k {
                    assert(bs[k as int].ip != *addr);
                }
            }
        }
        res.push(k);
    }
    res
}

/// Adds `src` to the predecessors of each block in `ds`.
pub open spec fn add_edges(p: Seq<Seq<usize>>, src: usize, ds: Seq<usize>) -> Seq<Seq<usize>>
    decreases ds.len(),
{
    if ds.len() == 0 {
        p
    } else {
        let p1 = add_edges(p, src, ds.drop_last());
        p1.update(ds.last() as int, p1[ds.last() as int].push(src))
    }
}

/// The predecessors of each block from the edges of the first `m` blocks.
pub open spec fn preds_upto(bs: Seq<BlockV>, m: nat) -> Seq<Seq<usize>>
    decreases m,
{
    if m == 0 {
        Seq::new(bs.len(), |i: int| Seq::<usize>::empty())
    } else {
        add_edges(preds_upto(bs, (m - 1) as nat), (m - 1) as usize, succs(bs, m - 1))
    }
}

/// The predecessors of each block, each listed once per edge, in order of source.
pub open spec fn preds_of(bs: Seq<BlockV>) -> Seq<Seq<usize>> {
    preds_upto(bs, bs.len())
}

proof fn lemma_add_edges_len(p: Seq<Seq<usize>>, src: usize, ds: Seq<usize>)
    requires
        forall|i: int| 0 <= i < ds.len() ==> #[trigger] ds[i] < p.len(),
    ensures
        add_edges(p, src, ds).len() == p.len(),
    decreases ds.len(),
{
    if ds.len() > 0 {
        lemma_add_edges_len(p, src, ds.drop_last());
    }
}

/// The successors of a block are blocks.
pub proof fn lemma_succs_range(bs: Seq<BlockV>, b: int)
    requires
        0 <= b < bs.len(),
        succs_defined(bs, b),
    ensures
        forall|i: int| 0 <= i < succs(bs, b).len() ==> #[trigger] succs(bs, b)[i] < bs.len(),
{
    if let StmtKindV::Jmp(_, ExprV::Val(a)) = bs[b].stmts.last().kind {
        lemma_block_at(bs, a);
    }
}

proof fn lemma_preds_len(bs: Seq<BlockV>, m: nat)
    requires
        all_succs_defined(bs),
        m <= bs.len(),
    ensures
        preds_upto(bs, m).len() == bs.len(),
    decreases m,
{
    if m > 0 {
        lemma_preds_len(bs, (m - 1) as nat);
        assert(succs_defined(bs, m - 1));
        lemma_succs_range(bs, m - 1);
        lemma_add_edges_len(preds_upto(bs, (m - 1) as nat), (m - 1) as usize, succs(bs, m - 1));
    }
}

proof fn lemma_add_edges_entries(p: Seq<Seq<usize>>, src: usize, ds: Seq<usize>, bound: int)
    requires
        src < bound,
        forall|i: int| 0 <= i < ds.len() ==> #[trigger] ds[i] < p.len(),
        forall|c: int, q: int| 0 <= c < p.len() && 0 <= q < p[c].len() ==> #[trigger] p[c][q] < bound,
    ensures
        forall|c: int, q: int|
            0 <= c < add_edges(p, src, ds).len() && 0 <= q < add_edges(p, src, ds)[c].len()
                ==> #[trigger] add_edges(p, src, ds)[c][q] < bound,
    decreases ds.len(),
{
    if ds.len() > 0 {
        lemma_add_edges_entries(p, src, ds.drop_last(), bound);
        lemma_add_edges_len(p, src, ds.drop_last());
    }
}

/// Every predecessor is a block.
pub proof fn lemma_preds_entries(bs: Seq<BlockV>, m: nat)
    requires
        all_succs_defined(bs),
        m <= bs.len(),
    ensures
        preds_upto(bs, m).len() == bs.len(),
        forall|c: int, q: int|
            0 <= c < preds_upto(bs, m).len() && 0 <= q < preds_upto(bs, m)[c].len()
                ==> #[trigger] preds_upto(bs, m)[c][q] < bs.len(),
    decreases m,
{
    lemma_preds_len(bs, m);
    if m > 0 {
        lemma_preds_entries(bs, (m - 1) as nat);
        assert(succs_defined(bs, m - 1));
        lemma_succs_range(bs, m - 1);
        lemma_preds_len(bs, (m - 1) as nat);
        lemma_add_edges_entries(
            preds_upto(bs, (m - 1) as nat),
            (m - 1) as usize,
            succs(bs, m - 1),
            bs.len() as int,
        );
    }
}

/// The predecessors of each block, as `preds_of` says.
pub fn block_preds(blocks: &[Block]) -> (res: Vec<Vec<usize>>)
    requires
        all_succs_defined(blocks_view(blocks@)),
    ensures
        res@.map_values(|x: Vec<usize>| x@) == preds_of(blocks_view(blocks@)),
{
    let ghost bs = blocks_view(blocks@);
    let mut preds: Vec<Vec<usize>> = Vec::new();
    let mut i: usize = 0;
    while i < blocks.len()
        invariant
            i <= blocks@.len(),
            preds.len() == i,
            forall|j: int| 0 <= j < i ==> (#[trigger] preds@[j])@ == Seq::<usize>::empty(),
        decreases blocks@.len() - i,
    {
        preds.push(Vec::new());
        i += 1;
    }
    proof {
        assert(preds@.map_values(|x: Vec<usize>| x@) =~= preds_upto(bs, 0));
    }
    let mut src: usize = 0;
    while src < blocks.len()
        invariant
            src <= blocks@.len(),
            bs == blocks_view(blocks@),
            all_succs_defined(bs),
            preds@.map_values(|x: Vec<usize>| x@) == preds_upto(bs, src as nat),
        decreases blocks@.len() - src,
    {
        assert(succs_defined(bs, src as int));
        let ds = nexts(blocks, src);
        let ghost p0 = preds@.map_values(|x: Vec<usize>| x@);
        let mut k: usize = 0;
        proof {
            lemma_preds_len(bs, src as nat);
            assert(ds@.take(0) =~= Seq::<usize>::empty());
        }
        while k < ds.len()
            invariant
                k <= ds.len(),
                ds@ == succs(bs, src as int),
                forall|i: int| 0 <= i < ds.len() ==> #[trigger] ds[i] < blocks@.len(),
                p0.len() == blocks@.len(),
                preds@.map_values(|x: Vec<usize>| x@) == add_edges(p0, src, ds@.take(k as int)),
            decreases ds.len() - k,
        {
            let d = ds[k];
            proof {
                lemma_add_edges_len(p0, src, ds@.take(k as int));
                assert(ds@.take(k + 1).drop_last() =~= ds@.take(k as int));
            }
            preds[d].push(src);
            proof {
                assert(preds@.map_values(|x: Vec<usize>| x@) =~= add_edges(p0, src, ds@.take(k + 1)));
            }
            k += 1;
        }
        proof {
            assert(ds@.take(ds.len() as int) =~= ds@);
        }
        src += 1;
    }
    preds
}

} // verus!
