//! Inlining of variables that are defined once and used once, or that alias
//! another variable.

use vstd::prelude::*;
use crate::ast::{Expr, ExprV, Stmt, StmtKind, StmtKindV, StmtV, Var, clone_expr, stmts_view};
use crate::blocks::{Block, BlockV, blocks_view};
use crate::simp::{simp_stmt, simp_stmt_kind};
use crate::visit::{ExprVisitor, ExprVisitorMut, visit_forest, visit_stmt, visit_tree, visit_stmt_expr, visit_stmt_expr_mut, walk, walk_list, walk_stmt, walk_stmt_ends, walk_stmt_result};

verus! {

/// Use counts of variables, capped at 2 (used once, or more than once).
pub type Counts = Seq<(u16, u8)>;

/// The capped count of `x` in `c`.
pub open spec fn count_of(c: Counts, x: u16) -> u8
    decreases c.len(),
{
    if c.len() == 0 {
        0
    } else if c.last().0 == x {
        c.last().1
    } else {
        count_of(c.drop_last(), x)
    }
}

/// `c` with one more use of `x`.
pub open spec fn bump(c: Counts, x: u16) -> Counts {
    let n = count_of(c, x);
    c.push((x, if n >= 2 { 2u8 } else { (n + 1) as u8 }))
}

/// Counts the uses of each variable.
pub struct UseCounter {
    counts: Vec<(u16, u8)>,
}

impl View for UseCounter {
    type V = Counts;

    closed spec fn view(&self) -> Counts {
        self.counts@
    }
}

impl ExprVisitor for UseCounter {
    open spec fn after(s: Counts, e: ExprV) -> Counts {
        match e {
            ExprV::Var(x) => bump(s, x),
            _ => s,
        }
    }

    fn visit(&mut self, e: &Expr) {
        if let Expr::Var(x) = e {
            let n = self.count(x.0);
            let m: u8 = if n >= 2 {
                2
            } else {
                n + 1
            };
            self.counts.push((x.0, m));
        }
    }
}

impl UseCounter {
    /// A counter that has seen no use yet.
    pub fn new() -> (res: UseCounter)
        ensures
            res@ == Seq::<(u16, u8)>::empty(),
    {
        UseCounter { counts: Vec::new() }
    }

    /// The capped count of `x`.
    pub fn count(&self, x: u16) -> (res: u8)
        ensures
            res == count_of(self@, x),
    {
        let mut i = self.counts.len();
        assert(self@.take(i as int) =~= self@);
        while i > 0
            invariant
                i <= self.counts.len(),
                count_of(self@, x) == count_of(self@.take(i as int), x),
            decreases i,
        {
            proof {
                assert(self@.take(i as int).drop_last() =~= self@.take(i - 1));
            }
            if self.counts[i - 1].0 == x {
                return self.counts[i - 1].1;
            }
            i -= 1;
        }
        0
    }
}

/// Replaces each use of `var` with `val`, noting whether it replaced any.
pub struct Subst<'a> {
    pub var: Var,
    pub val: &'a Expr,
    pub hit: bool,
}

/// The abstract state of a `Subst`.
pub struct SubstV {
    pub var: u16,
    pub val: ExprV,
    pub hit: bool,
}

impl<'a> View for Subst<'a> {
    type V = SubstV;

    open spec fn view(&self) -> SubstV {
        SubstV { var: self.var.0, val: self.val@, hit: self.hit }
    }
}

impl<'a> ExprVisitorMut for Subst<'a> {
    open spec fn ready(s: SubstV, e: ExprV) -> bool {
        true
    }

    open spec fn rewrite(s: SubstV, e: ExprV) -> ExprV {
        if e == ExprV::Var(s.var) {
            s.val
        } else {
            e
        }
    }

    open spec fn after(s: SubstV, e: ExprV) -> SubstV {
        if e == ExprV::Var(s.var) {
            SubstV { hit: true, ..s }
        } else {
            s
        }
    }

    fn visit(&mut self, e: &mut Expr) {
        let is_var = match e {
            Expr::Var(v) => v.0 == self.var.0,
            _ => false,
        };
        if is_var {
            *e = clone_expr(self.val);
            self.hit = true;
        }
    }
}

/// `v` inserted into the sorted `s`, after the elements no larger than it.
pub open spec fn insert_sorted(s: Seq<u32>, v: u32) -> Seq<u32>
    decreases s.len(),
{
    if s.len() == 0 {
        seq![v]
    } else if s.last() <= v {
        s.push(v)
    } else {
        insert_sorted(s.drop_last(), v).push(s.last())
    }
}

/// `s` in ascending order.
pub open spec fn sort_seq(s: Seq<u32>) -> Seq<u32>
    decreases s.len(),
{
    if s.len() == 0 {
        s
    } else {
        insert_sorted(sort_seq(s.drop_last()), s.last())
    }
}

/// `s` is in ascending order.
pub open spec fn sorted(s: Seq<u32>) -> bool {
    forall|i: int, j: int| 0 <= i <= j < s.len() ==> s[i] <= s[j]
}

/// Inserting into a sorted sequence keeps it sorted and adds one element.
pub proof fn lemma_insert_sorted(s: Seq<u32>, v: u32)
    requires
        sorted(s),
    ensures
        sorted(insert_sorted(s, v)),
        insert_sorted(s, v).to_multiset() == s.to_multiset().insert(v),
        insert_sorted(s, v).len() == s.len() + 1,
        forall|i: int| 0 <= i < insert_sorted(s, v).len() ==> (#[trigger] insert_sorted(s, v)[i] == v
            || s.contains(insert_sorted(s, v)[i])),
    decreases s.len(),
{
    broadcast use vstd::seq_lib::group_to_multiset_ensures;
    if s.len() > 0 && s.last() > v {
        let t = s.drop_last();
        lemma_insert_sorted(t, v);
        let r = insert_sorted(t, v);
        assert(s =~= t.push(s.last()));
        assert forall|i: int| 0 <= i < r.len() implies r[i] <= s.last() by {
            if r[i] != v {
                let k = choose|k: int| 0 <= k < t.len() && t[k] == r[i];
                assert(s[k] <= s[s.len() - 1]);
            }
        }
        assert forall|i: int| 0 <= i < r.push(s.last()).len() implies (#[trigger] r.push(s.last())[i] == v
            || s.contains(r.push(s.last())[i])) by {
            if i < r.len() && r[i] != v {
                let k = choose|k: int| 0 <= k < t.len() && t[k] == r[i];
                assert(s[k] == r[i]);
            } else if i == r.len() {
                assert(s[s.len() - 1] == s.last());
            }
        }
    } else if s.len() > 0 {
        assert forall|i: int| 0 <= i < s.push(v).len() implies (#[trigger] s.push(v)[i] == v || s.contains(
            s.push(v)[i],
        )) by {
            if i < s.len() {
                assert(s[i] == s.push(v)[i]);
            }
        }
    }
}

/// `sort_seq` sorts: its result is ascending and has the same elements.
pub proof fn lemma_sort_seq(s: Seq<u32>)
    ensures
        sorted(sort_seq(s)),
        sort_seq(s).to_multiset() == s.to_multiset(),
        sort_seq(s).len() == s.len(),
    decreases s.len(),
{
    broadcast use vstd::seq_lib::group_to_multiset_ensures;
    if s.len() > 0 {
        lemma_sort_seq(s.drop_last());
        lemma_insert_sorted(sort_seq(s.drop_last()), s.last());
        assert(s =~= s.drop_last().push(s.last()));
    }
}

/// The position of the entry for `x` in `d`, or -1.
pub open spec fn def_index(d: Seq<(u16, bool)>, x: u16) -> int
    decreases d.len(),
{
    if d.len() == 0 {
        -1
    } else {
        let i = def_index(d.drop_last(), x);
        if i >= 0 {
            i
        } else if d.last().0 == x {
            d.len() - 1
        } else {
            -1
        }
    }
}

/// `d` with `x` defined, as an alias of another variable or not: the entry
/// for `x` is updated in place, or added at the end.
pub open spec fn def_insert(d: Seq<(u16, bool)>, x: u16, alias: bool) -> Seq<(u16, bool)> {
    let i = def_index(d, x);
    if i >= 0 {
        d.update(i, (x, alias))
    } else {
        d.push((x, alias))
    }
}

proof fn lemma_def_index(d: Seq<(u16, bool)>, x: u16)
    ensures
        -1 <= def_index(d, x) < d.len(),
        def_index(d, x) >= 0 ==> d[def_index(d, x)].0 == x,
        forall|j: int| 0 <= j < d.len() && (def_index(d, x) < 0 || j < def_index(d, x)) ==> #[trigger] d[j].0 != x,
    decreases d.len(),
{
    if d.len() > 0 {
        let t = d.drop_last();
        lemma_def_index(t, x);
        assert forall|j: int| 0 <= j < d.len() && (def_index(d, x) < 0 || j < def_index(d, x)) implies #[trigger] d[j].0
            != x by {
            if j < d.len() - 1 {
                assert(t[j] == d[j]);
            }
        }
    }
}

proof fn lemma_let_index(s: Seq<StmtV>, x: u16)
    ensures
        -1 <= let_index(s, x) < s.len(),
        let_index(s, x) >= 0 ==> is_let_of(s[let_index(s, x)].kind, x),
        forall|j: int| 0 <= j < s.len() && (let_index(s, x) < 0 || j < let_index(s, x)) ==> !is_let_of(
            #[trigger] s[j].kind,
            x,
        ),
    decreases s.len(),
{
    if s.len() > 0 {
        let t = s.drop_last();
        lemma_let_index(t, x);
        assert forall|j: int| 0 <= j < s.len() && (let_index(s, x) < 0 || j < let_index(s, x)) implies !is_let_of(
            #[trigger] s[j].kind,
            x,
        ) by {
            if j < s.len() - 1 {
                assert(t[j] == s[j]);
            }
        }
    }
}

proof fn lemma_def_block(bs: Seq<BlockV>, x: u16)
    ensures
        -1 <= def_block(bs, x) < bs.len(),
        def_block(bs, x) >= 0 ==> let_index(bs[def_block(bs, x)].stmts, x) >= 0,
        forall|j: int| 0 <= j < bs.len() && (def_block(bs, x) < 0 || j < def_block(bs, x)) ==> let_index(
            #[trigger] bs[j].stmts,
            x,
        ) < 0,
    decreases bs.len(),
{
    if bs.len() > 0 {
        let t = bs.drop_last();
        lemma_def_block(t, x);
        assert forall|j: int| 0 <= j < bs.len() && (def_block(bs, x) < 0 || j < def_block(bs, x)) implies let_index(
            #[trigger] bs[j].stmts,
            x,
        ) < 0 by {
            if j < bs.len() - 1 {
                assert(t[j] == bs[j]);
            }
        }
    }
}

/// The variables that the statements define, in order of first definition,
/// each with whether its last definition is an alias (`(let x y)`).
pub open spec fn defs_in(d: Seq<(u16, bool)>, s: Seq<StmtV>) -> Seq<(u16, bool)>
    decreases s.len(),
{
    if s.len() == 0 {
        d
    } else {
        let d1 = defs_in(d, s.drop_last());
        match s.last().kind {
            StmtKindV::Let(x, val) => def_insert(d1, x, val is Var),
            _ => d1,
        }
    }
}

/// The definitions of all blocks, in order.
pub open spec fn defs_of(bs: Seq<BlockV>) -> Seq<(u16, bool)>
    decreases bs.len(),
{
    if bs.len() == 0 {
        Seq::empty()
    } else {
        defs_in(defs_of(bs.drop_last()), bs.last().stmts)
    }
}

/// The use counts after the statements' expressions.
pub open spec fn count_in(c: Counts, s: Seq<StmtV>) -> Counts
    decreases s.len(),
{
    if s.len() == 0 {
        c
    } else {
        visit_stmt::<UseCounter>(count_in(c, s.drop_last()), s.last().kind)
    }
}

/// The use counts of all blocks.
pub open spec fn counts_of(bs: Seq<BlockV>) -> Counts
    decreases bs.len(),
{
    if bs.len() == 0 {
        Seq::empty()
    } else {
        count_in(counts_of(bs.drop_last()), bs.last().stmts)
    }
}

/// The defined variables that are used exactly once or alias another variable.
pub open spec fn pick(d: Seq<(u16, bool)>, c: Counts) -> Seq<u16>
    decreases d.len(),
{
    if d.len() == 0 {
        Seq::empty()
    } else {
        let p = pick(d.drop_last(), c);
        if count_of(c, d.last().0) == 1 || d.last().1 {
            p.push(d.last().0)
        } else {
            p
        }
    }
}

/// The variables to inline, in order of definition.
pub open spec fn to_inline(bs: Seq<BlockV>) -> Seq<u16> {
    pick(defs_of(bs), counts_of(bs))
}

/// Whether `k` is `(let x ..)`.
pub open spec fn is_let_of(k: StmtKindV, x: u16) -> bool {
    match k {
        StmtKindV::Let(y, _) => y == x,
        _ => false,
    }
}

/// The position of the first `(let x ..)` in `s`, or -1.
pub open spec fn let_index(s: Seq<StmtV>, x: u16) -> int
    decreases s.len(),
{
    if s.len() == 0 {
        -1
    } else {
        let i = let_index(s.drop_last(), x);
        if i >= 0 {
            i
        } else if is_let_of(s.last().kind, x) {
            s.len() - 1
        } else {
            -1
        }
    }
}

/// The first block that defines `x`, or -1.
pub open spec fn def_block(bs: Seq<BlockV>, x: u16) -> int
    decreases bs.len(),
{
    if bs.len() == 0 {
        -1
    } else {
        let b = def_block(bs.drop_last(), x);
        if b >= 0 {
            b
        } else if let_index(bs.last().stmts, x) >= 0 {
            bs.len() - 1
        } else {
            -1
        }
    }
}

/// Statement `s` with uses of `x` replaced by `val`; a statement that changed
/// is simplified and takes on the addresses `ip`, kept in ascending order.
/// `None` when the replacement does not come to an end.
pub open spec fn subst_stmt(x: u16, val: ExprV, ip: Seq<u32>, s: StmtV) -> Option<StmtV> {
    let st0 = SubstV { var: x, val, hit: false };
    if !walk_stmt_ends::<Subst>(st0, s.kind) {
        None
    } else {
        let (st, k) = walk_stmt_result::<Subst>(st0, s.kind);
        if st.hit {
            Some(StmtV { ip: sort_seq(s.ip + ip), kind: simp_stmt_kind(k) })
        } else {
            Some(StmtV { ip: s.ip, kind: k })
        }
    }
}

/// Whether replacing `x` comes to an end in every statement.
pub open spec fn subst_ok(x: u16, val: ExprV, ip: Seq<u32>, bs: Seq<BlockV>) -> bool {
    forall|b: int, j: int|
        0 <= b < bs.len() && 0 <= j < bs[b].stmts.len() ==> (#[trigger] subst_stmt(x, val, ip, bs[b].stmts[j])) is Some
}

/// Every statement with `x` replaced.
pub open spec fn subst_all(x: u16, val: ExprV, ip: Seq<u32>, bs: Seq<BlockV>) -> Seq<BlockV> {
    Seq::new(
        bs.len(),
        |b: int|
            BlockV {
                ip: bs[b].ip,
                stmts: Seq::new(bs[b].stmts.len(), |j: int| subst_stmt(x, val, ip, bs[b].stmts[j]).unwrap()),
            },
    )
}

/// `x` inlined: its first definition is removed and its value replaces its
/// uses everywhere. `None` when `x` has no definition or a replacement does
/// not end.
pub open spec fn inline_var(bs: Seq<BlockV>, x: u16) -> Option<Seq<BlockV>> {
    let b = def_block(bs, x);
    if b < 0 {
        None
    } else {
        let i = let_index(bs[b].stmts, x);
        let s = bs[b].stmts[i];
        let val = match s.kind {
            StmtKindV::Let(_, v) => v,
            _ => ExprV::Val(0),
        };
        let bs1 = bs.update(b, BlockV { ip: bs[b].ip, stmts: bs[b].stmts.remove(i) });
        if subst_ok(x, val, s.ip, bs1) {
            Some(subst_all(x, val, s.ip, bs1))
        } else {
            None
        }
    }
}

/// The variables of `xs` inlined in turn.
pub open spec fn inline_vars(bs: Seq<BlockV>, xs: Seq<u16>) -> Option<Seq<BlockV>>
    decreases xs.len(),
{
    if xs.len() == 0 {
        Some(bs)
    } else {
        match inline_vars(bs, xs.drop_last()) {
            Some(b1) => inline_var(b1, xs.last()),
            None => None,
        }
    }
}

/// One pass of inlining: the blocks once every variable of `to_inline` has
/// been inlined, in order.
pub open spec fn inline_once_of(bs: Seq<BlockV>) -> Option<Seq<BlockV>> {
    inline_vars(bs, to_inline(bs))
}

/// `v` inserted into the ascending `r` after the elements no larger than it.
fn insert_ip(r: &mut Vec<u32>, v: u32)
    ensures
        final(r)@ == insert_sorted(old(r)@, v),
{
    let ghost s = r@;
    let mut k = r.len();
    proof {
        assert(s.take(k as int) =~= s);
        assert(s.skip(k as int) =~= Seq::<u32>::empty());
    }
    while k > 0 && r[k - 1] > v
        invariant
            k <= r.len(),
            r@ == s,
            insert_sorted(s, v) == insert_sorted(s.take(k as int), v) + s.skip(k as int),
        decreases k,
    {
        proof {
            let t = s.take(k as int);
            assert(t.drop_last() =~= s.take(k - 1));
            assert(t.last() == s[k - 1]);
            assert(seq![s[k - 1]] + s.skip(k as int) =~= s.skip(k - 1));
            assert(insert_sorted(s.take(k - 1), v).push(s[k - 1]) + s.skip(k as int) =~= insert_sorted(
                s.take(k - 1),
                v,
            ) + s.skip(k - 1));
        }
        k -= 1;
    }
    proof {
        if k == 0 {
            assert(s.take(0) =~= Seq::<u32>::empty());
            assert(seq![v] + s.skip(0) =~= s.insert(0, v));
        } else {
            assert(s.take(k as int).last() == s[k - 1]);
            assert(s.take(k as int).push(v) + s.skip(k as int) =~= s.insert(k as int, v));
        }
    }
    r.insert(k, v);
}

/// The addresses `a` followed by `b`, in ascending order.
fn merge_ips(a: &Vec<u32>, b: &Vec<u32>) -> (res: Vec<u32>)
    ensures
        res@ == sort_seq(a@ + b@),
{
    let ghost all = a@ + b@;
    let mut r: Vec<u32> = Vec::new();
    let mut i: usize = 0;
    proof {
        assert(all.take(0) =~= Seq::<u32>::empty());
    }
    while i < a.len()
        invariant
            all == a@ + b@,
            i <= a.len(),
            r@ == sort_seq(all.take(i as int)),
        decreases a.len() - i,
    {
        proof {
            assert(all.take(i + 1).drop_last() =~= all.take(i as int));
            assert(all.take(i + 1).last() == a[i as int]);
        }
        insert_ip(&mut r, a[i]);
        i += 1;
    }
    let mut j: usize = 0;
    while j < b.len()
        invariant
            all == a@ + b@,
            j <= b.len(),
            r@ == sort_seq(all.take(a.len() + j)),
        decreases b.len() - j,
    {
        proof {
            assert(all.take(a.len() + j + 1).drop_last() =~= all.take(a.len() + j));
            assert(all.take(a.len() + j + 1).last() == b[j as int]);
        }
        insert_ip(&mut r, b[j]);
        j += 1;
    }
    proof {
        assert(all.take(a.len() + b.len()) =~= all);
    }
    r
}

/// The first definition of `x`: its block and position.
fn find_def(blocks: &Vec<Block>, x: Var) -> (res: Option<(usize, usize)>)
    ensures
        match res {
            Some((b, i)) => def_block(blocks_view(blocks@), x.0) == b && let_index(
                blocks_view(blocks@)[b as int].stmts,
                x.0,
            ) == i,
            None => def_block(blocks_view(blocks@), x.0) < 0,
        },
{
    let ghost bv = blocks_view(blocks@);
    proof {
        lemma_def_block(bv, x.0);
    }
    let mut b: usize = 0;
    while b < blocks.len()
        invariant
            b <= blocks.len(),
            bv == blocks_view(blocks@),
            forall|k: int| 0 <= k < b ==> let_index(#[trigger] bv[k].stmts, x.0) < 0,
        decreases blocks.len() - b,
    {
        let stmts = &blocks[b].stmts;
        let ghost sv = bv[b as int].stmts;
        proof {
            lemma_let_index(sv, x.0);
        }
        let mut i: usize = 0;
        while i < stmts.len()
            invariant
                i <= stmts.len(),
                sv == stmts_view(stmts@),
                b < blocks.len(),
                bv == blocks_view(blocks@),
                sv == bv[b as int].stmts,
                forall|k: int| 0 <= k < b ==> let_index(#[trigger] bv[k].stmts, x.0) < 0,
                forall|j: int| 0 <= j < i ==> !is_let_of(#[trigger] sv[j].kind, x.0),
            decreases stmts.len() - i,
        {
            let found = match &stmts[i].kind {
                StmtKind::Let(y, _) => y.0 == x.0,
                _ => false,
            };
            proof {
                assert(sv[i as int] == stmts[i as int]@);
            }
            if found {
                proof {
                    lemma_let_index(sv, x.0);
                    lemma_def_block(bv, x.0);
                    let li = let_index(sv, x.0);
                    if li < 0 || li > i {
                        assert(!is_let_of(sv[i as int].kind, x.0));
                    }
                    let db = def_block(bv, x.0);
                    if db < 0 || db > b {
                        assert(let_index(bv[b as int].stmts, x.0) < 0);
                    }
                    if 0 <= db < b {
                        assert(let_index(bv[db].stmts, x.0) < 0);
                    }
                }
                return Some((b, i));
            }
            i += 1;
        }
        proof {
            lemma_let_index(sv, x.0);
            if let_index(sv, x.0) >= 0 {
                assert(!is_let_of(sv[let_index(sv, x.0)].kind, x.0));
            }
        }
        b += 1;
    }
    proof {
        lemma_def_block(bv, x.0);
        if def_block(bv, x.0) >= 0 {
            assert(let_index(bv[def_block(bv, x.0)].stmts, x.0) < 0);
        }
    }
    None
}

/// The abstract value of a list of definitions.
pub open spec fn defs_view(d: Seq<(Var, bool)>) -> Seq<(u16, bool)> {
    d.map_values(|e: (Var, bool)| (e.0.0, e.1))
}

fn add_def(defs: &mut Vec<(Var, bool)>, x: Var, alias: bool)
    ensures
        defs_view(final(defs)@) == def_insert(defs_view(old(defs)@), x.0, alias),
{
    let ghost d = defs_view(defs@);
    proof {
        lemma_def_index(d, x.0);
    }
    let mut i: usize = 0;
    while i < defs.len()
        invariant
            i <= defs.len(),
            d == defs_view(defs@),
            d == defs_view(old(defs)@),
            forall|j: int| 0 <= j < i ==> #[trigger] d[j].0 != x.0,
        decreases defs.len() - i,
    {
        if defs[i].0.0 == x.0 {
            proof {
                lemma_def_index(d, x.0);
                let di = def_index(d, x.0);
                assert(d[i as int].0 == x.0);
                if di < 0 || di > i {
                    assert(d[i as int].0 != x.0);
                }
            }
            defs.set(i, (x, alias));
            assert(defs_view(defs@) =~= def_insert(d, x.0, alias));
            return;
        }
        i += 1;
    }
    proof {
        lemma_def_index(d, x.0);
        if def_index(d, x.0) >= 0 {
            assert(d[def_index(d, x.0)].0 != x.0);
        }
    }
    defs.push((x, alias));
    assert(defs_view(defs@) =~= def_insert(d, x.0, alias));
}

/// The definitions and use counts of all blocks.
fn collect(blocks: &Vec<Block>) -> (res: (Vec<(Var, bool)>, UseCounter))
    ensures
        defs_view(res.0@) == defs_of(blocks_view(blocks@)),
        res.1@ == counts_of(blocks_view(blocks@)),
{
    let ghost bv = blocks_view(blocks@);
    let mut defs: Vec<(Var, bool)> = Vec::new();
    let mut counter = UseCounter::new();
    let mut b: usize = 0;
    proof {
        assert(bv.take(0) =~= Seq::<BlockV>::empty());
        assert(defs_view(defs@) =~= Seq::<(u16, bool)>::empty());
    }
    while b < blocks.len()
        invariant
            b <= blocks.len(),
            bv == blocks_view(blocks@),
            defs_view(defs@) == defs_of(bv.take(b as int)),
            counter@ == counts_of(bv.take(b as int)),
        decreases blocks.len() - b,
    {
        let stmts = &blocks[b].stmts;
        let ghost sv = bv[b as int].stmts;
        let ghost d0 = defs_view(defs@);
        let ghost c0 = counter@;
        let mut i: usize = 0;
        proof {
            assert(sv.take(0) =~= Seq::<StmtV>::empty());
        }
        while i < stmts.len()
            invariant
                i <= stmts.len(),
                sv == stmts_view(stmts@),
                defs_view(defs@) == defs_in(d0, sv.take(i as int)),
                counter@ == count_in(c0, sv.take(i as int)),
            decreases stmts.len() - i,
        {
            let stmt = &stmts[i];
            proof {
                assert(sv[i as int] == stmt@);
                assert(sv.take(i + 1).drop_last() =~= sv.take(i as int));
                assert(sv.take(i + 1).last() == stmt@);
            }
            if let StmtKind::Let(var, val) = &stmt.kind {
                let alias = match val {
                    Expr::Var(_) => true,
                    _ => false,
                };
                add_def(&mut defs, *var, alias);
            }
            visit_stmt_expr(stmt, &mut counter);
            i += 1;
        }
        proof {
            assert(sv.take(sv.len() as int) =~= sv);
            assert(bv.take(b + 1).drop_last() =~= bv.take(b as int));
            assert(bv.take(b + 1).last() == bv[b as int]);
        }
        b += 1;
    }
    proof {
        assert(bv.take(bv.len() as int) =~= bv);
    }
    (defs, counter)
}

/// The variables to inline, as `pick` says.
fn pick_vars(defs: &Vec<(Var, bool)>, counter: &UseCounter) -> (res: Vec<Var>)
    ensures
        res@.map_values(|v: Var| v.0) == pick(defs_view(defs@), counter@),
{
    let ghost d = defs_view(defs@);
    let mut res: Vec<Var> = Vec::new();
    let mut i: usize = 0;
    proof {
        assert(d.take(0) =~= Seq::<(u16, bool)>::empty());
        assert(res@.map_values(|v: Var| v.0) =~= Seq::<u16>::empty());
    }
    while i < defs.len()
        invariant
            i <= defs.len(),
            d == defs_view(defs@),
            res@.map_values(|v: Var| v.0) == pick(d.take(i as int), counter@),
        decreases defs.len() - i,
    {
        let (var, alias) = defs[i];
        proof {
            assert(d.take(i + 1).drop_last() =~= d.take(i as int));
            assert(d.take(i + 1).last() == (var.0, alias));
        }
        if counter.count(var.0) == 1 || alias {
            let ghost before = res@;
            res.push(var);
            assert(res@.map_values(|v: Var| v.0) =~= before.map_values(|v: Var| v.0).push(var.0));
        }
        i += 1;
    }
    proof {
        assert(d.take(d.len() as int) =~= d);
    }
    res
}

/// Replaces the uses of `x` in `stmt` with `val`, as `subst_stmt` says.
fn subst_in_stmt(stmt: &mut Stmt, x: Var, val: &Expr, ip: &Vec<u32>)
    requires
        subst_stmt(x.0, val@, ip@, old(stmt)@) is Some,
    ensures
        final(stmt)@ == subst_stmt(x.0, val@, ip@, old(stmt)@).unwrap(),
{
    let mut sub = Subst { var: x, val, hit: false };
    visit_stmt_expr_mut(stmt, &mut sub);
    if sub.hit {
        simp_stmt(stmt);
        let merged = merge_ips(&stmt.ip, ip);
        stmt.ip = merged;
    }
}

/// Replaces the uses of `x` in every statement of `block` with `val`.
fn subst_in_block(block: &mut Block, x: Var, val: &Expr, ip: &Vec<u32>)
    requires
        forall|j: int|
            0 <= j < old(block)@.stmts.len() ==> (#[trigger] subst_stmt(x.0, val@, ip@, old(block)@.stmts[j])) is Some,
    ensures
        final(block)@.ip == old(block)@.ip,
        final(block)@.stmts == Seq::new(
            old(block)@.stmts.len(),
            |j: int| subst_stmt(x.0, val@, ip@, old(block)@.stmts[j]).unwrap(),
        ),
{
    let ghost s0 = block@.stmts;
    let mut j: usize = 0;
    while j < block.stmts.len()
        invariant
            j <= block.stmts.len(),
            block.stmts.len() == s0.len(),
            block.ip == old(block).ip,
            s0 == old(block)@.stmts,
            forall|k: int| 0 <= k < s0.len() ==> (#[trigger] subst_stmt(x.0, val@, ip@, s0[k])) is Some,
            forall|k: int| 0 <= k < j ==> #[trigger] block.stmts@[k]@ == subst_stmt(x.0, val@, ip@, s0[k]).unwrap(),
            forall|k: int| j <= k < s0.len() ==> #[trigger] block.stmts@[k]@ == s0[k],
        decreases block.stmts.len() - j,
    {
        assert(block.stmts@[j as int]@ == s0[j as int]);
        subst_in_stmt(&mut block.stmts[j], x, val, ip);
        j += 1;
    }
    assert(block@.stmts =~= Seq::new(s0.len(), |k: int| subst_stmt(x.0, val@, ip@, s0[k]).unwrap()));
}

/// Inlines `x`, as `inline_var` says.
fn inline_one(blocks: &mut Vec<Block>, x: Var)
    requires
        inline_var(blocks_view(old(blocks)@), x.0) is Some,
    ensures
        blocks_view(final(blocks)@) == inline_var(blocks_view(old(blocks)@), x.0).unwrap(),
{
    let ghost bs = blocks_view(blocks@);
    let (b, i) = match find_def(blocks, x) {
        Some(p) => p,
        None => {
            return;
        },
    };
    proof {
        lemma_def_block(bs, x.0);
        lemma_let_index(bs[b as int].stmts, x.0);
        assert(blocks@[b as int]@ == bs[b as int]);
    }
    let ghost before = blocks@;
    let removed = blocks[b].stmts.remove(i);
    proof {
        assert(stmts_view(blocks@[b as int].stmts@) =~= stmts_view(before[b as int].stmts@).remove(i as int));
        assert forall|m: int| 0 <= m < bs.len() && m != b implies #[trigger] blocks@[m] == before[m] by {}
    }
    let (ip, val) = match removed {
        Stmt { ip, kind: StmtKind::Let(_, val) } => (ip, val),
        _ => {
            proof {
                assert(is_let_of(bs[b as int].stmts[i as int].kind, x.0));
            }
            return;
        },
    };
    let ghost bs1 = blocks_view(blocks@);
    proof {
        let s = bs[b as int].stmts[i as int];
        assert(s.ip == ip@);
        assert(s.kind == StmtKindV::Let(x.0, val@));
        assert(bs1 =~= bs.update(
            b as int,
            BlockV { ip: bs[b as int].ip, stmts: bs[b as int].stmts.remove(i as int) },
        ));
    }
    let ghost target = subst_all(x.0, val@, ip@, bs1);
    let mut k: usize = 0;
    while k < blocks.len()
        invariant
            k <= blocks.len(),
            blocks.len() == bs1.len(),
            target == subst_all(x.0, val@, ip@, bs1),
            subst_ok(x.0, val@, ip@, bs1),
            forall|m: int| 0 <= m < k ==> #[trigger] blocks@[m]@ == target[m],
            forall|m: int| k <= m < bs1.len() ==> #[trigger] blocks@[m]@ == bs1[m],
        decreases blocks.len() - k,
    {
        assert(blocks@[k as int]@ == bs1[k as int]);
        assert forall|j: int| 0 <= j < bs1[k as int].stmts.len() implies (#[trigger] subst_stmt(
            x.0,
            val@,
            ip@,
            bs1[k as int].stmts[j],
        )) is Some by {
            assert(subst_stmt(x.0, val@, ip@, bs1[k as int].stmts[j]) is Some);
        }
        subst_in_block(&mut blocks[k], x, &val, &ip);
        assert(blocks@[k as int]@ == target[k as int]);
        k += 1;
    }
    assert(blocks_view(blocks@) =~= target);
}

/// Inlining a list of variables that comes to an end also ends on each of
/// its prefixes.
proof fn lemma_inline_vars_prefix(bs: Seq<BlockV>, xs: Seq<u16>, i: int)
    requires
        inline_vars(bs, xs) is Some,
        0 <= i <= xs.len(),
    ensures
        inline_vars(bs, xs.take(i)) is Some,
    decreases xs.len(),
{
    if i < xs.len() {
        lemma_inline_vars_prefix(bs, xs.drop_last(), i);
        assert(xs.drop_last().take(i) =~= xs.take(i));
    } else {
        assert(xs.take(i) =~= xs);
    }
}

/// One pass of inlining: every variable that is defined and then used exactly
/// once, or defined as an alias of another variable, has its definition
/// removed and its value put in place of its uses, in order of definition.
/// A statement that changes is simplified and takes on the addresses of the
/// removed definition. True when some variable was inlined.
pub fn inline_once(blocks: &mut Vec<Block>) -> (res: bool)
    requires
        inline_once_of(blocks_view(old(blocks)@)) is Some,
    ensures
        res == (to_inline(blocks_view(old(blocks)@)).len() > 0),
        blocks_view(final(blocks)@) == inline_once_of(blocks_view(old(blocks)@)).unwrap(),
{
    let ghost bv = blocks_view(blocks@);
    let (defs, counter) = collect(blocks);
    let vars = pick_vars(&defs, &counter);
    let ghost xs = to_inline(bv);
    proof {
        assert(vars@.map_values(|v: Var| v.0) == xs);
        assert(xs.take(0) =~= Seq::<u16>::empty());
    }
    let mut i: usize = 0;
    while i < vars.len()
        invariant
            i <= vars.len(),
            xs == vars@.map_values(|v: Var| v.0),
            inline_vars(bv, xs) is Some,
            inline_vars(bv, xs.take(i as int)) == Some(blocks_view(blocks@)),
        decreases vars.len() - i,
    {
        proof {
            lemma_inline_vars_prefix(bv, xs, i + 1);
            assert(xs.take(i + 1).drop_last() =~= xs.take(i as int));
            assert(xs.take(i + 1).last() == vars@[i as int].0);
        }
        inline_one(blocks, vars[i]);
        i += 1;
    }
    proof {
        assert(xs.take(xs.len() as int) =~= xs);
    }
    vars.len() > 0
}

/// Passes of inlining, repeated until one inlines nothing; `None` when a pass
/// does not end or `fuel` passes do not reach that point.
pub open spec fn inline_fix(bs: Seq<BlockV>, fuel: nat) -> Option<Seq<BlockV>>
    decreases fuel,
{
    if fuel == 0 {
        None
    } else {
        match inline_once_of(bs) {
            None => None,
            Some(b1) => if to_inline(bs).len() > 0 {
                inline_fix(b1, (fuel - 1) as nat)
            } else {
                Some(b1)
            },
        }
    }
}

/// Whether repeated inlining comes to an end.
pub open spec fn inline_ends(bs: Seq<BlockV>) -> bool {
    exists|fuel: nat| (#[trigger] inline_fix(bs, fuel)) is Some
}

/// The blocks once repeated inlining has ended.
pub open spec fn inline_result(bs: Seq<BlockV>) -> Seq<BlockV> {
    inline_fix(bs, choose|fuel: nat| (#[trigger] inline_fix(bs, fuel)) is Some).unwrap()
}

/// More fuel gives the same result.
proof fn lemma_inline_fix_fuel(bs: Seq<BlockV>, f: nat, g: nat)
    requires
        inline_fix(bs, f) is Some,
        f <= g,
    ensures
        inline_fix(bs, g) == inline_fix(bs, f),
    decreases f,
{
    if to_inline(bs).len() > 0 {
        lemma_inline_fix_fuel(inline_once_of(bs).unwrap(), (f - 1) as nat, (g - 1) as nat);
    }
}

/// Inlining reaches a point where no variable is left to inline.
pub proof fn law_inline_fix_done(bs: Seq<BlockV>, fuel: nat)
    requires
        inline_fix(bs, fuel) is Some,
    ensures
        to_inline(inline_fix(bs, fuel).unwrap()).len() == 0,
    decreases fuel,
{
    if to_inline(bs).len() > 0 {
        law_inline_fix_done(inline_once_of(bs).unwrap(), (fuel - 1) as nat);
    } else {
        assert(inline_once_of(bs) == Some(bs));
    }
}

/// Repeats `inline_once` until a pass inlines nothing.
pub fn inline(blocks: &mut Vec<Block>)
    requires
        inline_ends(blocks_view(old(blocks)@)),
    ensures
        blocks_view(final(blocks)@) == inline_result(blocks_view(old(blocks)@)),
        to_inline(blocks_view(final(blocks)@)).len() == 0,
{
    let ghost bv0 = blocks_view(blocks@);
    let ghost fuel0 = choose|fuel: nat| (#[trigger] inline_fix(bv0, fuel)) is Some;
    let ghost result = inline_result(bv0);
    let ghost mut f = fuel0;
    proof {
        law_inline_fix_done(bv0, fuel0);
    }
    loop
        invariant_except_break
            inline_fix(blocks_view(blocks@), f) == Some(result),
        invariant
            to_inline(result).len() == 0,
        ensures
            blocks_view(blocks@) == result,
        decreases f,
    {
        if !inline_once(blocks) {
            break;
        }
        proof {
            f = (f - 1) as nat;
        }
    }
}

/// The number of statements of all blocks.
pub open spec fn stmt_count(bs: Seq<BlockV>) -> int
    decreases bs.len(),
{
    if bs.len() == 0 {
        0
    } else {
        stmt_count(bs.drop_last()) + bs.last().stmts.len()
    }
}

proof fn lemma_stmt_count_same(a: Seq<BlockV>, b: Seq<BlockV>)
    requires
        a.len() == b.len(),
        forall|k: int| 0 <= k < a.len() ==> (#[trigger] a[k]).stmts.len() == b[k].stmts.len(),
    ensures
        stmt_count(a) == stmt_count(b),
    decreases a.len(),
{
    if a.len() > 0 {
        lemma_stmt_count_same(a.drop_last(), b.drop_last());
    }
}

proof fn lemma_stmt_count_update(bs: Seq<BlockV>, k: int, nb: BlockV)
    requires
        0 <= k < bs.len(),
    ensures
        stmt_count(bs.update(k, nb)) == stmt_count(bs) - bs[k].stmts.len() + nb.stmts.len(),
    decreases bs.len(),
{
    let u = bs.update(k, nb);
    if k < bs.len() - 1 {
        lemma_stmt_count_update(bs.drop_last(), k, nb);
        assert(u.drop_last() =~= bs.drop_last().update(k, nb));
    } else {
        assert(u.drop_last() =~= bs.drop_last());
    }
}

/// Inlining a variable removes one statement and keeps the blocks and their
/// addresses.
pub proof fn law_inline_var_shape(bs: Seq<BlockV>, x: u16)
    requires
        inline_var(bs, x) is Some,
    ensures
        inline_var(bs, x).unwrap().len() == bs.len(),
        forall|k: int| 0 <= k < bs.len() ==> (#[trigger] inline_var(bs, x).unwrap()[k]).ip == bs[k].ip,
        stmt_count(inline_var(bs, x).unwrap()) == stmt_count(bs) - 1,
{
    lemma_def_block(bs, x);
    let b = def_block(bs, x);
    lemma_let_index(bs[b].stmts, x);
    let i = let_index(bs[b].stmts, x);
    let s = bs[b].stmts[i];
    let val = match s.kind {
        StmtKindV::Let(_, v) => v,
        _ => ExprV::Val(0),
    };
    let nb = BlockV { ip: bs[b].ip, stmts: bs[b].stmts.remove(i) };
    let bs1 = bs.update(b, nb);
    lemma_stmt_count_update(bs, b, nb);
    let r = subst_all(x, val, s.ip, bs1);
    lemma_stmt_count_same(r, bs1);
}

/// A pass of inlining removes one statement per variable it inlines and keeps
/// the blocks and their addresses.
pub proof fn law_inline_once_shape(bs: Seq<BlockV>)
    requires
        inline_once_of(bs) is Some,
    ensures
        inline_once_of(bs).unwrap().len() == bs.len(),
        forall|k: int| 0 <= k < bs.len() ==> (#[trigger] inline_once_of(bs).unwrap()[k]).ip == bs[k].ip,
        stmt_count(inline_once_of(bs).unwrap()) == stmt_count(bs) - to_inline(bs).len(),
{
    lemma_inline_vars_shape(bs, to_inline(bs));
}

proof fn lemma_inline_vars_shape(bs: Seq<BlockV>, xs: Seq<u16>)
    requires
        inline_vars(bs, xs) is Some,
    ensures
        inline_vars(bs, xs).unwrap().len() == bs.len(),
        forall|k: int| 0 <= k < bs.len() ==> (#[trigger] inline_vars(bs, xs).unwrap()[k]).ip == bs[k].ip,
        stmt_count(inline_vars(bs, xs).unwrap()) == stmt_count(bs) - xs.len(),
    decreases xs.len(),
{
    if xs.len() > 0 {
        lemma_inline_vars_shape(bs, xs.drop_last());
        let b1 = inline_vars(bs, xs.drop_last()).unwrap();
        law_inline_var_shape(b1, xs.last());
        assert forall|k: int| 0 <= k < bs.len() implies (#[trigger] inline_vars(bs, xs).unwrap()[k]).ip == bs[k].ip by {
            assert(inline_vars(bs, xs).unwrap()[k].ip == b1[k].ip);
        }
    }
}

/// Whether `e` mentions variable `x`.
pub open spec fn mentions(e: ExprV, x: u16) -> bool
    decreases e,
{
    match e {
        ExprV::Var(y) => y == x,
        ExprV::Call(c) => mentions_any(c.args, x),
        _ => false,
    }
}

/// Whether one of `es` mentions variable `x`.
pub open spec fn mentions_any(es: Seq<ExprV>, x: u16) -> bool
    decreases es,
{
    if es.len() == 0 {
        false
    } else {
        mentions_any(es.drop_last(), x) || mentions(es.last(), x)
    }
}

/// Whether an expression of the statement kind mentions variable `x`.
pub open spec fn stmt_mentions(k: StmtKindV, x: u16) -> bool {
    match k {
        StmtKindV::Do(e) => mentions(e, x),
        StmtKindV::Assign(d, e) => mentions(d, x) || mentions(e, x),
        StmtKindV::Let(_, e) => mentions(e, x),
        StmtKindV::Jmp(c, d) => mentions_any(c.args, x) || mentions(d, x),
        StmtKindV::Raw(_) => false,
    }
}

/// How deeply calls nest in `e`.
pub open spec fn depth(e: ExprV) -> nat
    decreases e,
{
    match e {
        ExprV::Call(c) => 1 + depth_list(c.args),
        _ => 0,
    }
}

/// The greatest depth among `es`.
pub open spec fn depth_list(es: Seq<ExprV>) -> nat
    decreases es,
{
    if es.len() == 0 {
        0
    } else {
        let a = depth_list(es.drop_last());
        let b = depth(es.last());
        if a >= b {
            a
        } else {
            b
        }
    }
}

proof fn lemma_list_parts(es: Seq<ExprV>, x: u16)
    ensures
        forall|i: int| 0 <= i < es.len() ==> depth(#[trigger] es[i]) <= depth_list(es),
        !mentions_any(es, x) ==> forall|i: int| 0 <= i < es.len() ==> !mentions(#[trigger] es[i], x),
    decreases es.len(),
{
    if es.len() > 0 {
        lemma_list_parts(es.drop_last(), x);
        assert forall|i: int| 0 <= i < es.len() - 1 implies #[trigger] es[i] == es.drop_last()[i] by {}
    }
}

/// Replacing in an expression that does not mention the variable changes
/// nothing and ends, given fuel beyond its depth.
proof fn lemma_walk_plain(st: SubstV, e: ExprV, fuel: nat)
    requires
        !mentions(e, st.var),
        fuel > depth(e),
    ensures
        walk::<Subst>(st, e, fuel) is Some,
        walk::<Subst>(st, e, fuel).unwrap().0 == st,
    decreases fuel, 0nat,
{
    if let ExprV::Call(c) = e {
        lemma_list_parts(c.args, st.var);
        lemma_walk_list_plain(st, c.args, (fuel - 1) as nat);
    }
}

proof fn lemma_walk_list_plain(st: SubstV, es: Seq<ExprV>, fuel: nat)
    requires
        forall|i: int| 0 <= i < es.len() ==> !mentions(#[trigger] es[i], st.var) && fuel > depth(es[i]),
    ensures
        walk_list::<Subst>(st, es, fuel) is Some,
        walk_list::<Subst>(st, es, fuel).unwrap().0 == st,
    decreases fuel, es.len() + 1,
{
    if es.len() > 0 {
        let d = es.drop_last();
        assert forall|i: int| 0 <= i < d.len() implies !mentions(#[trigger] d[i], st.var) && fuel > depth(d[i]) by {
            assert(d[i] == es[i]);
        }
        lemma_walk_list_plain(st, d, fuel);
        assert(es.last() == es[es.len() - 1]);
        lemma_walk_plain(st, es.last(), fuel);
    }
}

/// Replacing with a value that does not mention the variable ends, given
/// fuel beyond the depths of the expression and the value together.
proof fn lemma_walk_clean(st: SubstV, e: ExprV, fuel: nat)
    requires
        !mentions(st.val, st.var),
        fuel > depth(e) + depth(st.val),
    ensures
        walk::<Subst>(st, e, fuel) is Some,
        walk::<Subst>(st, e, fuel).unwrap().0.var == st.var,
        walk::<Subst>(st, e, fuel).unwrap().0.val == st.val,
    decreases fuel, 0nat,
{
    let st1 = <Subst as ExprVisitorMut>::after(st, e);
    if e == ExprV::Var(st.var) {
        if let ExprV::Call(c) = st.val {
            lemma_list_parts(c.args, st.var);
            lemma_walk_list_plain(st1, c.args, (fuel - 1) as nat);
        }
    } else if let ExprV::Call(c) = e {
        lemma_list_parts(c.args, st.var);
        lemma_walk_list_clean(st1, c.args, (fuel - 1) as nat);
    }
}

proof fn lemma_walk_list_clean(st: SubstV, es: Seq<ExprV>, fuel: nat)
    requires
        !mentions(st.val, st.var),
        forall|i: int| 0 <= i < es.len() ==> fuel > depth(#[trigger] es[i]) + depth(st.val),
    ensures
        walk_list::<Subst>(st, es, fuel) is Some,
        walk_list::<Subst>(st, es, fuel).unwrap().0.var == st.var,
        walk_list::<Subst>(st, es, fuel).unwrap().0.val == st.val,
    decreases fuel, es.len() + 1,
{
    if es.len() > 0 {
        let d = es.drop_last();
        assert forall|i: int| 0 <= i < d.len() implies fuel > depth(#[trigger] d[i]) + depth(st.val) by {
            assert(d[i] == es[i]);
        }
        lemma_walk_list_clean(st, d, fuel);
        let st1 = walk_list::<Subst>(st, d, fuel).unwrap().0;
        assert(es.last() == es[es.len() - 1]);
        lemma_walk_clean(st1, es.last(), fuel);
    }
}

/// Replacing `x` with `val` in a statement comes to an end when `val` does
/// not mention `x`, or when the statement does not.
pub proof fn law_subst_ends(x: u16, val: ExprV, ip: Seq<u32>, s: StmtV)
    requires
        !mentions(val, x) || !stmt_mentions(s.kind, x),
    ensures
        subst_stmt(x, val, ip, s) is Some,
{
    let st0 = SubstV { var: x, val, hit: false };
    let dv = depth(val);
    match s.kind {
        StmtKindV::Do(e) => {
            let fuel = depth(e) + dv + 1;
            if !mentions(val, x) {
                lemma_walk_clean(st0, e, fuel);
            } else {
                lemma_walk_plain(st0, e, fuel);
            }
            assert(walk_stmt::<Subst>(st0, s.kind, fuel) is Some);
        },
        StmtKindV::Let(_, e) => {
            let fuel = depth(e) + dv + 1;
            if !mentions(val, x) {
                lemma_walk_clean(st0, e, fuel);
            } else {
                lemma_walk_plain(st0, e, fuel);
            }
            assert(walk_stmt::<Subst>(st0, s.kind, fuel) is Some);
        },
        StmtKindV::Assign(d, e) => {
            let fuel = depth(d) + depth(e) + dv + 1;
            if !mentions(val, x) {
                lemma_walk_clean(st0, d, fuel);
                let st1 = walk::<Subst>(st0, d, fuel).unwrap().0;
                lemma_walk_clean(st1, e, fuel);
            } else {
                lemma_walk_plain(st0, d, fuel);
                lemma_walk_plain(st0, e, fuel);
            }
            assert(walk_stmt::<Subst>(st0, s.kind, fuel) is Some);
        },
        StmtKindV::Jmp(c, d) => {
            let fuel = depth_list(c.args) + depth(d) + dv + 1;
            lemma_list_parts(c.args, x);
            if !mentions(val, x) {
                lemma_walk_list_clean(st0, c.args, fuel);
                let st1 = walk_list::<Subst>(st0, c.args, fuel).unwrap().0;
                lemma_walk_clean(st1, d, fuel);
            } else {
                lemma_walk_list_plain(st0, c.args, fuel);
                lemma_walk_plain(st0, d, fuel);
            }
            assert(walk_stmt::<Subst>(st0, s.kind, fuel) is Some);
        },
        StmtKindV::Raw(_) => {
            assert(walk_stmt::<Subst>(st0, s.kind, 0) is Some);
        },
    }
}

/// The value of the first definition of `x`.
pub open spec fn def_value(bs: Seq<BlockV>, x: u16) -> ExprV {
    let b = def_block(bs, x);
    let i = let_index(bs[b].stmts, x);
    match bs[b].stmts[i].kind {
        StmtKindV::Let(_, v) => v,
        _ => ExprV::Val(0),
    }
}

/// A variable that has a definition whose value does not mention it can be
/// inlined.
pub proof fn law_inline_var_ends(bs: Seq<BlockV>, x: u16)
    requires
        def_block(bs, x) >= 0,
        !mentions(def_value(bs, x), x),
    ensures
        inline_var(bs, x) is Some,
{
    lemma_def_block(bs, x);
    let b = def_block(bs, x);
    lemma_let_index(bs[b].stmts, x);
    let i = let_index(bs[b].stmts, x);
    let st = bs[b].stmts[i];
    let bs1 = bs.update(b, BlockV { ip: bs[b].ip, stmts: bs[b].stmts.remove(i) });
    assert forall|c: int, j: int| 0 <= c < bs1.len() && 0 <= j < bs1[c].stmts.len() implies (#[trigger] subst_stmt(
        x,
        def_value(bs, x),
        st.ip,
        bs1[c].stmts[j],
    )) is Some by {
        law_subst_ends(x, def_value(bs, x), st.ip, bs1[c].stmts[j]);
    }
}

proof fn lemma_stmt_count_nonneg(bs: Seq<BlockV>)
    ensures
        stmt_count(bs) >= 0,
    decreases bs.len(),
{
    if bs.len() > 0 {
        lemma_stmt_count_nonneg(bs.drop_last());
    }
}

/// Once repeated inlining has ended, a further pass inlines nothing and
/// changes nothing.
pub proof fn law_inline_idempotent(bs: Seq<BlockV>)
    requires
        inline_ends(bs),
    ensures
        to_inline(inline_result(bs)).len() == 0,
        inline_once_of(inline_result(bs)) == Some(inline_result(bs)),
{
    let fuel = choose|fuel: nat| (#[trigger] inline_fix(bs, fuel)) is Some;
    law_inline_fix_done(bs, fuel);
    let r = inline_result(bs);
    assert(inline_vars(r, to_inline(r)) == Some(r));
}

/// Repeated inlining that ends takes at most one pass more than there are
/// statements: each pass that inlines something removes a statement.
pub proof fn law_inline_passes_bounded(bs: Seq<BlockV>, fuel: nat)
    requires
        inline_fix(bs, fuel) is Some,
    ensures
        inline_fix(bs, (stmt_count(bs) + 1) as nat) == inline_fix(bs, fuel),
    decreases fuel,
{
    lemma_stmt_count_nonneg(bs);
    if to_inline(bs).len() > 0 {
        let b1 = inline_once_of(bs).unwrap();
        law_inline_once_shape(bs);
        law_inline_passes_bounded(b1, (fuel - 1) as nat);
        lemma_stmt_count_nonneg(b1);
        lemma_inline_fix_fuel(b1, (stmt_count(b1) + 1) as nat, stmt_count(bs) as nat);
    }
}

/// How many times `e` uses variable `x`.
pub open spec fn uses_in(e: ExprV, x: u16) -> nat
    decreases e,
{
    match e {
        ExprV::Var(y) => if y == x {
            1
        } else {
            0
        },
        ExprV::Call(c) => uses_in_list(c.args, x),
        _ => 0,
    }
}

/// How many times the expressions of `es` use variable `x`.
pub open spec fn uses_in_list(es: Seq<ExprV>, x: u16) -> nat
    decreases es,
{
    if es.len() == 0 {
        0
    } else {
        uses_in_list(es.drop_last(), x) + uses_in(es.last(), x)
    }
}

/// How many times the expressions of a statement kind use variable `x`; the
/// variable that a definition defines is no use.
pub open spec fn uses_in_kind(k: StmtKindV, x: u16) -> nat {
    match k {
        StmtKindV::Do(e) => uses_in(e, x),
        StmtKindV::Assign(d, e) => uses_in(d, x) + uses_in(e, x),
        StmtKindV::Let(_, e) => uses_in(e, x),
        StmtKindV::Jmp(c, d) => uses_in_list(c.args, x) + uses_in(d, x),
        StmtKindV::Raw(_) => 0,
    }
}

/// How many times the statements use variable `x`.
pub open spec fn uses_in_stmts(s: Seq<StmtV>, x: u16) -> nat
    decreases s.len(),
{
    if s.len() == 0 {
        0
    } else {
        uses_in_stmts(s.drop_last(), x) + uses_in_kind(s.last().kind, x)
    }
}

/// How many times the blocks use variable `x`.
pub open spec fn uses_in_blocks(bs: Seq<BlockV>, x: u16) -> nat
    decreases bs.len(),
{
    if bs.len() == 0 {
        0
    } else {
        uses_in_blocks(bs.drop_last(), x) + uses_in_stmts(bs.last().stmts, x)
    }
}

/// `n`, capped at 2.
pub open spec fn cap2(n: int) -> int {
    if n >= 2 {
        2
    } else {
        n
    }
}

proof fn lemma_count_push(c: Counts, e: (u16, u8), x: u16)
    ensures
        count_of(c.push(e), x) == if e.0 == x {
            e.1
        } else {
            count_of(c, x)
        },
{
    assert(c.push(e).drop_last() =~= c);
}

proof fn lemma_count_tree(c: Counts, e: ExprV, x: u16)
    requires
        count_of(c, x) <= 2,
    ensures
        count_of(visit_tree::<UseCounter>(c, e), x) == cap2(count_of(c, x) + uses_in(e, x)),
    decreases e,
{
    match e {
        ExprV::Var(y) => {
            let n = count_of(c, y);
            lemma_count_push(c, (y, if n >= 2 { 2u8 } else { (n + 1) as u8 }), x);
        },
        ExprV::Call(cv) => {
            lemma_count_forest(c, cv.args, x);
        },
        _ => {},
    }
}

proof fn lemma_count_forest(c: Counts, es: Seq<ExprV>, x: u16)
    requires
        count_of(c, x) <= 2,
    ensures
        count_of(visit_forest::<UseCounter>(c, es), x) == cap2(count_of(c, x) + uses_in_list(es, x)),
    decreases es,
{
    if es.len() > 0 {
        lemma_count_forest(c, es.drop_last(), x);
        lemma_count_tree(visit_forest::<UseCounter>(c, es.drop_last()), es.last(), x);
    }
}

proof fn lemma_count_stmt(c: Counts, k: StmtKindV, x: u16)
    requires
        count_of(c, x) <= 2,
    ensures
        count_of(visit_stmt::<UseCounter>(c, k), x) == cap2(count_of(c, x) + uses_in_kind(k, x)),
{
    match k {
        StmtKindV::Do(e) => lemma_count_tree(c, e, x),
        StmtKindV::Assign(d, e) => {
            lemma_count_tree(c, d, x);
            lemma_count_tree(visit_tree::<UseCounter>(c, d), e, x);
        },
        StmtKindV::Let(_, e) => lemma_count_tree(c, e, x),
        StmtKindV::Jmp(cv, d) => {
            lemma_count_forest(c, cv.args, x);
            lemma_count_tree(visit_forest::<UseCounter>(c, cv.args), d, x);
        },
        StmtKindV::Raw(_) => {},
    }
}

proof fn lemma_count_in(c: Counts, s: Seq<StmtV>, x: u16)
    requires
        count_of(c, x) <= 2,
    ensures
        count_of(count_in(c, s), x) == cap2(count_of(c, x) + uses_in_stmts(s, x)),
    decreases s.len(),
{
    if s.len() > 0 {
        lemma_count_in(c, s.drop_last(), x);
        lemma_count_stmt(count_in(c, s.drop_last()), s.last().kind, x);
    }
}

proof fn lemma_counts_of(bs: Seq<BlockV>, x: u16)
    ensures
        count_of(counts_of(bs), x) == cap2(uses_in_blocks(bs, x) as int),
    decreases bs.len(),
{
    if bs.len() > 0 {
        lemma_counts_of(bs.drop_last(), x);
        lemma_count_in(counts_of(bs.drop_last()), bs.last().stmts, x);
    }
}

/// The value of the last definition of `x` among the statements.
pub open spec fn last_def_in(s: Seq<StmtV>, x: u16) -> Option<ExprV>
    decreases s.len(),
{
    if s.len() == 0 {
        None
    } else {
        match s.last().kind {
            StmtKindV::Let(y, v) => if y == x {
                Some(v)
            } else {
                last_def_in(s.drop_last(), x)
            },
            _ => last_def_in(s.drop_last(), x),
        }
    }
}

/// The value of the last definition of `x` in the blocks.
pub open spec fn last_def(bs: Seq<BlockV>, x: u16) -> Option<ExprV>
    decreases bs.len(),
{
    if bs.len() == 0 {
        None
    } else {
        match last_def_in(bs.last().stmts, x) {
            Some(v) => Some(v),
            None => last_def(bs.drop_last(), x),
        }
    }
}

/// No variable has two entries.
pub open spec fn keys_unique(d: Seq<(u16, bool)>) -> bool {
    forall|i: int, j: int| 0 <= i < d.len() && 0 <= j < d.len() && i != j ==> #[trigger] d[i].0 != #[trigger] d[j].0
}

/// The entry for `x`, if there is one.
pub open spec fn def_entry(d: Seq<(u16, bool)>, x: u16) -> Option<bool> {
    let i = def_index(d, x);
    if i >= 0 {
        Some(d[i].1)
    } else {
        None
    }
}

proof fn lemma_def_insert_entry(d: Seq<(u16, bool)>, y: u16, a: bool, x: u16)
    requires
        keys_unique(d),
    ensures
        keys_unique(def_insert(d, y, a)),
        def_entry(def_insert(d, y, a), x) == if x == y {
            Some(a)
        } else {
            def_entry(d, x)
        },
{
    lemma_def_index(d, y);
    lemma_def_index(d, x);
    let r = def_insert(d, y, a);
    lemma_def_index(r, x);
    let i = def_index(d, y);
    let pos = if i >= 0 { i } else { d.len() as int };
    assert(r[pos] == (y, a));
    assert(r[pos].0 == y);
    assert forall|j: int| 0 <= j < r.len() && j != pos implies j < d.len() && #[trigger] r[j] == d[j] by {}
    assert forall|j: int, l: int| 0 <= j < r.len() && 0 <= l < r.len() && j != l implies #[trigger] r[j].0 != #[trigger] r[l].0 by {
        if j != pos && l != pos {
            assert(r[j] == d[j] && r[l] == d[l]);
        } else if j == pos {
            assert(r[l] == d[l]);
            if i < 0 {
                assert(d[l].0 != y);
            }
        } else {
            assert(r[j] == d[j]);
            if i < 0 {
                assert(d[j].0 != y);
            }
        }
    }
    let kr = def_index(r, x);
    if x == y {
        if kr != pos {
            assert(kr < pos);
            assert(r[kr] == d[kr]);
        }
    } else {
        let ks = def_index(d, x);
        if ks >= 0 {
            assert(ks != pos);
            assert(r[ks] == d[ks]);
            assert(r[ks].0 == x);
            if kr != ks {
                assert(0 <= kr < ks);
                assert(r[kr] == d[kr]);
            }
        } else if kr >= 0 {
            assert(kr != pos);
            assert(r[kr] == d[kr]);
        }
    }
}

proof fn lemma_defs_in_entry(d: Seq<(u16, bool)>, s: Seq<StmtV>, x: u16)
    requires
        keys_unique(d),
    ensures
        keys_unique(defs_in(d, s)),
        def_entry(defs_in(d, s), x) == match last_def_in(s, x) {
            Some(v) => Some(v is Var),
            None => def_entry(d, x),
        },
    decreases s.len(),
{
    if s.len() > 0 {
        lemma_defs_in_entry(d, s.drop_last(), x);
        let d1 = defs_in(d, s.drop_last());
        if let StmtKindV::Let(y, v) = s.last().kind {
            lemma_def_insert_entry(d1, y, v is Var, x);
        }
    }
}

proof fn lemma_defs_of_entry(bs: Seq<BlockV>, x: u16)
    ensures
        keys_unique(defs_of(bs)),
        def_entry(defs_of(bs), x) == match last_def(bs, x) {
            Some(v) => Some(v is Var),
            None => None::<bool>,
        },
    decreases bs.len(),
{
    if bs.len() > 0 {
        lemma_defs_of_entry(bs.drop_last(), x);
        lemma_defs_in_entry(defs_of(bs.drop_last()), bs.last().stmts, x);
    } else {
        lemma_def_index(defs_of(bs), x);
    }
}

proof fn lemma_pick_contains(d: Seq<(u16, bool)>, c: Counts, x: u16)
    ensures
        pick(d, c).contains(x) <==> exists|i: int|
            0 <= i < d.len() && (#[trigger] d[i]).0 == x && (count_of(c, x) == 1 || d[i].1),
    decreases d.len(),
{
    if d.len() > 0 {
        let t = d.drop_last();
        lemma_pick_contains(t, c, x);
        let p = pick(t, c);
        if exists|i: int| 0 <= i < t.len() && (#[trigger] t[i]).0 == x && (count_of(c, x) == 1 || t[i].1) {
            let i = choose|i: int| 0 <= i < t.len() && (#[trigger] t[i]).0 == x && (count_of(c, x) == 1 || t[i].1);
            assert(d[i] == t[i]);
        }
        if exists|i: int| 0 <= i < d.len() && (#[trigger] d[i]).0 == x && (count_of(c, x) == 1 || d[i].1) {
            let i = choose|i: int| 0 <= i < d.len() && (#[trigger] d[i]).0 == x && (count_of(c, x) == 1 || d[i].1);
            if i < t.len() {
                assert(t[i] == d[i]);
            }
        }
        if count_of(c, d.last().0) == 1 || d.last().1 {
            let q = p.push(d.last().0);
            if q.contains(x) {
                let k = choose|k: int| 0 <= k < q.len() && q[k] == x;
                if k < p.len() {
                    assert(p[k] == x);
                }
            }
            if p.contains(x) {
                let k = choose|k: int| 0 <= k < p.len() && p[k] == x;
                assert(q[k] == x);
            }
            if d.last().0 == x {
                assert(q[p.len() as int] == x);
                assert(d[d.len() - 1].0 == x);
            }
        }
    }
}

/// The variables that a pass inlines are exactly those that have a
/// definition and are used exactly once, or whose last definition gives
/// another variable as it is: a variable without any use whose definition is
/// no alias keeps its definition.
pub proof fn law_to_inline_exact(bs: Seq<BlockV>, x: u16)
    ensures
        to_inline(bs).contains(x) <==> (last_def(bs, x) matches Some(v) && (uses_in_blocks(bs, x) == 1
            || v is Var)),
{
    let d = defs_of(bs);
    let c = counts_of(bs);
    lemma_counts_of(bs, x);
    lemma_defs_of_entry(bs, x);
    lemma_pick_contains(d, c, x);
    lemma_def_index(d, x);
    let k = def_index(d, x);
    if exists|i: int| 0 <= i < d.len() && (#[trigger] d[i]).0 == x && (count_of(c, x) == 1 || d[i].1) {
        let i = choose|i: int| 0 <= i < d.len() && (#[trigger] d[i]).0 == x && (count_of(c, x) == 1 || d[i].1);
        assert(k >= 0);
        if i != k {
            assert(d[i].0 != d[k].0);
        }
    }
    if last_def(bs, x) is Some && (count_of(c, x) == 1 || d[k].1) {
        assert(d[k].0 == x);
    }
}

} // verus!
