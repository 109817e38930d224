//! The text form of the IR: expressions as `(func arg ..)`, numbers below ten
//! in decimal and others in hexadecimal, variables as `v1`, and blocks as an
//! address line followed by one statement per line.

use vstd::prelude::*;
use crate::ast::{Call, CallV, Expr, ExprV, Stmt, StmtKind, StmtKindV, StmtV, Var, args_view};
use crate::blocks::{Block, BlockV, blocks_view};
use crate::text::{debug_quote, debug_quoted, name_as_str};

verus! {

/// The character of digit `d` (below sixteen), in lower case.
pub open spec fn digit_char(d: nat) -> char {
    if d < 10 {
        (('0' as int) + d) as char
    } else {
        (('a' as int) + d - 10) as char
    }
}

/// `n` in decimal.
pub open spec fn dec_str(n: nat) -> Seq<char>
    decreases n,
{
    if n < 10 {
        seq![digit_char(n)]
    } else {
        dec_str(n / 10).push(digit_char(n % 10))
    }
}

/// `n` in hexadecimal, in lower case.
pub open spec fn hex_str(n: nat) -> Seq<char>
    decreases n,
{
    if n < 16 {
        seq![digit_char(n)]
    } else {
        hex_str(n / 16).push(digit_char(n % 16))
    }
}

/// `n` in hexadecimal, padded with zeros to eight digits.
pub open spec fn hex8_str(n: nat) -> Seq<char> {
    let s = hex_str(n);
    if s.len() < 8 {
        Seq::new((8 - s.len()) as nat, |i: int| '0') + s
    } else {
        s
    }
}

/// A variable: `v` and its number.
pub open spec fn fmt_var(x: u16) -> Seq<char> {
    seq!['v'] + dec_str(x as nat)
}

/// A number: in decimal below ten, else `0x` and hexadecimal.
pub open spec fn fmt_val(v: u32) -> Seq<char> {
    if v < 10 {
        dec_str(v as nat)
    } else {
        "0x"@ + hex_str(v as nat)
    }
}

/// An expression.
pub open spec fn fmt_expr(e: ExprV) -> Seq<char>
    decreases e,
{
    match e {
        ExprV::Val(v) => fmt_val(v),
        ExprV::Name(n) => n,
        ExprV::Var(x) => fmt_var(x),
        ExprV::Call(c) => "("@ + c.func + fmt_args(c.args) + ")"@,
        ExprV::Todo(m) => "(todo "@ + debug_quoted(m) + ")"@,
    }
}

/// The arguments of a call, each after a space.
pub open spec fn fmt_args(es: Seq<ExprV>) -> Seq<char>
    decreases es,
{
    if es.len() == 0 {
        Seq::empty()
    } else {
        fmt_args(es.drop_last()) + " "@ + fmt_expr(es.last())
    }
}

/// A call.
pub open spec fn fmt_call(c: CallV) -> Seq<char> {
    "("@ + c.func + fmt_args(c.args) + ")"@
}

/// A statement kind.
pub open spec fn fmt_kind(k: StmtKindV) -> Seq<char> {
    match k {
        StmtKindV::Do(e) => fmt_expr(e),
        StmtKindV::Assign(d, e) => "(set "@ + fmt_expr(d) + " "@ + fmt_expr(e) + ")"@,
        StmtKindV::Let(x, e) => "(let "@ + fmt_var(x) + " "@ + fmt_expr(e) + ")"@,
        StmtKindV::Jmp(c, d) => "(jmp "@ + fmt_call(c) + " "@ + fmt_expr(d) + ")"@,
        StmtKindV::Raw(m) => "(todo "@ + debug_quoted(m) + ")"@,
    }
}

/// Addresses in eight hexadecimal digits, separated by commas.
pub open spec fn fmt_ips(ips: Seq<u32>) -> Seq<char>
    decreases ips.len(),
{
    if ips.len() == 0 {
        Seq::empty()
    } else if ips.len() == 1 {
        hex8_str(ips[0] as nat)
    } else {
        fmt_ips(ips.drop_last()) + ","@ + hex8_str(ips.last() as nat)
    }
}

/// A statement, with its addresses and a space before it when `with_ip`
/// holds and it has addresses.
pub open spec fn fmt_stmt(s: StmtV, with_ip: bool) -> Seq<char> {
    if with_ip && s.ip.len() > 0 {
        fmt_ips(s.ip) + " "@ + fmt_kind(s.kind)
    } else {
        fmt_kind(s.kind)
    }
}

/// Statements, each followed by a line break.
pub open spec fn fmt_lines(s: Seq<StmtV>, with_ip: bool) -> Seq<char>
    decreases s.len(),
{
    if s.len() == 0 {
        Seq::empty()
    } else {
        fmt_lines(s.drop_last(), with_ip) + fmt_stmt(s.last(), with_ip) + "\n"@
    }
}

/// A block: its address in hexadecimal and `:` on a line, then its statements.
pub open spec fn fmt_block(b: BlockV, with_ip: bool) -> Seq<char> {
    hex_str(b.ip as nat) + ":\n"@ + fmt_lines(b.stmts, with_ip)
}

/// Blocks, separated by line breaks.
pub open spec fn fmt_block_list(bs: Seq<BlockV>, with_ip: bool) -> Seq<char>
    decreases bs.len(),
{
    if bs.len() == 0 {
        Seq::empty()
    } else if bs.len() == 1 {
        fmt_block(bs[0], with_ip)
    } else {
        fmt_block_list(bs.drop_last(), with_ip) + "\n"@ + fmt_block(bs.last(), with_ip)
    }
}

/// The digit `d` as a string.
fn digit_str(d: u32) -> (res: &'static str)
    requires
        d < 16,
    ensures
        res@ == seq![digit_char(d as nat)],
{
    match d {
        0 => {
            proof {
                reveal_strlit("0");
            }
            "0"
        },
        1 => {
            proof {
                reveal_strlit("1");
            }
            "1"
        },
        2 => {
            proof {
                reveal_strlit("2");
            }
            "2"
        },
        3 => {
            proof {
                reveal_strlit("3");
            }
            "3"
        },
        4 => {
            proof {
                reveal_strlit("4");
            }
            "4"
        },
        5 => {
            proof {
                reveal_strlit("5");
            }
            "5"
        },
        6 => {
            proof {
                reveal_strlit("6");
            }
            "6"
        },
        7 => {
            proof {
                reveal_strlit("7");
            }
            "7"
        },
        8 => {
            proof {
                reveal_strlit("8");
            }
            "8"
        },
        9 => {
            proof {
                reveal_strlit("9");
            }
            "9"
        },
        10 => {
            proof {
                reveal_strlit("a");
            }
            "a"
        },
        11 => {
            proof {
                reveal_strlit("b");
            }
            "b"
        },
        12 => {
            proof {
                reveal_strlit("c");
            }
            "c"
        },
        13 => {
            proof {
                reveal_strlit("d");
            }
            "d"
        },
        14 => {
            proof {
                reveal_strlit("e");
            }
            "e"
        },
        15 => {
            proof {
                reveal_strlit("f");
            }
            "f"
        },
        _ => {
            proof {
                reveal_strlit("f");
            }
            "f"
        },
    }
}

/// Appends `n` in decimal.
fn push_dec(out: &mut String, n: u32)
    ensures
        final(out)@ == old(out)@ + dec_str(n as nat),
    decreases n,
{
    if n >= 10 {
        push_dec(out, n / 10);
    }
    out.append(digit_str(n % 10));
}

/// Appends `n` in hexadecimal.
fn push_hex(out: &mut String, n: u32)
    ensures
        final(out)@ == old(out)@ + hex_str(n as nat),
    decreases n,
{
    if n >= 16 {
        push_hex(out, n / 16);
    }
    out.append(digit_str(n % 16));
}

/// Appends `e`.
fn push_expr(out: &mut String, e: &Expr)
    ensures
        final(out)@ == old(out)@ + fmt_expr(e@),
    decreases e,
{
    match e {
        Expr::Val(v) => {
            if *v < 10 {
                push_dec(out, *v);
            } else {
                out.append("0x");
                push_hex(out, *v);
            }
        },
        Expr::Name(n) => {
            out.append(name_as_str(n));
        },
        Expr::Var(x) => {
            push_var(out, *x);
        },
        Expr::Call(c) => {
            push_call(out, c);
        },
        Expr::Todo(m) => {
            out.append("(todo ");
            let q = debug_quote(m.as_str());
            out.append(q.as_str());
            out.append(")");
        },
    }
}

/// Appends `c`.
fn push_call(out: &mut String, c: &Call)
    ensures
        final(out)@ == old(out)@ + fmt_call(c@),
    decreases c,
{
    let ghost start = out@;
    out.append("(");
    out.append(c.func.as_str());
    let mut i: usize = 0;
    proof {
        assert(c.args@.take(0) =~= Seq::<Expr>::empty());
        assert(out@ =~= start + "("@ + c.func@ + fmt_args(args_view(c.args@.take(0))));
    }
    while i < c.args.len()
        invariant
            i <= c.args.len(),
            out@ == start + "("@ + c.func@ + fmt_args(args_view(c.args@.take(i as int))),
        decreases c.args.len() - i,
    {
        assert(decreases_to!(c => c.args));
        assert(decreases_to!(c.args => c.args[i as int]));
        let ghost before = out@;
        out.append(" ");
        push_expr(out, &c.args[i]);
        proof {
            assert(c.args@.take(i + 1).drop_last() =~= c.args@.take(i as int));
            assert(args_view(c.args@.take(i + 1)) == args_view(c.args@.take(i as int)).push(
                c.args[i as int]@,
            ));
            let a = args_view(c.args@.take(i + 1));
            assert(a.drop_last() =~= args_view(c.args@.take(i as int)));
            assert(fmt_args(a) == fmt_args(a.drop_last()) + " "@ + fmt_expr(c.args[i as int]@));
            assert(out@ =~= start + "("@ + c.func@ + fmt_args(args_view(c.args@.take(i + 1))));
        }
        i += 1;
    }
    out.append(")");
    proof {
        assert(c.args@.take(c.args.len() as int) =~= c.args@);
    }
}

/// Appends `x`.
fn push_var(out: &mut String, x: Var)
    ensures
        final(out)@ == old(out)@ + fmt_var(x.0),
{
    out.append("v");
    push_dec(out, x.0 as u32);
    proof {
        reveal_strlit("v");
    }
    assert(out@ =~= old(out)@ + fmt_var(x.0));
}

impl Var {
    /// The variable as `v` and its number.
    pub fn to_string(&self) -> (res: String)
        ensures
            res@ == fmt_var(self.0),
    {
        let mut out = String::new();
        push_var(&mut out, *self);
        out
    }
}

impl Expr {
    /// The expression in text form.
    pub fn to_string(&self) -> (res: String)
        ensures
            res@ == fmt_expr(self@),
    {
        let mut out = String::new();
        push_expr(&mut out, self);
        out
    }
}

impl Call {
    /// The call in text form.
    pub fn to_string(&self) -> (res: String)
        ensures
            res@ == fmt_call(self@),
    {
        let mut out = String::new();
        push_call(&mut out, self);
        out
    }
}

/// Appends `k`.
fn push_kind(out: &mut String, k: &StmtKind)
    ensures
        final(out)@ == old(out)@ + fmt_kind(k@),
{
    let ghost start = out@;
    match k {
        StmtKind::Do(e) => {
            push_expr(out, e);
        },
        StmtKind::Assign(d, e) => {
            out.append("(set ");
            push_expr(out, d);
            out.append(" ");
            push_expr(out, e);
            out.append(")");
            assert(out@ =~= start + fmt_kind(k@));
        },
        StmtKind::Let(x, e) => {
            out.append("(let ");
            push_var(out, *x);
            out.append(" ");
            push_expr(out, e);
            out.append(")");
            assert(out@ =~= start + fmt_kind(k@));
        },
        StmtKind::Jmp(c, d) => {
            out.append("(jmp ");
            push_call(out, c);
            out.append(" ");
            push_expr(out, d);
            out.append(")");
            assert(out@ =~= start + fmt_kind(k@));
        },
        StmtKind::Raw(m) => {
            out.append("(todo ");
            let q = debug_quote(m.as_str());
            out.append(q.as_str());
            out.append(")");
            assert(out@ =~= start + fmt_kind(k@));
        },
    }
}

/// Appends `n` in eight hexadecimal digits.
fn push_hex8(out: &mut String, n: u32)
    ensures
        final(out)@ == old(out)@ + hex8_str(n as nat),
{
    let mut digits = String::new();
    push_hex(&mut digits, n);
    let len = digits.as_str().unicode_len();
    let ghost start = out@;
    let mut k: usize = len;
    assert(out@ =~= start + Seq::new((k - len) as nat, |i: int| '0'));
    while k < 8
        invariant
            len == hex_str(n as nat).len(),
            len <= k,
            k <= 8 || k == len,
            out@ == start + Seq::new((k - len) as nat, |i: int| '0'),
        decreases 8 - k,
    {
        proof {
            reveal_strlit("0");
        }
        out.append("0");
        assert(out@ =~= start + Seq::new((k + 1 - len) as nat, |i: int| '0'));
        k += 1;
    }
    out.append(digits.as_str());
    proof {
        if len >= 8 {
            assert(Seq::new(0, |i: int| '0') + hex_str(n as nat) =~= hex_str(n as nat));
        }
    }
    assert(out@ =~= start + hex8_str(n as nat));
}

/// Appends `s`, with its addresses first when `with_ip` holds.
fn push_stmt(out: &mut String, s: &Stmt, with_ip: bool)
    ensures
        final(out)@ == old(out)@ + fmt_stmt(s@, with_ip),
{
    let ghost start = out@;
    if with_ip && s.ip.len() > 0 {
        let mut i: usize = 0;
        proof {
            assert(s.ip@.take(0) =~= Seq::<u32>::empty());
            assert(out@ =~= start + fmt_ips(s.ip@.take(0)));
        }
        while i < s.ip.len()
            invariant
                i <= s.ip.len(),
                out@ == start + fmt_ips(s.ip@.take(i as int)),
            decreases s.ip.len() - i,
        {
            let ghost t = s.ip@.take(i + 1);
            assert(t.drop_last() =~= s.ip@.take(i as int));
            if i > 0 {
                out.append(",");
            }
            push_hex8(out, s.ip[i]);
            assert(out@ =~= start + fmt_ips(t));
            i += 1;
        }
        assert(s.ip@.take(s.ip.len() as int) =~= s.ip@);
        out.append(" ");
    }
    push_kind(out, &s.kind);
    assert(out@ =~= start + fmt_stmt(s@, with_ip));
}

impl StmtKind {
    /// The statement kind in text form.
    pub fn to_string(&self) -> (res: String)
        ensures
            res@ == fmt_kind(self@),
    {
        let mut out = String::new();
        push_kind(&mut out, self);
        out
    }
}

impl Stmt {
    /// The statement in text form, without its addresses.
    pub fn to_string(&self) -> (res: String)
        ensures
            res@ == fmt_stmt(self@, false),
    {
        let mut out = String::new();
        push_stmt(&mut out, self, false);
        out
    }

    /// The statement in text form, after its addresses in eight hexadecimal
    /// digits, separated by commas.
    pub fn to_string_with_ips(&self) -> (res: String)
        ensures
            res@ == fmt_stmt(self@, true),
    {
        let mut out = String::new();
        push_stmt(&mut out, self, true);
        out
    }
}

/// Appends `b`.
fn push_block(out: &mut String, b: &Block, with_ip: bool)
    ensures
        final(out)@ == old(out)@ + fmt_block(b@, with_ip),
{
    let ghost start = out@;
    push_hex(out, b.ip);
    out.append(":\n");
    let ghost head = out@;
    let ghost sv = b@.stmts;
    let mut i: usize = 0;
    proof {
        assert(sv.take(0) =~= Seq::<StmtV>::empty());
        assert(out@ =~= head + fmt_lines(sv.take(0), with_ip));
    }
    while i < b.stmts.len()
        invariant
            i <= b.stmts.len(),
            sv == b@.stmts,
            sv.len() == b.stmts.len(),
            out@ == head + fmt_lines(sv.take(i as int), with_ip),
        decreases b.stmts.len() - i,
    {
        let ghost t = sv.take(i + 1);
        assert(t.drop_last() =~= sv.take(i as int));
        assert(t.last() == b.stmts[i as int]@);
        push_stmt(out, &b.stmts[i], with_ip);
        out.append("\n");
        assert(out@ =~= head + fmt_lines(t, with_ip));
        i += 1;
    }
    assert(sv.take(sv.len() as int) =~= sv);
    assert(out@ =~= start + fmt_block(b@, with_ip));
}

impl Block {
    /// The block in text form: its address, then its statements.
    pub fn to_string(&self) -> (res: String)
        ensures
            res@ == fmt_block(self@, false),
    {
        let mut out = String::new();
        push_block(&mut out, self, false);
        out
    }

    /// The block in text form, with the addresses of each statement.
    pub fn to_string_with_ips(&self) -> (res: String)
        ensures
            res@ == fmt_block(self@, true),
    {
        let mut out = String::new();
        push_block(&mut out, self, true);
        out
    }
}

/// The blocks in text form, separated by empty lines; with the addresses of
/// each statement when `include_ip` holds.
pub fn fmt_blocks(blocks: &[Block], include_ip: bool) -> (res: String)
    ensures
        res@ == fmt_block_list(blocks_view(blocks@), include_ip),
{
    let ghost bv = blocks_view(blocks@);
    let mut out = String::new();
    let mut i: usize = 0;
    proof {
        assert(bv.take(0) =~= Seq::<BlockV>::empty());
        assert(out@ =~= fmt_block_list(bv.take(0), include_ip));
    }
    while i < blocks.len()
        invariant
            i <= blocks.len(),
            bv == blocks_view(blocks@),
            bv.len() == blocks.len(),
            out@ == fmt_block_list(bv.take(i as int), include_ip),
        decreases blocks.len() - i,
    {
        let ghost t = bv.take(i + 1);
        assert(t.drop_last() =~= bv.take(i as int));
        assert(t.last() == blocks[i as int]@);
        if i > 0 {
            out.append("\n");
        }
        let ghost before = out@;
        push_block(&mut out, &blocks[i], include_ip);
        assert(out@ =~= fmt_block_list(t, include_ip));
        i += 1;
    }
    assert(bv.take(bv.len() as int) =~= bv);
    out
}

} // verus!
