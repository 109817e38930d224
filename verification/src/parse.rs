//! Reading the IR back from its text form: `12` (hexadecimal), `name`,
//! `(func arg ..)`, and statements `(set dst val)` or any other call.
//!
//! Each parser is stated as a function on the characters of the text and a
//! position in it, with three outcomes: a value and the position after it, a
//! failure at some position (the parser returns `None`), or an input the
//! parser does not accept at all (`Abort`), which the parsers rule out by
//! their preconditions.

use vstd::prelude::*;
use crate::ast::{Call, CallV, Expr, ExprV, Stmt, StmtKind, StmtKindV, StmtV, args_view, lemma_args_view, lemma_args_view_push, stmts_view};
use crate::text::{Name, name_as_str, name_chars, name_new, str_eq};

verus! {

/// A cursor over the characters of a text.
pub struct It<'a> {
    text: &'a str,
    chars: Vec<char>,
    pos: usize,
}

/// The abstract value of a cursor: the characters and the position reached.
pub struct ItV {
    pub text: Seq<char>,
    pub pos: int,
}

impl<'a> View for It<'a> {
    type V = ItV;

    closed spec fn view(&self) -> ItV {
        ItV { text: self.chars@, pos: self.pos as int }
    }
}

/// The character at `p`, if there is one.
pub open spec fn char_at(t: Seq<char>, p: int) -> Option<char> {
    if 0 <= p < t.len() {
        Some(t[p])
    } else {
        None
    }
}

impl<'a> It<'a> {
    /// The cursor is within the text it walks.
    pub closed spec fn wf(&self) -> bool {
        &&& self.chars@ == self.text@
        &&& self.pos <= self.chars.len()
    }

    /// A cursor at the start of `text`.
    pub fn new(text: &'a str) -> (res: It<'a>)
        ensures
            res.wf(),
            res@ == (ItV { text: text@, pos: 0 }),
    {
        let n = text.unicode_len();
        let mut chars: Vec<char> = Vec::new();
        let mut i: usize = 0;
        while i < n
            invariant
                n == text@.len(),
                i <= n,
                chars@ == text@.take(i as int),
            decreases n - i,
        {
            chars.push(text.get_char(i));
            assert(chars@ =~= text@.take(i + 1));
            i += 1;
        }
        assert(text@.take(n as int) =~= text@);
        It { text, chars, pos: 0 }
    }

    /// The character under the cursor.
    pub fn peek(&self) -> (res: Option<char>)
        requires
            self.wf(),
        ensures
            res == char_at(self@.text, self@.pos),
    {
        if self.pos < self.chars.len() {
            Some(self.chars[self.pos])
        } else {
            None
        }
    }

    /// The character under the cursor, which the cursor then moves past.
    pub fn next(&mut self) -> (res: Option<char>)
        requires
            old(self).wf(),
        ensures
            final(self).wf(),
            final(self)@.text == old(self)@.text,
            res == char_at(old(self)@.text, old(self)@.pos),
            final(self)@.pos == if res is Some {
                old(self)@.pos + 1
            } else {
                old(self)@.pos
            },
    {
        if self.pos < self.chars.len() {
            let c = self.chars[self.pos];
            self.pos = self.pos + 1;
            Some(c)
        } else {
            None
        }
    }

    /// The characters between `from` and the cursor.
    fn since(&self, from: usize) -> (res: &'a str)
        requires
            self.wf(),
            from <= self@.pos,
        ensures
            res@ == self@.text.subrange(from as int, self@.pos),
    {
        self.text.substring_char(from, self.pos)
    }
}

/// A character of a number: `0` to `8`.
pub open spec fn is_digit(c: char) -> bool {
    '0' <= c && c < '9'
}

/// A character of a name: `!` to `y`, but for the brackets.
pub open spec fn is_ident(c: char) -> bool {
    '!' <= c && c < 'z' && c != '(' && c != ')'
}

/// Whether `c` can stand in a number.
pub fn is_digit_char(c: char) -> (res: bool)
    ensures
        res == is_digit(c),
{
    '0' <= c && c <= '8'
}

/// Whether `c` can stand in a name.
pub fn is_ident_char(c: char) -> (res: bool)
    ensures
        res == is_ident(c),
{
    '!' <= c && c < 'z' && c != '(' && c != ')'
}

/// The end of the run of digits that starts at `p`.
pub open spec fn digits_end(t: Seq<char>, p: int) -> int
    decreases t.len() - p,
{
    if 0 <= p < t.len() && is_digit(t[p]) {
        digits_end(t, p + 1)
    } else {
        p
    }
}

/// The end of the run of name characters that starts at `p`.
pub open spec fn ident_end(t: Seq<char>, p: int) -> int
    decreases t.len() - p,
{
    if 0 <= p < t.len() && is_ident(t[p]) {
        ident_end(t, p + 1)
    } else {
        p
    }
}

/// The end of the run of spaces that starts at `p`.
pub open spec fn spaces_end(t: Seq<char>, p: int) -> int
    decreases t.len() - p,
{
    if 0 <= p < t.len() && t[p] == ' ' {
        spaces_end(t, p + 1)
    } else {
        p
    }
}

/// The value of `ds` read as hexadecimal digits.
pub open spec fn hex_value(ds: Seq<char>) -> nat
    decreases ds.len(),
{
    if ds.len() == 0 {
        0
    } else {
        hex_value(ds.drop_last()) * 16 + hex_digit(ds.last())
    }
}

/// The value of a hexadecimal digit.
pub open spec fn hex_digit(c: char) -> nat {
    if '0' <= c && c <= '9' {
        (c as int - '0' as int) as nat
    } else if 'a' <= c && c <= 'f' {
        (c as int - 'a' as int + 10) as nat
    } else {
        0
    }
}

/// The outcome of a parser: the value read and the position after it, a
/// failure at a position, or an input that the parser does not accept.
pub enum Step<T> {
    Done(T, int),
    Fail(int),
    Abort,
}

/// A number: the run of digits at `p`, which must not be empty, read as
/// hexadecimal; it must fit in 32 bits.
pub open spec fn parse_u32_spec(t: Seq<char>, p: int) -> Step<u32> {
    let q = digits_end(t, p);
    if q == p || hex_value(t.subrange(p, q)) > u32::MAX {
        Step::Abort
    } else {
        Step::Done(hex_value(t.subrange(p, q)) as u32, q)
    }
}

/// A name: the run of name characters at `p`, which must not be empty.
pub open spec fn parse_ident_spec(t: Seq<char>, p: int) -> Step<Seq<char>> {
    let q = ident_end(t, p);
    if q == p {
        Step::Abort
    } else {
        Step::Done(t.subrange(p, q), q)
    }
}

proof fn lemma_digits_end(t: Seq<char>, p: int)
    requires
        0 <= p <= t.len(),
    ensures
        p <= digits_end(t, p) <= t.len(),
        forall|i: int| p <= i < digits_end(t, p) ==> is_digit(#[trigger] t[i]),
        digits_end(t, p) < t.len() ==> !is_digit(t[digits_end(t, p)]),
    decreases t.len() - p,
{
    if p < t.len() && is_digit(t[p]) {
        lemma_digits_end(t, p + 1);
    }
}

proof fn lemma_ident_end(t: Seq<char>, p: int)
    requires
        0 <= p <= t.len(),
    ensures
        p <= ident_end(t, p) <= t.len(),
        forall|i: int| p <= i < ident_end(t, p) ==> is_ident(#[trigger] t[i]),
        ident_end(t, p) < t.len() ==> !is_ident(t[ident_end(t, p)]),
    decreases t.len() - p,
{
    if p < t.len() && is_ident(t[p]) {
        lemma_ident_end(t, p + 1);
    }
}

proof fn lemma_spaces_end(t: Seq<char>, p: int)
    requires
        0 <= p <= t.len(),
    ensures
        p <= spaces_end(t, p) <= t.len(),
        forall|i: int| p <= i < spaces_end(t, p) ==> #[trigger] t[i] == ' ',
        spaces_end(t, p) < t.len() ==> t[spaces_end(t, p)] != ' ',
    decreases t.len() - p,
{
    if p < t.len() && t[p] == ' ' {
        lemma_spaces_end(t, p + 1);
    }
}

/// The run of digits under the cursor, read as hexadecimal.
fn parse_number(it: &mut It) -> (res: u32)
    requires
        old(it).wf(),
        parse_u32_spec(old(it)@.text, old(it)@.pos) is Done,
    ensures
        final(it).wf(),
        final(it)@.text == old(it)@.text,
        parse_u32_spec(old(it)@.text, old(it)@.pos) == Step::Done(res, final(it)@.pos),
{
    let ghost t = it@.text;
    let ghost p = it@.pos;
    proof {
        lemma_digits_end(t, p);
        assert(t.subrange(p, p) =~= Seq::<char>::empty());
    }
    let ghost q = digits_end(t, p);
    let mut v: u32 = 0;
    loop
        invariant
            it.wf(),
            it@.text == t,
            p <= it@.pos <= q,
            q == digits_end(t, p),
            p <= q <= t.len(),
            forall|i: int| p <= i < q ==> is_digit(#[trigger] t[i]),
            q < t.len() ==> !is_digit(t[q]),
            hex_value(t.subrange(p, q)) <= u32::MAX,
            v == hex_value(t.subrange(p, it@.pos)),
        ensures
            it.wf(),
            it@.text == t,
            it@.pos == q,
            v == hex_value(t.subrange(p, q)),
        decreases t.len() - it@.pos,
    {
        let c = match it.peek() {
            Some(c) => c,
            None => break,
        };
        if !is_digit_char(c) {
            break;
        }
        let ghost p1 = it@.pos;
        it.next();
        proof {
            let ds = t.subrange(p, p1 + 1);
            assert(ds.drop_last() =~= t.subrange(p, p1));
            assert(ds.last() == c);
            lemma_hex_prefix(t.subrange(p, q), p1 + 1 - p);
            assert(t.subrange(p, q).take(p1 + 1 - p) =~= ds);
        }
        let d: u32 = (c as u32) - ('0' as u32);
        v = v * 16 + d;
    }
    v
}

/// A prefix of digits reads as no more than the whole.
proof fn lemma_hex_prefix(ds: Seq<char>, k: int)
    requires
        0 <= k <= ds.len(),
    ensures
        hex_value(ds.take(k)) <= hex_value(ds),
    decreases ds.len(),
{
    if k < ds.len() {
        lemma_hex_prefix(ds.drop_last(), k);
        assert(ds.drop_last().take(k) =~= ds.take(k));
        assert(hex_value(ds.drop_last()) <= hex_value(ds)) by (nonlinear_arith)
            requires
                hex_value(ds) == hex_value(ds.drop_last()) * 16 + hex_digit(ds.last()),
        ;
    } else {
        assert(ds.take(k) =~= ds);
    }
}

/// The run of name characters under the cursor.
fn parse_name(it: &mut It) -> (res: Name)
    requires
        old(it).wf(),
        parse_ident_spec(old(it)@.text, old(it)@.pos) is Done,
    ensures
        final(it).wf(),
        final(it)@.text == old(it)@.text,
        parse_ident_spec(old(it)@.text, old(it)@.pos) == Step::Done(name_chars(res), final(it)@.pos),
{
    let ghost t = it@.text;
    let ghost p = it@.pos;
    proof {
        lemma_ident_end(t, p);
    }
    let start = it.pos;
    loop
        invariant
            it.wf(),
            it@.text == t,
            start == p,
            p <= it@.pos <= ident_end(t, p),
            ident_end(t, p) <= t.len(),
            forall|i: int| p <= i < ident_end(t, p) ==> is_ident(#[trigger] t[i]),
            ident_end(t, p) < t.len() ==> !is_ident(t[ident_end(t, p)]),
        ensures
            it.wf(),
            it@.text == t,
            it@.pos == ident_end(t, p),
        decreases t.len() - it@.pos,
    {
        let c = match it.peek() {
            Some(c) => c,
            None => break,
        };
        if !is_ident_char(c) {
            break;
        }
        it.next();
    }
    name_new(it.since(start))
}

/// `pre` put before the values that `s` read.
pub open spec fn prepend(pre: Seq<ExprV>, s: Step<Seq<ExprV>>) -> Step<Seq<ExprV>> {
    match s {
        Step::Done(rest, q) => Step::Done(pre + rest, q),
        Step::Fail(q) => Step::Fail(q),
        Step::Abort => Step::Abort,
    }
}

/// An expression: a number when the text at `p` starts with a digit, a call
/// at `(`, a name at a name character; a failure at the end of the text or at
/// any other character.
pub open spec fn parse_expr_spec(t: Seq<char>, p: int) -> Step<ExprV>
    decreases t.len() - p, 2int,
{
    match char_at(t, p) {
        None => Step::Fail(p),
        Some(c) => if is_digit(c) {
            match parse_u32_spec(t, p) {
                Step::Done(v, q) => Step::Done(ExprV::Val(v), q),
                Step::Fail(q) => Step::Fail(q),
                Step::Abort => Step::Abort,
            }
        } else if c == '(' {
            match parse_call_spec(t, p) {
                Step::Done(cv, q) => Step::Done(ExprV::Call(cv), q),
                Step::Fail(q) => Step::Fail(q),
                Step::Abort => Step::Abort,
            }
        } else if is_ident(c) {
            match parse_ident_spec(t, p) {
                Step::Done(n, q) => Step::Done(ExprV::Name(n), q),
                Step::Fail(q) => Step::Fail(q),
                Step::Abort => Step::Abort,
            }
        } else {
            Step::Fail(p)
        },
    }
}

/// A call: `(`, then expressions each followed by spaces, then `)`; the first
/// expression, a name, is the function. The text ending early is a failure;
/// no `(`, an expression that does not parse, or no name first is not accepted.
pub open spec fn parse_call_spec(t: Seq<char>, p: int) -> Step<CallV>
    decreases t.len() - p, 1int,
{
    match char_at(t, p) {
        None => Step::Fail(p),
        Some(c) => if c != '(' {
            Step::Abort
        } else {
            match parse_args_spec(t, p + 1) {
                Step::Done(args, q) => if args.len() > 0 && args[0] is Name {
                    Step::Done(CallV { func: args[0]->Name_0, args: args.drop_first() }, q)
                } else {
                    Step::Abort
                },
                Step::Fail(q) => Step::Fail(q),
                Step::Abort => Step::Abort,
            }
        },
    }
}

/// The expressions of a call from `q` on, up to and past the closing `)`.
pub open spec fn parse_args_spec(t: Seq<char>, q: int) -> Step<Seq<ExprV>>
    decreases t.len() - q, 3int,
{
    match char_at(t, q) {
        None => Step::Fail(q),
        Some(c) => if c == ')' {
            Step::Done(Seq::empty(), q + 1)
        } else {
            match parse_expr_spec(t, q) {
                Step::Done(e, q1) => {
                    let q2 = spaces_end(t, q1);
                    if q2 >= t.len() {
                        Step::Fail(q2)
                    } else if q < q2 {
                        prepend(seq![e], parse_args_spec(t, q2))
                    } else {
                        Step::Abort
                    }
                },
                _ => Step::Abort,
            }
        },
    }
}

/// What the parsers read ends after where they start, within the text.
proof fn lemma_expr_advances(t: Seq<char>, p: int)
    requires
        0 <= p <= t.len(),
    ensures
        parse_expr_spec(t, p) matches Step::Done(_, q) ==> p < q <= t.len(),
        parse_expr_spec(t, p) matches Step::Fail(q) ==> p <= q <= t.len(),
    decreases t.len() - p, 2int,
{
    if p < t.len() {
        let c = t[p];
        if is_digit(c) {
            lemma_digits_end(t, p);
        } else if c == '(' {
            lemma_call_advances(t, p);
        } else if is_ident(c) {
            lemma_ident_end(t, p);
        }
    }
}

proof fn lemma_call_advances(t: Seq<char>, p: int)
    requires
        0 <= p <= t.len(),
    ensures
        parse_call_spec(t, p) matches Step::Done(_, q) ==> p < q <= t.len(),
        parse_call_spec(t, p) matches Step::Fail(q) ==> p <= q <= t.len(),
    decreases t.len() - p, 1int,
{
    if p < t.len() && t[p] == '(' {
        lemma_args_advances(t, p + 1);
    }
}

proof fn lemma_args_advances(t: Seq<char>, q: int)
    requires
        0 <= q <= t.len(),
    ensures
        parse_args_spec(t, q) matches Step::Done(_, r) ==> q < r <= t.len(),
        parse_args_spec(t, q) matches Step::Fail(r) ==> q <= r <= t.len(),
    decreases t.len() - q, 3int,
{
    if q < t.len() && t[q] != ')' {
        lemma_expr_advances(t, q);
        if let Step::Done(e, q1) = parse_expr_spec(t, q) {
            lemma_spaces_end(t, q1);
            let q2 = spaces_end(t, q1);
            if q2 < t.len() && q < q2 {
                lemma_args_advances(t, q2);
            }
        }
    }
}

/// Reads an expression, as `parse_expr_spec` says.
fn parse_expr(it: &mut It) -> (res: Option<Expr>)
    requires
        old(it).wf(),
        !(parse_expr_spec(old(it)@.text, old(it)@.pos) is Abort),
    ensures
        final(it).wf(),
        final(it)@.text == old(it)@.text,
        match parse_expr_spec(old(it)@.text, old(it)@.pos) {
            Step::Done(v, q) => res is Some && res.unwrap()@ == v && final(it)@.pos == q,
            Step::Fail(q) => res is None && final(it)@.pos == q,
            Step::Abort => false,
        },
    decreases old(it)@.text.len() - old(it)@.pos, 2int,
{
    let c = match it.peek() {
        Some(c) => c,
        None => {
            return None;
        },
    };
    if is_digit_char(c) {
        let v = parse_number(it);
        Some(Expr::Val(v))
    } else if c == '(' {
        match parse_call(it) {
            Some(call) => Some(Expr::Call(Box::new(call))),
            None => None,
        }
    } else if is_ident_char(c) {
        let n = parse_name(it);
        Some(Expr::Name(n))
    } else {
        None
    }
}

/// Reads a call, as `parse_call_spec` says.
fn parse_call(it: &mut It) -> (res: Option<Call>)
    requires
        old(it).wf(),
        !(parse_call_spec(old(it)@.text, old(it)@.pos) is Abort),
    ensures
        final(it).wf(),
        final(it)@.text == old(it)@.text,
        match parse_call_spec(old(it)@.text, old(it)@.pos) {
            Step::Done(v, q) => res is Some && res.unwrap()@ == v && final(it)@.pos == q,
            Step::Fail(q) => res is None && final(it)@.pos == q,
            Step::Abort => false,
        },
    decreases old(it)@.text.len() - old(it)@.pos, 1int,
{
    let ghost t = it@.text;
    let ghost p = it@.pos;
    match it.next() {
        Some(c) => {
            if c != '(' {
                return None;
            }
        },
        None => {
            return None;
        },
    }
    let mut args: Vec<Expr> = Vec::new();
    proof {
        lemma_args_view(args@);
        assert(prepend(args_view(args@), parse_args_spec(t, p + 1)) == parse_args_spec(t, p + 1)) by {
            assert(args_view(args@) =~= Seq::<ExprV>::empty());
            match parse_args_spec(t, p + 1) {
                Step::Done(r, q) => {
                    assert(Seq::<ExprV>::empty() + r =~= r);
                },
                _ => {},
            }
        }
    }
    loop
        invariant_except_break
            it.wf(),
            it@.text == t,
            t == old(it)@.text,
            p == old(it)@.pos,
            char_at(t, p) == Some('('),
            p < it@.pos <= t.len(),
            parse_args_spec(t, p + 1) == prepend(args_view(args@), parse_args_spec(t, it@.pos)),
            !(parse_args_spec(t, p + 1) is Abort),
        ensures
            it.wf(),
            it@.text == t,
            parse_args_spec(t, p + 1) == Step::Done(args_view(args@), it@.pos),
        decreases t.len() - it@.pos,
    {
        let q = it.pos;
        let c = match it.peek() {
            Some(c) => c,
            None => {
                assert(parse_args_spec(t, it@.pos) == Step::<Seq<ExprV>>::Fail(it@.pos));
                return None;
            },
        };
        if c == ')' {
            it.next();
            proof {
                assert(args_view(args@) + Seq::<ExprV>::empty() =~= args_view(args@));
            }
            break;
        }
        proof {
            lemma_expr_advances(t, q as int);
        }
        let e = match parse_expr(it) {
            Some(e) => e,
            None => {
                return None;
            },
        };
        let ghost q1 = it@.pos;
        proof {
            lemma_spaces_end(t, q1);
        }
        loop
            invariant
                it.wf(),
                it@.text == t,
                q1 <= it@.pos <= spaces_end(t, q1),
                spaces_end(t, q1) <= t.len(),
                forall|i: int| q1 <= i < spaces_end(t, q1) ==> #[trigger] t[i] == ' ',
                spaces_end(t, q1) < t.len() ==> t[spaces_end(t, q1)] != ' ',
            ensures
                it.wf(),
                it@.text == t,
                it@.pos == spaces_end(t, q1),
            decreases t.len() - it@.pos,
        {
            let d = match it.peek() {
                Some(d) => d,
                None => {
                    break;
                },
            };
            if d != ' ' {
                break;
            }
            it.next();
        }
        if it.pos >= it.chars.len() {
            assert(parse_args_spec(t, q as int) == Step::<Seq<ExprV>>::Fail(it@.pos));
            return None;
        }
        let ghost before = args_view(args@);
        let ghost before_args = args@;
        args.push(e);
        proof {
            lemma_args_view_push(before_args, e);
            assert(args@ == before_args.push(e));
            match parse_args_spec(t, it@.pos) {
                Step::Done(r, qe) => {
                    assert(before + (seq![e@] + r) =~= args_view(args@) + r);
                },
                _ => {},
            }
        }
    }
    let ghost all = args@;
    proof {
        lemma_args_view(all);
    }
    let first = args.remove(0);
    proof {
        lemma_args_view(args@);
        assert(args_view(args@) =~= args_view(all).drop_first());
        assert(first@ == args_view(all)[0]);
    }
    match first {
        Expr::Name(f) => {
            let func = String::from_str(name_as_str(&f));
            Some(Call { func, args })
        },
        _ => None,
    }
}

/// A statement kind: a call; `(set dst val)`, which must have two arguments,
/// is an assignment, `(jmp (cond ..) dst)` with a call and then a target is a
/// jump, and any other call, a `jmp` of another shape among them, stands as
/// it is.
pub open spec fn parse_kind_spec(t: Seq<char>, p: int) -> Step<StmtKindV> {
    match parse_expr_spec(t, p) {
        Step::Done(e, q) => match e {
            ExprV::Call(c) => if c.func == "set"@ {
                if c.args.len() == 2 {
                    Step::Done(StmtKindV::Assign(c.args[0], c.args[1]), q)
                } else {
                    Step::Abort
                }
            } else if c.func == "jmp"@ && c.args.len() == 2 && c.args[0] is Call {
                Step::Done(StmtKindV::Jmp(c.args[0]->Call_0, c.args[1]), q)
            } else {
                Step::Done(StmtKindV::Do(e), q)
            },
            _ => Step::Abort,
        },
        Step::Fail(q) => Step::Fail(q),
        Step::Abort => Step::Abort,
    }
}

/// A statement: a statement kind, with no addresses.
pub open spec fn parse_stmt_spec(t: Seq<char>, p: int) -> Step<StmtV> {
    match parse_kind_spec(t, p) {
        Step::Done(k, q) => Step::Done(StmtV { ip: Seq::empty(), kind: k }, q),
        Step::Fail(q) => Step::Fail(q),
        Step::Abort => Step::Abort,
    }
}

/// Whether reading with `f` from the start of `t` takes up all of `t`.
pub open spec fn reads_whole<M>(f: Step<M>, t: Seq<char>) -> bool {
    f matches Step::Done(_, q) && q == t.len()
}

/// A value that can be read from text.
pub trait Parse: Sized {
    /// What a value stands for in contracts.
    type Model;

    spec fn model(&self) -> Self::Model;

    /// What reading a value at position `p` of `t` gives.
    spec fn parse_spec(t: Seq<char>, p: int) -> Step<Self::Model>;

    /// Reads a value at the cursor, as `parse_spec` says.
    fn parse_it(it: &mut It) -> (res: Option<Self>)
        requires
            old(it).wf(),
            !(Self::parse_spec(old(it)@.text, old(it)@.pos) is Abort),
        ensures
            final(it).wf(),
            final(it)@.text == old(it)@.text,
            match Self::parse_spec(old(it)@.text, old(it)@.pos) {
                Step::Done(v, q) => res is Some && res.unwrap().model() == v && final(it)@.pos == q,
                Step::Fail(q) => res is None && final(it)@.pos == q,
                Step::Abort => false,
            },
    ;

    /// Reads a value that takes up all of `s`.
    fn must_parse(s: &str) -> (res: Self)
        requires
            reads_whole(Self::parse_spec(s@, 0), s@),
        ensures
            Self::parse_spec(s@, 0) == Step::Done(res.model(), s@.len() as int),
    {
        let mut it = It::new(s);
        let res = Self::parse_it(&mut it);
        res.unwrap()
    }
}

impl Parse for u32 {
    type Model = u32;

    open spec fn model(&self) -> u32 {
        *self
    }

    open spec fn parse_spec(t: Seq<char>, p: int) -> Step<u32> {
        parse_u32_spec(t, p)
    }

    fn parse_it(it: &mut It) -> (res: Option<u32>) {
        Some(parse_number(it))
    }
}

impl Parse for Name {
    type Model = Seq<char>;

    open spec fn model(&self) -> Seq<char> {
        name_chars(*self)
    }

    open spec fn parse_spec(t: Seq<char>, p: int) -> Step<Seq<char>> {
        parse_ident_spec(t, p)
    }

    fn parse_it(it: &mut It) -> (res: Option<Name>) {
        Some(parse_name(it))
    }
}

impl Parse for Expr {
    type Model = ExprV;

    open spec fn model(&self) -> ExprV {
        self@
    }

    open spec fn parse_spec(t: Seq<char>, p: int) -> Step<ExprV> {
        parse_expr_spec(t, p)
    }

    fn parse_it(it: &mut It) -> (res: Option<Expr>) {
        parse_expr(it)
    }
}

impl Parse for Call {
    type Model = CallV;

    open spec fn model(&self) -> CallV {
        self@
    }

    open spec fn parse_spec(t: Seq<char>, p: int) -> Step<CallV> {
        parse_call_spec(t, p)
    }

    fn parse_it(it: &mut It) -> (res: Option<Call>) {
        parse_call(it)
    }
}

impl Parse for StmtKind {
    type Model = StmtKindV;

    open spec fn model(&self) -> StmtKindV {
        self@
    }

    open spec fn parse_spec(t: Seq<char>, p: int) -> Step<StmtKindV> {
        parse_kind_spec(t, p)
    }

    fn parse_it(it: &mut It) -> (res: Option<StmtKind>) {
        let expr = match parse_expr(it) {
            Some(e) => e,
            None => {
                return None;
            },
        };
        let call = match expr {
            Expr::Call(call) => call,
            _ => {
                return None;
            },
        };
        proof {
            lemma_args_view(call.args@);
        }
        if str_eq(call.func.as_str(), "set") {
            let Call { func, mut args } = *call;
            proof {
                lemma_args_view(args@);
            }
            if args.len() != 2 {
                return None;
            }
            let b = args.pop().unwrap();
            let a = args.pop().unwrap();
            Some(StmtKind::Assign(a, b))
        } else if str_eq(call.func.as_str(), "jmp") && call.args.len() == 2 && matches!(call.args[0], Expr::Call(_)) {
            let Call { func, mut args } = *call;
            proof {
                lemma_args_view(args@);
            }
            let dst = args.pop().unwrap();
            let cond = args.pop().unwrap();
            match cond {
                Expr::Call(cond) => Some(StmtKind::Jmp(cond, dst)),
                _ => None,
            }
        } else {
            Some(StmtKind::Do(Expr::Call(call)))
        }
    }
}

impl Parse for Stmt {
    type Model = StmtV;

    open spec fn model(&self) -> StmtV {
        self@
    }

    open spec fn parse_spec(t: Seq<char>, p: int) -> Step<StmtV> {
        parse_stmt_spec(t, p)
    }

    fn parse_it(it: &mut It) -> (res: Option<Stmt>) {
        match StmtKind::parse_it(it) {
            Some(kind) => Some(Stmt { ip: Vec::new(), kind }),
            None => None,
        }
    }
}

/// A character of an address: a hexadecimal digit.
pub open spec fn is_hex(c: char) -> bool {
    ('0' <= c && c <= '9') || ('a' <= c && c <= 'f')
}

/// The end of the run of hexadecimal digits that starts at `p`.
pub open spec fn hex_end(t: Seq<char>, p: int) -> int
    decreases t.len() - p,
{
    if 0 <= p < t.len() && is_hex(t[p]) {
        hex_end(t, p + 1)
    } else {
        p
    }
}

/// The end of the run of spaces and line breaks that starts at `p`.
pub open spec fn blanks_end(t: Seq<char>, p: int) -> int
    decreases t.len() - p,
{
    if 0 <= p < t.len() && (t[p] == ' ' || t[p] == '\n') {
        blanks_end(t, p + 1)
    } else {
        p
    }
}

/// Whether an address label, hexadecimal digits and `:`, starts at `p`.
pub open spec fn has_label(t: Seq<char>, p: int) -> bool {
    hex_end(t, p) > p && char_at(t, hex_end(t, p)) == Some(':')
}

/// The address that the label at `p` gives.
pub open spec fn label_value(t: Seq<char>, p: int) -> nat {
    hex_value(t.subrange(p, hex_end(t, p)))
}

/// `pre` put before the statements of `s`.
pub open spec fn prepend_stmts(pre: Seq<StmtV>, s: Option<Seq<StmtV>>) -> Option<Seq<StmtV>> {
    match s {
        Some(rest) => Some(pre + rest),
        None => None,
    }
}

/// Statements one per line from `p` on: blank lines are skipped; a line may
/// start with an address label `addr:`, which becomes the statement's only
/// address (none without it); spaces may surround the statement. `None`
/// when some line is not of this form.
pub open spec fn parse_many_spec(t: Seq<char>, p: int) -> Option<Seq<StmtV>>
    decreases t.len() - p,
{
    let p1 = blanks_end(t, p);
    if p1 >= t.len() {
        Some(Seq::empty())
    } else if has_label(t, p1) && label_value(t, p1) > u32::MAX {
        None
    } else {
        let ip = if has_label(t, p1) {
            seq![label_value(t, p1) as u32]
        } else {
            Seq::empty()
        };
        let p2 = spaces_end(t, if has_label(t, p1) { hex_end(t, p1) + 1 } else { p1 });
        match parse_stmt_spec(t, p2) {
            Step::Done(st, q) => {
                let q1 = spaces_end(t, q);
                if char_at(t, q1) is Some && char_at(t, q1) != Some('\n') {
                    None
                } else if p < q1 <= t.len() {
                    prepend_stmts(seq![StmtV { ip, kind: st.kind }], parse_many_spec(t, q1))
                } else {
                    None
                }
            },
            _ => None,
        }
    }
}

proof fn lemma_hex_end(t: Seq<char>, p: int)
    requires
        0 <= p <= t.len(),
    ensures
        p <= hex_end(t, p) <= t.len(),
        forall|i: int| p <= i < hex_end(t, p) ==> is_hex(#[trigger] t[i]),
        hex_end(t, p) < t.len() ==> !is_hex(t[hex_end(t, p)]),
    decreases t.len() - p,
{
    if p < t.len() && is_hex(t[p]) {
        lemma_hex_end(t, p + 1);
    }
}

proof fn lemma_blanks_end(t: Seq<char>, p: int)
    requires
        0 <= p <= t.len(),
    ensures
        p <= blanks_end(t, p) <= t.len(),
        forall|i: int| p <= i < blanks_end(t, p) ==> (#[trigger] t[i] == ' ' || t[i] == '\n'),
        blanks_end(t, p) < t.len() ==> !(t[blanks_end(t, p)] == ' ' || t[blanks_end(t, p)] == '\n'),
    decreases t.len() - p,
{
    if p < t.len() && (t[p] == ' ' || t[p] == '\n') {
        lemma_blanks_end(t, p + 1);
    }
}

proof fn lemma_kind_advances(t: Seq<char>, p: int)
    requires
        0 <= p <= t.len(),
    ensures
        parse_stmt_spec(t, p) matches Step::Done(_, q) ==> p < q <= t.len(),
{
    lemma_expr_advances(t, p);
}

/// Whether `c` is a hexadecimal digit.
fn is_hex_char(c: char) -> (res: bool)
    ensures
        res == is_hex(c),
{
    ('0' <= c && c <= '9') || ('a' <= c && c <= 'f')
}

/// The value of a hexadecimal digit.
fn hex_digit_value(c: char) -> (res: u32)
    requires
        is_hex(c),
    ensures
        res == hex_digit(c),
        res < 16,
{
    if c <= '9' {
        (c as u32) - ('0' as u32)
    } else {
        (c as u32) - ('a' as u32) + 10
    }
}

/// Moves the cursor past spaces.
fn skip_spaces(it: &mut It)
    requires
        old(it).wf(),
    ensures
        final(it).wf(),
        final(it)@.text == old(it)@.text,
        final(it)@.pos == spaces_end(old(it)@.text, old(it)@.pos),
{
    let ghost t = it@.text;
    let ghost p = it@.pos;
    proof {
        lemma_spaces_end(t, p);
    }
    loop
        invariant
            it.wf(),
            it@.text == t,
            p <= it@.pos <= spaces_end(t, p),
            spaces_end(t, p) <= t.len(),
            forall|i: int| p <= i < spaces_end(t, p) ==> #[trigger] t[i] == ' ',
            spaces_end(t, p) < t.len() ==> t[spaces_end(t, p)] != ' ',
        ensures
            it.wf(),
            it@.text == t,
            it@.pos == spaces_end(t, p),
        decreases t.len() - it@.pos,
    {
        match it.peek() {
            Some(c) => {
                if c != ' ' {
                    break;
                }
            },
            None => {
                break;
            },
        }
        it.next();
    }
}

/// Moves the cursor past spaces and line breaks.
fn skip_blanks(it: &mut It)
    requires
        old(it).wf(),
    ensures
        final(it).wf(),
        final(it)@.text == old(it)@.text,
        final(it)@.pos == blanks_end(old(it)@.text, old(it)@.pos),
{
    let ghost t = it@.text;
    let ghost p = it@.pos;
    proof {
        lemma_blanks_end(t, p);
    }
    loop
        invariant
            it.wf(),
            it@.text == t,
            p <= it@.pos <= blanks_end(t, p),
            blanks_end(t, p) <= t.len(),
            forall|i: int| p <= i < blanks_end(t, p) ==> (#[trigger] t[i] == ' ' || t[i] == '\n'),
            blanks_end(t, p) < t.len() ==> !(t[blanks_end(t, p)] == ' ' || t[blanks_end(t, p)] == '\n'),
        ensures
            it.wf(),
            it@.text == t,
            it@.pos == blanks_end(t, p),
        decreases t.len() - it@.pos,
    {
        match it.peek() {
            Some(c) => {
                if c != ' ' && c != '\n' {
                    break;
                }
            },
            None => {
                break;
            },
        }
        it.next();
    }
}

/// Reads the address label under the cursor, if there is one, and moves past
/// it; the cursor stays where it is when there is none.
fn read_label(it: &mut It) -> (res: Option<u32>)
    requires
        old(it).wf(),
        has_label(old(it)@.text, old(it)@.pos) ==> label_value(old(it)@.text, old(it)@.pos) <= u32::MAX,
    ensures
        final(it).wf(),
        final(it)@.text == old(it)@.text,
        has_label(old(it)@.text, old(it)@.pos) ==> res == Some(label_value(old(it)@.text, old(it)@.pos) as u32)
            && final(it)@.pos == hex_end(old(it)@.text, old(it)@.pos) + 1,
        !has_label(old(it)@.text, old(it)@.pos) ==> res is None && final(it)@.pos == old(it)@.pos,
{
    let ghost t = it@.text;
    let ghost p = it@.pos;
    proof {
        lemma_hex_end(t, p);
    }
    let start = it.pos;
    let mut k = it.pos;
    while k < it.chars.len() && is_hex_char(it.chars[k])
        invariant
            it.wf(),
            it@.text == t,
            it@.pos == p,
            start == p,
            p <= k <= hex_end(t, p),
            hex_end(t, p) <= t.len(),
            forall|i: int| p <= i < hex_end(t, p) ==> is_hex(#[trigger] t[i]),
            hex_end(t, p) < t.len() ==> !is_hex(t[hex_end(t, p)]),
        decreases t.len() - k,
    {
        k += 1;
    }
    if k == start || k >= it.chars.len() || it.chars[k] != ':' {
        return None;
    }
    let mut v: u32 = 0;
    let mut i = start;
    proof {
        assert(t.subrange(p, p) =~= Seq::<char>::empty());
    }
    while i < k
        invariant
            it.wf(),
            it@.text == t,
            k == hex_end(t, p),
            p <= i <= k,
            k < t.len(),
            forall|j: int| p <= j < k ==> is_hex(#[trigger] t[j]),
            hex_value(t.subrange(p, k as int)) <= u32::MAX,
            v == hex_value(t.subrange(p, i as int)),
        decreases k - i,
    {
        let c = it.chars[i];
        proof {
            let ds = t.subrange(p, i + 1);
            assert(ds.drop_last() =~= t.subrange(p, i as int));
            assert(ds.last() == c);
            lemma_hex_prefix(t.subrange(p, k as int), i + 1 - p);
            assert(t.subrange(p, k as int).take(i + 1 - p) =~= ds);
        }
        let d = hex_digit_value(c);
        v = v * 16 + d;
        i += 1;
    }
    it.pos = k + 1;
    Some(v)
}

impl Stmt {
    /// Reads statements one per line, as `parse_many_spec` says.
    pub fn parse_many(text: &str) -> (res: Vec<Stmt>)
        requires
            parse_many_spec(text@, 0) is Some,
        ensures
            stmts_view(res@) == parse_many_spec(text@, 0).unwrap(),
    {
        let mut it = It::new(text);
        let ghost t = text@;
        let mut out: Vec<Stmt> = Vec::new();
        proof {
            assert(stmts_view(out@) =~= Seq::<StmtV>::empty());
            let r = parse_many_spec(t, 0).unwrap();
            assert(Seq::<StmtV>::empty() + r =~= r);
        }
        loop
            invariant_except_break
                it.wf(),
                it@.text == t,
                0 <= it@.pos <= t.len(),
                parse_many_spec(t, 0) is Some,
                parse_many_spec(t, 0) == prepend_stmts(stmts_view(out@), parse_many_spec(t, it@.pos)),
            ensures
                stmts_view(out@) == parse_many_spec(t, 0).unwrap(),
            decreases t.len() - it@.pos,
        {
            let ghost p = it@.pos;
            proof {
                lemma_blanks_end(t, p);
            }
            skip_blanks(&mut it);
            if it.peek().is_none() {
                proof {
                    assert(stmts_view(out@) + Seq::<StmtV>::empty() =~= stmts_view(out@));
                }
                break;
            }
            let ghost p1 = it@.pos;
            proof {
                lemma_hex_end(t, p1);
            }
            let label = read_label(&mut it);
            let ip: Vec<u32> = match label {
                Some(v) => vec![v],
                None => Vec::new(),
            };
            skip_spaces(&mut it);
            let ghost p2 = it@.pos;
            proof {
                lemma_spaces_end(t, if has_label(t, p1) { hex_end(t, p1) + 1 } else { p1 });
                lemma_kind_advances(t, p2);
                assert(ip@ == (if has_label(t, p1) {
                    seq![label_value(t, p1) as u32]
                } else {
                    Seq::<u32>::empty()
                }));
            }
            let st = Stmt::parse_it(&mut it).unwrap();
            let ghost q = it@.pos;
            skip_spaces(&mut it);
            proof {
                lemma_spaces_end(t, q);
            }
            let ghost before = stmts_view(out@);
            let new_stmt = Stmt { ip, kind: st.kind };
            out.push(new_stmt);
            proof {
                assert(stmts_view(out@) =~= before.push(new_stmt@));
                match parse_many_spec(t, it@.pos) {
                    Some(r) => {
                        assert(before + (seq![new_stmt@] + r) =~= stmts_view(out@) + r);
                    },
                    None => {},
                }
            }
        }
        out
    }
}

} // verus!
