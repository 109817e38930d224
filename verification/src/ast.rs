//! The IR: expressions, statements, and their abstract values.

use vstd::prelude::*;
use crate::text::{Name, name_chars, name_clone, name_new};
pub use crate::visit::{visit_expr, visit_expr_mut, visit_stmt_expr, visit_stmt_expr_mut};

verus! {

/// An SSA variable, numbered from 1.
#[derive(Clone, Copy, Debug, PartialEq, Eq, Hash)]
pub struct Var(pub u16);

impl Var {
    /// The variable numbered one above `self`.
    pub fn next(self) -> (res: Var)
        requires
            self.0 < u16::MAX,
        ensures
            res.0 == self.0 + 1,
    {
        Var(self.0 + 1)
    }
}

/// A call of an operator or function on arguments.
#[derive(Debug, PartialEq, Eq)]
pub struct Call {
    pub func: String,
    pub args: Vec<Expr>,
}

/// An expression: a number, a register name, an SSA variable, a call, or a
/// placeholder for what could not be lifted.
#[derive(Debug, PartialEq, Eq)]
pub enum Expr {
    Val(u32),
    Name(Name),
    Var(Var),
    Call(Box<Call>),
    Todo(String),
}

/// A statement with the addresses of the instructions it stands for.
#[derive(Debug, PartialEq, Eq)]
pub struct Stmt {
    /// Instruction addresses represented by this statement, in source order.
    pub ip: Vec<u32>,
    pub kind: StmtKind,
}

/// What a statement does: evaluate, assign to a location, define a
/// variable, jump on a condition, or stand for an instruction not lifted.
#[derive(Debug, PartialEq, Eq)]
pub enum StmtKind {
    Do(Expr),
    Assign(Expr, Expr),
    Let(Var, Expr),
    Jmp(Box<Call>, Expr),
    Raw(String),
}

/// The abstract value of a call.
pub struct CallV {
    pub func: Seq<char>,
    pub args: Seq<ExprV>,
}

/// The abstract value of an expression: names and strings as characters.
pub enum ExprV {
    Val(u32),
    Name(Seq<char>),
    Var(u16),
    Call(CallV),
    Todo(Seq<char>),
}

/// The abstract value of a statement kind.
pub enum StmtKindV {
    Do(ExprV),
    Assign(ExprV, ExprV),
    Let(u16, ExprV),
    Jmp(CallV, ExprV),
    Raw(Seq<char>),
}

/// The abstract value of a statement.
pub struct StmtV {
    pub ip: Seq<u32>,
    pub kind: StmtKindV,
}

/// The abstract value of an expression.
pub open spec fn expr_view(e: Expr) -> ExprV
    decreases e,
{
    match e {
        Expr::Val(v) => ExprV::Val(v),
        Expr::Name(n) => ExprV::Name(name_chars(n)),
        Expr::Var(v) => ExprV::Var(v.0),
        Expr::Call(c) => ExprV::Call(CallV { func: c.func@, args: args_view(c.args@) }),
        Expr::Todo(m) => ExprV::Todo(m@),
    }
}

/// The abstract values of a list of arguments.
pub open spec fn args_view(args: Seq<Expr>) -> Seq<ExprV>
    decreases args,
{
    if args.len() == 0 {
        Seq::empty()
    } else {
        args_view(args.drop_last()).push(expr_view(args.last()))
    }
}

/// The abstract value of a call.
pub open spec fn call_view(c: Call) -> CallV {
    CallV { func: c.func@, args: args_view(c.args@) }
}

impl View for Expr {
    type V = ExprV;

    open spec fn view(&self) -> ExprV {
        expr_view(*self)
    }
}

impl View for Call {
    type V = CallV;

    open spec fn view(&self) -> CallV {
        call_view(*self)
    }
}

impl View for StmtKind {
    type V = StmtKindV;

    open spec fn view(&self) -> StmtKindV {
        match *self {
            StmtKind::Do(e) => StmtKindV::Do(e@),
            StmtKind::Assign(d, v) => StmtKindV::Assign(d@, v@),
            StmtKind::Let(x, v) => StmtKindV::Let(x.0, v@),
            StmtKind::Jmp(c, d) => StmtKindV::Jmp(call_view(*c), d@),
            StmtKind::Raw(m) => StmtKindV::Raw(m@),
        }
    }
}

impl View for Stmt {
    type V = StmtV;

    open spec fn view(&self) -> StmtV {
        StmtV { ip: self.ip@, kind: self.kind@ }
    }
}

/// The abstract value of a sequence of statements.
pub open spec fn stmts_view(s: Seq<Stmt>) -> Seq<StmtV> {
    s.map_values(|st: Stmt| st@)
}

/// `args_view` maps each argument to its abstract value.
pub broadcast proof fn lemma_args_view(args: Seq<Expr>)
    ensures
        #[trigger] args_view(args).len() == args.len(),
        forall|i: int| 0 <= i < args.len() ==> #[trigger] args_view(args)[i] == expr_view(args[i]),
    decreases args.len(),
{
    if args.len() > 0 {
        lemma_args_view(args.drop_last());
    }
}

/// The abstract value of a list that was extended by one argument.
pub proof fn lemma_args_view_push(args: Seq<Expr>, e: Expr)
    ensures
        args_view(args.push(e)) == args_view(args).push(expr_view(e)),
{
    assert(args.push(e).drop_last() =~= args);
}

/// The abstract values of a prefix grown by one argument.
pub proof fn lemma_args_view_take(args: Seq<Expr>, i: int)
    requires
        0 <= i < args.len(),
    ensures
        args_view(args.take(i + 1)) == args_view(args.take(i)).push(expr_view(args[i])),
{
    assert(args.take(i + 1).drop_last() =~= args.take(i));
}

/// A deep copy of an expression.
pub fn clone_expr(e: &Expr) -> (res: Expr)
    ensures
        res@ == e@,
    decreases e,
{
    match e {
        Expr::Val(v) => Expr::Val(*v),
        Expr::Name(n) => Expr::Name(name_clone(n)),
        Expr::Var(v) => Expr::Var(*v),
        Expr::Call(c) => Expr::Call(Box::new(clone_call(c))),
        Expr::Todo(m) => Expr::Todo(m.clone()),
    }
}

/// A deep copy of a call.
pub fn clone_call(c: &Call) -> (res: Call)
    ensures
        res@ == c@,
    decreases c,
{
    let args = clone_args(&c.args);
    Call { func: c.func.clone(), args }
}

/// A deep copy of a list of arguments.
pub fn clone_args(args: &Vec<Expr>) -> (res: Vec<Expr>)
    ensures
        args_view(res@) == args_view(args@),
    decreases args,
{
    let mut res: Vec<Expr> = Vec::new();
    let mut i: usize = 0;
    while i < args.len()
        invariant
            i <= args.len(),
            args_view(res@) == args_view(args@.take(i as int)),
        decreases args.len() - i,
    {
        assert(decreases_to!(args => args[i as int]));
        let e = clone_expr(&args[i]);
        proof {
            lemma_args_view_push(res@, e);
            lemma_args_view_take(args@, i as int);
        }
        res.push(e);
        i += 1;
    }
    assert(args@.take(args.len() as int) =~= args@);
    res
}


impl Clone for Expr {
    fn clone(&self) -> (res: Self)
        ensures
            res@ == self@,
    {
        clone_expr(self)
    }
}

impl Clone for Call {
    fn clone(&self) -> (res: Self)
        ensures
            res@ == self@,
    {
        clone_call(self)
    }
}

/// A deep copy of a statement kind.
pub fn clone_kind(k: &StmtKind) -> (res: StmtKind)
    ensures
        res@ == k@,
{
    match k {
        StmtKind::Do(e) => StmtKind::Do(clone_expr(e)),
        StmtKind::Assign(d, v) => StmtKind::Assign(clone_expr(d), clone_expr(v)),
        StmtKind::Let(x, v) => StmtKind::Let(*x, clone_expr(v)),
        StmtKind::Jmp(c, d) => StmtKind::Jmp(Box::new(clone_call(c)), clone_expr(d)),
        StmtKind::Raw(m) => StmtKind::Raw(m.clone()),
    }
}

impl Clone for StmtKind {
    fn clone(&self) -> (res: Self)
        ensures
            res@ == self@,
    {
        clone_kind(self)
    }
}

impl Clone for Stmt {
    fn clone(&self) -> (res: Self)
        ensures
            res@ == self@,
    {
        Stmt { ip: self.ip.clone(), kind: clone_kind(&self.kind) }
    }
}

/// Whether two expressions have the same abstract value.
pub fn expr_eq(a: &Expr, b: &Expr) -> (res: bool)
    ensures
        res == (a@ == b@),
    decreases a,
{
    match (a, b) {
        (Expr::Val(x), Expr::Val(y)) => *x == *y,
        (Expr::Name(x), Expr::Name(y)) => crate::text::name_eq(x, y),
        (Expr::Var(x), Expr::Var(y)) => x.0 == y.0,
        (Expr::Call(x), Expr::Call(y)) => call_eq(x, y),
        (Expr::Todo(x), Expr::Todo(y)) => *x == *y,
        _ => false,
    }
}

/// Whether two calls have the same abstract value.
pub fn call_eq(a: &Call, b: &Call) -> (res: bool)
    ensures
        res == (a@ == b@),
    decreases a,
{
    if a.func != b.func {
        return false;
    }
    args_eq(&a.args, &b.args)
}

/// Whether two argument lists have the same abstract value.
pub fn args_eq(a: &Vec<Expr>, b: &Vec<Expr>) -> (res: bool)
    ensures
        res == (args_view(a@) == args_view(b@)),
    decreases a,
{
    proof {
        lemma_args_view(a@);
        lemma_args_view(b@);
    }
    if a.len() != b.len() {
        return false;
    }
    let mut i: usize = 0;
    while i < a.len()
        invariant
            i <= a.len(),
            a.len() == b.len(),
            forall|j: int| 0 <= j < i ==> expr_view(#[trigger] a@[j]) == expr_view(b@[j]),
        decreases a.len() - i,
    {
        assert(decreases_to!(a => a[i as int]));
        if !expr_eq(&a[i], &b[i]) {
            proof {
                lemma_args_view(a@);
                lemma_args_view(b@);
            }
            assert(args_view(a@)[i as int] != args_view(b@)[i as int]);
            return false;
        }
        i += 1;
    }
    assert(args_view(a@) =~= args_view(b@));
    true
}

impl Expr {
    /// A call of `func` on `args`.
    pub fn call(func: &str, args: Vec<Expr>) -> (res: Expr)
        ensures
            res@ == ExprV::Call(CallV { func: func@, args: args_view(args@) }),
    {
        Expr::Call(Box::new(Call { func: func.to_owned(), args }))
    }

    /// The expression that names `name`.
    pub fn name(name: &str) -> (res: Expr)
        ensures
            res@ == ExprV::Name(name@),
    {
        Expr::Name(name_new(name))
    }
}

impl From<u32> for Expr {
    fn from(value: u32) -> (res: Expr) {
        Expr::Val(value)
    }
}

impl vstd::std_specs::convert::FromSpecImpl<u32> for Expr {
    open spec fn obeys_from_spec() -> bool {
        true
    }

    open spec fn from_spec(v: u32) -> Expr {
        Expr::Val(v)
    }
}

impl From<Name> for Expr {
    fn from(name: Name) -> (res: Expr) {
        Expr::Name(name)
    }
}

impl vstd::std_specs::convert::FromSpecImpl<Name> for Expr {
    open spec fn obeys_from_spec() -> bool {
        true
    }

    open spec fn from_spec(v: Name) -> Expr {
        Expr::Name(v)
    }
}

impl From<Var> for Expr {
    fn from(var: Var) -> (res: Expr) {
        Expr::Var(var)
    }
}

impl vstd::std_specs::convert::FromSpecImpl<Var> for Expr {
    open spec fn obeys_from_spec() -> bool {
        true
    }

    open spec fn from_spec(v: Var) -> Expr {
        Expr::Var(v)
    }
}

impl From<Call> for Expr {
    fn from(value: Call) -> (res: Expr) {
        Expr::Call(Box::new(value))
    }
}

impl vstd::std_specs::convert::FromSpecImpl<Call> for Expr {
    open spec fn obeys_from_spec() -> bool {
        true
    }

    open spec fn from_spec(v: Call) -> Expr {
        Expr::Call(Box::new(v))
    }
}

} // verus!
