use lifter::ast::{Call, Expr, Stmt, StmtKind};
use lifter::parse::{It, Parse};

#[test]
fn expr() {
    assert_eq!(Expr::must_parse("12").to_string(), "0x12");
    assert_eq!(Expr::must_parse("foo").to_string(), "foo");
    assert_eq!(Expr::must_parse("(foo bar)").to_string(), "(foo bar)");
    assert_eq!(Expr::must_parse("(+ 1 2)").to_string(), "(+ 1 2)");
}

#[test]
fn stmt() {
    assert_eq!(Stmt::must_parse("(set x 3)").to_string(), "(set x 3)");
}

#[test]
fn parse_numbers_are_hexadecimal() {
    assert_eq!(Expr::must_parse("12"), Expr::Val(0x12));
    assert_eq!(Expr::must_parse("100"), Expr::Val(0x100));
    assert_eq!(u32::must_parse("87654321"), 0x87654321);
}

#[test]
fn parse_nine_starts_a_name() {
    assert_eq!(Expr::must_parse("9"), Expr::name("9"));
}

#[test]
fn parse_call_structure() {
    let e = Expr::must_parse("(f a 1 (g b))");
    let expected = Expr::call(
        "f",
        vec![Expr::name("a"), Expr::Val(1), Expr::call("g", vec![Expr::name("b")])],
    );
    assert_eq!(e, expected);
}

#[test]
fn parse_set_is_an_assignment() {
    let k = StmtKind::must_parse("(set eax (^ eax ebx))");
    assert_eq!(
        k,
        StmtKind::Assign(
            Expr::name("eax"),
            Expr::call("^", vec![Expr::name("eax"), Expr::name("ebx")])
        )
    );
    let k = StmtKind::must_parse("(foo x)");
    assert_eq!(k, StmtKind::Do(Expr::call("foo", vec![Expr::name("x")])));
}

#[test]
fn parse_jmp_is_a_jump() {
    let k = StmtKind::must_parse("(jmp (jne) 2)");
    assert_eq!(k, StmtKind::Jmp(Box::new(Call { func: "jne".to_string(), args: vec![] }), Expr::Val(2)));
    assert_eq!(k.to_string(), "(jmp (jne) 2)");
}

#[test]
fn parse_many_reads_labels() {
    let stmts = Stmt::parse_many("1f: (set x 1)\n  (foo x)\n\n2: (bar)  ");
    assert_eq!(stmts.len(), 3);
    assert_eq!(stmts[0].ip, vec![0x1f]);
    assert_eq!(stmts[1].ip, Vec::<u32>::new());
    assert_eq!(stmts[2].ip, vec![2]);
    assert_eq!(stmts[1].kind, StmtKind::Do(Expr::call("foo", vec![Expr::name("x")])));
    assert_eq!(stmts[2].kind, StmtKind::Do(Expr::call("bar", vec![])));
}

#[test]
fn parse_name_roundtrips_through_text() {
    let n = lifter::text::Name::must_parse("abc");
    assert_eq!(n.as_str(), "abc");
}

#[test]
fn parse_it_fails_at_end_or_on_other_characters() {
    let mut it = It::new("");
    assert_eq!(Expr::parse_it(&mut it), None);
    let mut it = It::new(" x");
    assert_eq!(Expr::parse_it(&mut it), None);
    let mut it = It::new("(f a");
    assert_eq!(Call::parse_it(&mut it), None);
}

#[test]
fn parse_it_stops_after_the_value() {
    let mut it = It::new("(f a) rest");
    let c = Call::parse_it(&mut it).unwrap();
    assert_eq!(Expr::Call(Box::new(c)), Expr::call("f", vec![Expr::name("a")]));
    assert_eq!(it.peek(), Some(' '));
}

#[test]
fn parse_jmp_of_another_shape_is_a_call() {
    let k = StmtKind::must_parse("(jmp 1 2)");
    assert_eq!(k, StmtKind::Do(Expr::call("jmp", vec![Expr::Val(1), Expr::Val(2)])));
}
