use lifter::ast::{Call, Expr, Var};
use lifter::names::NameMap;
use lifter::parse::Parse;
use lifter::text::Name;

fn name(s: &str) -> Name {
    Name::must_parse(s)
}

#[test]
fn name_map_reads_what_was_written() {
    let mut m = NameMap::new();
    assert_eq!(m.get(&name("eax")), None);
    m.insert(name("eax"), Var(3));
    m.insert(name("ebx"), Var(4));
    assert_eq!(m.get(&name("eax")), Some(Var(3)));
    m.insert(name("eax"), Var(7));
    assert_eq!(m.get(&name("eax")), Some(Var(7)));
    assert_eq!(m.get(&name("ebx")), Some(Var(4)));
    assert_eq!(m.len(), 2);
    assert_eq!(m.name_at(0).as_str(), "eax");
    assert_eq!(m.var_at(1), Var(4));
}

#[test]
fn expr_from_conversions() {
    let e: Expr = name("a").into();
    assert_eq!(e, Expr::name("a"));
    assert_eq!(Expr::from(5u32), Expr::Val(5));
    assert_eq!(Expr::from(Var(2)), Expr::Var(Var(2)));
    let c = Call { func: "f".to_string(), args: vec![] };
    assert_eq!(Expr::from(c), Expr::call("f", vec![]));
}
