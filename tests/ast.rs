use duckalog::ast::{Ast, Atom, Const, Error, Rel, Rule, Term, Var};

fn null_atom() -> Atom {
    Atom::new(Rel::new(String::from("r")), Vec::new())
}

fn null_fact() -> Rule {
    Rule::new(null_atom(), Vec::new())
}

fn unary_atom() -> Atom {
    Atom::new(
        Rel::new(String::from("r")),
        vec![Term::Const(Const::new_unchecked(String::from("c")))],
    )
}

fn unary_fact() -> Rule {
    Rule::new(unary_atom(), Vec::new())
}

fn var(s: &str) -> Term {
    Term::Var(Var::new(s.to_string()).unwrap())
}

fn cst(s: &str) -> Term {
    Term::Const(Const::new(s.to_string()).unwrap())
}

fn atom(rel: &str, terms: Vec<Term>) -> Atom {
    Atom::new(Rel::new(rel.to_string()), terms)
}

#[test]
fn print_nullary_fact() {
    assert_eq!("r() :- .", &null_fact().to_string())
}

#[test]
fn print_unary_fact() {
    assert_eq!("r(c) :- .", &unary_fact().to_string())
}

#[test]
fn nullary_prog_ok() {
    let prog = Ast::new(vec![null_fact()]).unwrap();
    assert_eq!(Ast::new_unchecked(vec![null_fact()]), prog);
    assert_eq!(vec![&null_atom()], prog.atoms());
}

#[test]
fn unary_prog_ok() {
    let prog = Ast::new(vec![unary_fact()]).unwrap();
    assert_eq!(Ast::new_unchecked(vec![unary_fact()]), prog);
    assert_eq!(vec![&unary_atom()], prog.atoms());
}

#[test]
fn const_and_var_case() {
    assert!(Const::valid("abc"));
    assert!(!Const::valid("Abc"));
    assert!(!Const::valid(""));
    assert!(Var::valid("X"));
    assert!(!Var::valid("x"));
    assert!(!Var::valid(""));
    assert!(Const::new("Foo".to_string()).is_none());
    assert_eq!(Const::new("foo".to_string()).unwrap().as_str(), "foo");
    assert!(Var::new("foo".to_string()).is_none());
    assert_eq!(Var::new("Foo".to_string()).unwrap().as_str(), "Foo");
}

#[test]
fn print_rule_with_body() {
    let rule = Rule::new(
        atom("path", vec![var("X"), var("Z")]),
        vec![
            atom("path", vec![var("X"), var("Y")]),
            atom("edge", vec![var("Y"), cst("c")]),
        ],
    );
    assert_eq!(rule.to_string(), "path(X, Z) :- path(X, Y), edge(Y, c).");
    assert_eq!(atom("edge", vec![var("Y"), cst("c")]).to_string(), "edge(Y, c)");
}

#[test]
fn ground_atoms() {
    assert!(atom("r", vec![cst("a"), var("X")]).ground().is_none());
    let g = atom("r", vec![cst("a"), cst("b")]).ground().unwrap();
    let expected = duckalog::ast::GroundAtom::new(
        Rel::new("r".to_string()),
        vec![Const::new_unchecked("a".to_string()), Const::new_unchecked("b".to_string())],
    );
    assert_eq!(g, expected);
    assert!(Rule::new(null_atom(), Vec::new()).is_fact());
    assert!(!Rule::new(null_atom(), vec![null_atom()]).is_fact());
}

#[test]
fn arity_mismatch_is_an_error() {
    let rules = vec![
        Rule::new(atom("r", vec![cst("a")]), Vec::new()),
        Rule::new(atom("s", vec![]), vec![atom("t", vec![var("X")])]),
        Rule::new(atom("s", vec![]), vec![atom("r", vec![var("X"), var("Y")])]),
    ];
    let err = Ast::new(rules).unwrap_err();
    assert_eq!(
        err,
        Error::Arity {
            relation: Rel::new("r".to_string()),
            arity1: 1,
            arity2: 2,
        }
    );
}

#[test]
fn atoms_in_order_and_arities() {
    let rules = vec![
        Rule::new(
            atom("p", vec![var("X")]),
            vec![atom("q", vec![var("X"), var("Y")]), atom("r", vec![])],
        ),
        Rule::new(atom("q", vec![cst("a"), cst("b")]), Vec::new()),
    ];
    let prog = Ast::new(rules).unwrap();
    let names: Vec<String> = prog.atoms().iter().map(|a| a.to_string()).collect();
    assert_eq!(names, vec!["p(X)", "q(X, Y)", "r()", "q(a, b)"]);
    let arities: Vec<(String, usize)> = prog
        .arities()
        .into_iter()
        .map(|(r, n)| (r.as_str().to_string(), n))
        .collect();
    assert_eq!(
        arities,
        vec![("p".to_string(), 1), ("q".to_string(), 2), ("r".to_string(), 0)]
    );
    assert!(prog.valid().is_ok());
}
