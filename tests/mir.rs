use std::collections::BTreeSet;

use duckalog::ast::{Ast, Atom, Const, Rel, Rule, Term, Var};
use duckalog::mir::{Error, Mir};

fn var(s: &str) -> Term {
    Term::Var(Var::new(s.to_string()).unwrap())
}

fn cst(s: &str) -> Term {
    Term::Const(Const::new(s.to_string()).unwrap())
}

fn atom(rel: &str, terms: Vec<Term>) -> Atom {
    Atom::new(Rel::new(rel.to_string()), terms)
}

fn fact(rel: &str, cs: &[&str]) -> Rule {
    Rule::new(atom(rel, cs.iter().map(|c| cst(c)).collect()), Vec::new())
}

fn facts(m: &Mir) -> BTreeSet<(String, Vec<String>)> {
    let mut out = BTreeSet::new();
    for (rel, tuples) in m.facts() {
        for t in tuples {
            out.insert((
                rel.as_str().to_string(),
                t.iter().map(|c| c.as_str().to_string()).collect(),
            ));
        }
    }
    out
}

fn copy_rule() -> Rule {
    Rule::new(atom("s", vec![var("X")]), vec![atom("r", vec![var("X")])])
}

#[test]
fn facts_and_rules_are_split() {
    let mir = Mir::new(
        Ast::new(vec![fact("r", &["a"]), copy_rule(), fact("r", &["b"])]).unwrap(),
    )
    .unwrap();
    let expected: BTreeSet<(String, Vec<String>)> = [("r", "a"), ("r", "b")]
        .iter()
        .map(|(r, c)| (r.to_string(), vec![c.to_string()]))
        .collect();
    assert_eq!(facts(&mir), expected);
    assert_eq!(mir.rules(), vec![copy_rule()]);
    assert!(mir.valid().is_ok());
}

#[test]
fn repeated_rules_collapse() {
    let once = Mir::new(Ast::new(vec![fact("r", &["a"]), copy_rule()]).unwrap()).unwrap();
    let twice = Mir::new(
        Ast::new(vec![fact("r", &["a"]), copy_rule(), fact("r", &["a"]), copy_rule()]).unwrap(),
    )
    .unwrap();
    assert_eq!(facts(&once), facts(&twice));
    assert_eq!(twice.rules().len(), 1);
    assert_eq!(twice.facts().len(), 1);
    assert_eq!(twice.facts()[0].1.len(), 1);
}

#[test]
fn ungrounded_fact_is_refused() {
    let ast = Ast::new(vec![Rule::new(atom("r", vec![var("X")]), Vec::new())]).unwrap();
    assert_eq!(Mir::new(ast).unwrap_err(), Error::Ungrounded);
    let ast = Ast::new(vec![Rule::new(atom("r", vec![var("X")]), Vec::new())]).unwrap();
    assert_eq!(Mir::new_unchecked(ast).unwrap_err(), Error::Ungrounded);
}

#[test]
fn adding_and_clearing_facts() {
    let mut mir = Mir::new(Ast::new(vec![copy_rule()]).unwrap()).unwrap();
    assert!(mir.facts().is_empty());
    let r = Rel::new("r".to_string());
    mir.add_fact(&r, vec![Const::new_unchecked("a".to_string())]);
    mir.add_fact(&r, vec![Const::new_unchecked("a".to_string())]);
    mir.add_fact(&r, vec![Const::new_unchecked("b".to_string())]);
    assert_eq!(facts(&mir).len(), 2);
    mir.clear_facts();
    assert!(mir.facts().is_empty());
    assert_eq!(mir.rules().len(), 1);
}

#[test]
fn arities_cover_facts_and_heads() {
    let ast = Ast::new(vec![
        fact("r", &["a", "b"]),
        Rule::new(atom("s", vec![var("X")]), vec![atom("r", vec![var("X"), var("Y")])]),
        Rule::new(atom("t", vec![]), vec![atom("s", vec![var("X")])]),
    ])
    .unwrap();
    let mir = Mir::new(ast).unwrap();
    let arities: BTreeSet<(String, usize)> = mir
        .arities()
        .into_iter()
        .map(|(r, n)| (r.as_str().to_string(), n))
        .collect();
    let expected: BTreeSet<(String, usize)> =
        [("r", 2), ("s", 1), ("t", 0)].iter().map(|(r, n)| (r.to_string(), *n)).collect();
    assert_eq!(arities, expected);
}
