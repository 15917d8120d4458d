use std::collections::BTreeSet;

use duckalog::ast::{Ast, Atom, Const, Rel, Rule, Term, Var};

fn cst(s: &str) -> Term {
    Term::Const(Const::new(s.to_string()).unwrap())
}
use duckalog::eval::{build_model, row_present, rows_to_tuples, Eval, EvalError};
use duckalog::mir::Mir;
use rusqlite::Connection;

fn null_atom() -> Atom {
    Atom::new(Rel::new(String::from("r")), Vec::new())
}

fn null_fact() -> Rule {
    Rule::new(null_atom(), Vec::new())
}

fn unary_atom() -> Atom {
    Atom::new(
        Rel::new(String::from("r")),
        vec![Term::Const(Const::new_unchecked(String::from("c")))],
    )
}

fn unary_fact() -> Rule {
    Rule::new(unary_atom(), Vec::new())
}

fn var(s: &str) -> Term {
    Term::Var(Var::new(s.to_string()).unwrap())
}

fn atom(rel: &str, terms: Vec<Term>) -> Atom {
    Atom::new(Rel::new(rel.to_string()), terms)
}

fn konst(s: &str) -> Const {
    Const::new(s.to_string()).unwrap()
}

fn count(conn: &Connection, sql: &str) -> usize {
    let n: i64 = conn.query_row(sql, [], |row| row.get(0)).unwrap();
    n as usize
}

type Model = Vec<(Rel, Vec<Vec<Const>>)>;

/// The tuples of `rel` in `m`, as sorted strings.
fn tuples(m: &Model, rel: &str) -> BTreeSet<Vec<String>> {
    let entries: Vec<&Vec<Vec<Const>>> = m
        .iter()
        .filter(|(r, _)| r.as_str() == rel)
        .map(|(_, ts)| ts)
        .collect();
    assert_eq!(entries.len(), 1);
    let set: BTreeSet<Vec<String>> = entries[0]
        .iter()
        .map(|t| t.iter().map(|c| c.as_str().to_string()).collect())
        .collect();
    assert_eq!(set.len(), entries[0].len());
    set
}

/// `path(X,Y) :- edge(X,Y). path(X,Z) :- path(X,Y), edge(Y,Z).` with the
/// given edges.
fn transitive_closure(edges: &[(String, String)]) -> Mir {
    let x = var("X");
    let y = var("Y");
    let z = var("Z");
    let ast = Ast::new(vec![
        Rule::new(
            atom("path", vec![x.clone(), y.clone()]),
            vec![atom("edge", vec![x.clone(), y.clone()])],
        ),
        Rule::new(
            atom("path", vec![x.clone(), z.clone()]),
            vec![atom("path", vec![x, y.clone()]), atom("edge", vec![y, z])],
        ),
    ])
    .unwrap();
    let mut mir = Mir::new(ast).unwrap();
    let edge = Rel::new("edge".to_string());
    for (a, b) in edges {
        mir.add_fact(&edge, vec![konst(a), konst(b)]);
    }
    mir
}

fn closure_of(edges: &[(String, String)]) -> BTreeSet<Vec<String>> {
    let mut set: BTreeSet<Vec<String>> = edges.iter().map(|(a, b)| vec![a.clone(), b.clone()]).collect();
    loop {
        let mut more = set.clone();
        for p in &set {
            for (a, b) in edges {
                if &p[1] == a {
                    more.insert(vec![p[0].clone(), b.clone()]);
                }
            }
        }
        if more.len() == set.len() {
            return set;
        }
        set = more;
    }
}

fn run(mir: Mir) -> (usize, Model, Connection) {
    let eval = Eval::new(Connection::open_in_memory().unwrap(), mir).unwrap();
    let iters = eval.go().unwrap();
    let model = eval.model().unwrap();
    (iters, model, eval.into_connection())
}

#[test]
fn test_nullary_init() {
    let prog = Mir::new(Ast::new(vec![null_fact()]).unwrap()).unwrap();
    let conn = Connection::open_in_memory().unwrap();
    let eval = Eval::new(conn, prog).unwrap();
    assert_eq!(1, eval.go().unwrap());
    let _m = eval.model().unwrap();
}

#[test]
fn test_unary_init() {
    let prog = Mir::new(Ast::new(vec![unary_fact()]).unwrap()).unwrap();
    let conn = Connection::open_in_memory().unwrap();
    let eval = Eval::new(conn, prog).unwrap();
    assert_eq!(1, eval.go().unwrap());
    let _m = eval.model().unwrap();
}

#[test]
fn test_same_fact() {
    let prog = Mir::new(Ast::new(vec![null_fact(), null_fact()]).unwrap()).unwrap();
    let conn = Connection::open_in_memory().unwrap();
    let eval = Eval::new(conn, prog).unwrap();
    let conn = eval.into_connection();
    let mut entries = conn.prepare("SELECT COUNT(*) from r;").unwrap();
    let n: i64 = entries
        .query([])
        .unwrap()
        .next()
        .unwrap()
        .unwrap()
        .get_unwrap(0);
    assert_eq!(1, n);
}

#[test]
fn test_nullary_copy() {
    let prog = Mir::new(
        Ast::new(vec![
            null_fact(),
            Rule::new(
                Atom::new(Rel::new(String::from("s")), Vec::new()),
                vec![null_atom()],
            ),
        ])
        .unwrap(),
    )
    .unwrap();
    let conn = Connection::open_in_memory().unwrap();
    let eval = Eval::new(conn, prog).unwrap();
    assert_eq!(2, eval.go().unwrap());
    let _m = eval.model().unwrap();
}

#[test]
fn null_fact_model() {
    let prog = Mir::new(Ast::new(vec![null_fact()]).unwrap()).unwrap();
    let (iters, m, _) = run(prog);
    assert_eq!(iters, 1);
    assert_eq!(tuples(&m, "r"), BTreeSet::from([Vec::<String>::new()]));
}

#[test]
fn same_fact_twice_model() {
    let prog = Mir::new(Ast::new(vec![null_fact(), null_fact()]).unwrap()).unwrap();
    let (_, m, conn) = run(prog);
    assert_eq!(tuples(&m, "r").len(), 1);
    assert_eq!(count(&conn, "SELECT COUNT(*) FROM r"), 1);
}

#[test]
fn unary_fact_twice_is_one_row() {
    let prog = Mir::new(Ast::new(vec![unary_fact(), unary_fact()]).unwrap()).unwrap();
    let eval = Eval::new(Connection::open_in_memory().unwrap(), prog).unwrap();
    let conn = eval.into_connection();
    assert_eq!(count(&conn, "SELECT COUNT(*) FROM r WHERE x0 = 'c'"), 1);
    assert_eq!(count(&conn, "SELECT COUNT(*) FROM r WHERE it = 0"), 1);
}

#[test]
fn nullary_copy_model() {
    let prog = Mir::new(
        Ast::new(vec![null_fact(), Rule::new(atom("s", vec![]), vec![null_atom()])]).unwrap(),
    )
    .unwrap();
    let (iters, m, _) = run(prog);
    assert_eq!(iters, 2);
    assert_eq!(tuples(&m, "r"), BTreeSet::from([Vec::<String>::new()]));
    assert_eq!(tuples(&m, "s"), BTreeSet::from([Vec::<String>::new()]));
}

fn line(n: usize) -> Vec<(String, String)> {
    (0..n).map(|i| (format!("c{}", i), format!("c{}", i + 1))).collect()
}

#[test]
fn closure_of_a_line() {
    for n in [1usize, 2, 5, 8] {
        let edges = line(n);
        let (_, m, _) = run(transitive_closure(&edges));
        let path = tuples(&m, "path");
        assert_eq!(path.len(), n * (n + 1) / 2);
        assert_eq!(path, closure_of(&edges));
    }
}

#[test]
fn closure_of_a_complete_graph() {
    for n in [1usize, 3, 5] {
        let mut edges = Vec::new();
        for i in 0..n {
            for j in 0..n {
                edges.push((format!("c{}", i), format!("c{}", j)));
            }
        }
        let (_, m, _) = run(transitive_closure(&edges));
        assert_eq!(tuples(&m, "path").len(), n * n);
    }
}

#[test]
fn disconnected_components() {
    let edges = vec![
        ("a".to_string(), "b".to_string()),
        ("c".to_string(), "d".to_string()),
    ];
    let (_, m, _) = run(transitive_closure(&edges));
    let expected = BTreeSet::from([
        vec!["a".to_string(), "b".to_string()],
        vec!["c".to_string(), "d".to_string()],
    ]);
    assert_eq!(tuples(&m, "path"), expected);
    assert_eq!(tuples(&m, "edge"), expected);
}

#[test]
fn rows_are_a_set_after_run() {
    let edges = vec![
        ("a".to_string(), "b".to_string()),
        ("b".to_string(), "c".to_string()),
        ("c".to_string(), "a".to_string()),
        ("a".to_string(), "d".to_string()),
    ];
    let (_, m, conn) = run(transitive_closure(&edges));
    let rows = count(&conn, "SELECT COUNT(*) FROM path");
    let distinct = count(&conn, "SELECT COUNT(*) FROM (SELECT DISTINCT x0, x1 FROM path)");
    assert_eq!(rows, distinct);
    assert_eq!(tuples(&m, "path").len(), rows);
    let repeated = count(
        &conn,
        "SELECT COUNT(*) FROM (SELECT x0, x1 FROM path GROUP BY x0, x1 HAVING COUNT(*) > 1)",
    );
    assert_eq!(repeated, 0);
}

#[test]
fn model_is_closed_and_minimal() {
    let edges = vec![
        ("a".to_string(), "b".to_string()),
        ("b".to_string(), "c".to_string()),
        ("c".to_string(), "b".to_string()),
        ("d".to_string(), "a".to_string()),
    ];
    let (_, m, _) = run(transitive_closure(&edges));
    let path = tuples(&m, "path");
    for (a, b) in &edges {
        assert!(path.contains(&vec![a.clone(), b.clone()]));
    }
    for p in &path {
        for (a, b) in &edges {
            if &p[1] == a {
                assert!(path.contains(&vec![p[0].clone(), b.clone()]));
            }
        }
    }
    assert_eq!(path, closure_of(&edges));
}

#[test]
fn iteration_numbers_of_rows() {
    let edges = line(4);
    let (iters, _, conn) = run(transitive_closure(&edges));
    assert_eq!(count(&conn, "SELECT COUNT(*) FROM edge WHERE it = 0"), 4);
    assert_eq!(count(&conn, "SELECT COUNT(*) FROM edge WHERE it <> 0"), 0);
    assert_eq!(count(&conn, "SELECT COUNT(*) FROM path WHERE it < 1"), 0);
    let last = format!("SELECT COUNT(*) FROM path WHERE it >= {}", iters);
    assert_eq!(count(&conn, &last), 0);
    let twice = "SELECT COUNT(*) FROM (SELECT x0, x1 FROM path GROUP BY x0, x1 HAVING COUNT(DISTINCT it) > 1)";
    assert_eq!(count(&conn, twice), 0);
    assert_eq!(count(&conn, "SELECT COUNT(*) FROM path"), 10);
}

#[test]
fn range_restriction_is_an_error() {
    let ast = Ast::new(vec![
        null_fact(),
        Rule::new(atom("s", vec![var("X")]), vec![null_atom()]),
    ])
    .unwrap();
    let mir = Mir::new(ast).unwrap();
    let eval = Eval::new(Connection::open_in_memory().unwrap(), mir).unwrap();
    assert!(matches!(eval.go(), Err(EvalError::RangeRestriction)));
}

#[test]
fn model_lists_empty_relations() {
    let ast = Ast::new(vec![
        null_fact(),
        Rule::new(atom("s", vec![]), vec![atom("t", vec![])]),
        Rule::new(atom("t", vec![]), vec![atom("s", vec![])]),
    ]);
    // `t` heads a rule but has no facts; `s` too.
    let mir = Mir::new(ast.unwrap()).unwrap();
    let (iters, m, _) = run(mir);
    assert_eq!(iters, 1);
    assert!(tuples(&m, "s").is_empty());
    assert!(tuples(&m, "t").is_empty());
    assert_eq!(tuples(&m, "r").len(), 1);
}

#[test]
fn program_is_kept_by_the_evaluator() {
    let mir = transitive_closure(&line(2));
    let mut eval = Eval::new(Connection::open_in_memory().unwrap(), mir).unwrap();
    eval.clear_facts();
    let prog = eval.into_program();
    assert!(prog.facts().is_empty());
    assert_eq!(prog.rules().len(), 2);
}

#[test]
fn body_constants_filter_rows() {
    // r(a, d). r(b, c). s(X) :- r(X, c).
    let ast = Ast::new(vec![
        Rule::new(atom("r", vec![cst("a"), cst("d")]), Vec::new()),
        Rule::new(atom("r", vec![cst("b"), cst("c")]), Vec::new()),
        Rule::new(atom("s", vec![var("X")]), vec![atom("r", vec![var("X"), cst("c")])]),
    ])
    .unwrap();
    let (_, m, _) = run(Mir::new(ast).unwrap());
    assert_eq!(tuples(&m, "s"), BTreeSet::from([vec!["b".to_string()]]));
}

#[test]
fn nullary_head_from_several_rows_is_one_row() {
    // r(a). r(b). s :- r(X).
    let ast = Ast::new(vec![
        Rule::new(atom("r", vec![cst("a")]), Vec::new()),
        Rule::new(atom("r", vec![cst("b")]), Vec::new()),
        Rule::new(atom("s", vec![]), vec![atom("r", vec![var("X")])]),
    ])
    .unwrap();
    let (iters, m, conn) = run(Mir::new(ast).unwrap());
    assert_eq!(iters, 2);
    assert_eq!(count(&conn, "SELECT COUNT(*) FROM s"), 1);
    assert_eq!(tuples(&m, "s").len(), 1);
}

#[test]
fn relations_stay_after_clearing_facts() {
    let mir = transitive_closure(&line(3));
    let mut eval = Eval::new(Connection::open_in_memory().unwrap(), mir).unwrap();
    eval.clear_facts();
    eval.go().unwrap();
    let m = eval.model().unwrap();
    assert_eq!(tuples(&m, "edge").len(), 3);
    assert_eq!(tuples(&m, "path").len(), 6);
}

#[test]
fn empty_program_has_an_empty_model() {
    let mir = Mir::new(Ast::new(Vec::new()).unwrap()).unwrap();
    let (iters, m, _) = run(mir);
    assert_eq!(iters, 1);
    assert!(m.is_empty());
}

#[test]
fn counts_decide_presence() {
    assert!(!row_present(0));
    assert!(row_present(1));
    assert!(row_present(3));
}

#[test]
fn rows_become_tuples_and_a_model() {
    let rows = vec![
        vec!["a".to_string(), "b".to_string()],
        vec!["c".to_string(), "d".to_string()],
        vec!["a".to_string(), "b".to_string()],
    ];
    let ts = rows_to_tuples(&rows);
    assert_eq!(ts.len(), 3);
    assert_eq!(ts[1][0].as_str(), "c");
    assert_eq!(ts[1][1].as_str(), "d");
    let rels = vec![(Rel::new("p".to_string()), 2), (Rel::new("q".to_string()), 0)];
    let m = build_model(&rels, &vec![rows, Vec::new()]);
    assert_eq!(m.len(), 2);
    let p: BTreeSet<Vec<String>> = tuples(&m, "p");
    assert_eq!(
        p,
        BTreeSet::from([
            vec!["a".to_string(), "b".to_string()],
            vec!["c".to_string(), "d".to_string()],
        ])
    );
    assert!(tuples(&m, "q").is_empty());
}
