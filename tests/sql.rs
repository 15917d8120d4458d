use duckalog::ast::{Atom, Const, Rel, Rule, Term, Var};
use duckalog::eval::{fixpoint_reached, iteration_queries, select_all_query};
use duckalog::sql::{
    check_range_restriction, create_table, eval_rule_query, exists_query, insert_fact_query,
    Backend,
};

fn var(s: &str) -> Term {
    Term::Var(Var::new(s.to_string()).unwrap())
}

fn cst(s: &str) -> Term {
    Term::Const(Const::new(s.to_string()).unwrap())
}

fn atom(rel: &str, terms: Vec<Term>) -> Atom {
    Atom::new(Rel::new(rel.to_string()), terms)
}

fn rel(s: &str) -> Rel {
    Rel::new(s.to_string())
}

fn consts(cs: &[&str]) -> Vec<Const> {
    cs.iter().map(|c| Const::new(c.to_string()).unwrap()).collect()
}

fn path_step() -> Rule {
    Rule::new(
        atom("path", vec![var("X"), var("Z")]),
        vec![
            atom("path", vec![var("X"), var("Y")]),
            atom("edge", vec![var("Y"), var("Z")]),
        ],
    )
}

#[test]
fn table_schema_autoincrement() {
    assert_eq!(
        create_table(&rel("r"), 2, Backend::AutoIncrement),
        "CREATE TABLE r (id INTEGER PRIMARY KEY AUTOINCREMENT, it INTEGER, x0 TEXT NOT NULL, \
         x1 TEXT NOT NULL); CREATE INDEX r_delta_idx ON r (it); CREATE INDEX r0_idx ON r (x0); \
         CREATE INDEX r1_idx ON r (x1);"
    );
    assert_eq!(
        create_table(&rel("r"), 0, Backend::AutoIncrement),
        "CREATE TABLE r (id INTEGER PRIMARY KEY AUTOINCREMENT, it INTEGER); \
         CREATE INDEX r_delta_idx ON r (it);"
    );
}

#[test]
fn table_schema_sequence() {
    assert_eq!(
        create_table(&rel("r"), 1, Backend::Sequence),
        "CREATE SEQUENCE r_seq; CREATE TABLE r (id INTEGER PRIMARY KEY DEFAULT NEXTVAL('r_seq'), \
         it INTEGER, x0 TEXT NOT NULL); CREATE INDEX r_delta_idx ON r (it); \
         CREATE INDEX r0_idx ON r (x0);"
    );
}

#[test]
fn table_schema_many_columns() {
    let sql = create_table(&rel("w"), 12, Backend::AutoIncrement);
    assert!(sql.contains("x11 TEXT NOT NULL); CREATE INDEX w_delta_idx"));
    assert!(sql.ends_with(" CREATE INDEX w11_idx ON w (x11);"));
}

#[test]
fn fact_existence_query() {
    assert_eq!(
        exists_query(&rel("r"), &consts(&["a", "b"])),
        "SELECT COUNT(*) from r WHERE r.x0 = 'a' AND r.x1 = 'b';"
    );
    assert_eq!(exists_query(&rel("r"), &Vec::new()), "SELECT COUNT(*) from r;");
}

#[test]
fn fact_insertion() {
    assert_eq!(
        insert_fact_query(&rel("r"), &consts(&["a", "b"]), Backend::AutoIncrement),
        "INSERT INTO r (it, x0, x1) VALUES (0, 'a', 'b');"
    );
    assert_eq!(
        insert_fact_query(&rel("r"), &consts(&["a", "b"]), Backend::Sequence),
        "INSERT INTO r VALUES (nextval('r_seq'), 0, 'a', 'b');"
    );
    assert_eq!(
        insert_fact_query(&rel("r"), &Vec::new(), Backend::AutoIncrement),
        "INSERT INTO r (it) VALUES (0);"
    );
}

#[test]
fn rule_compiles_one_statement_per_body_atom() {
    let qs = eval_rule_query(&path_step(), 3, Backend::AutoIncrement);
    assert_eq!(
        qs,
        vec![
            "INSERT INTO path (it, x0, x1) SELECT 3, y0, y1 FROM (SELECT DISTINCT path0.x0 AS y0, \
             edge1.x1 AS y1 FROM path AS path0,edge AS edge1 WHERE path0.it = 2 AND \
             path0.x1 = edge1.x0 AND NOT EXISTS (SELECT * from path AS pre WHERE \
             pre.x0 = path0.x0 AND pre.x1 = edge1.x1));",
            "INSERT INTO path (it, x0, x1) SELECT 3, y0, y1 FROM (SELECT DISTINCT path0.x0 AS y0, \
             edge1.x1 AS y1 FROM path AS path0,edge AS edge1 WHERE edge1.it = 2 AND \
             path0.x1 = edge1.x0 AND NOT EXISTS (SELECT * from path AS pre WHERE \
             pre.x0 = path0.x0 AND pre.x1 = edge1.x1));",
        ]
    );
}

#[test]
fn rule_compiles_for_a_sequence_backend() {
    let qs = eval_rule_query(&path_step(), 12, Backend::Sequence);
    assert_eq!(qs.len(), 2);
    assert_eq!(
        qs[0],
        "INSERT INTO path SELECT nextval('path_seq'), 12, y0, y1 FROM (SELECT DISTINCT \
         path0.x0 AS y0, edge1.x1 AS y1 FROM path AS path0,edge AS edge1 WHERE path0.it = 11 \
         AND path0.x1 = edge1.x0 AND NOT EXISTS (SELECT * from path AS pre WHERE \
         pre.x0 = path0.x0 AND pre.x1 = edge1.x1));"
    );
}

#[test]
fn nullary_rule_compiles() {
    let rule = Rule::new(atom("s", vec![]), vec![atom("r", vec![])]);
    assert_eq!(
        eval_rule_query(&rule, 1, Backend::AutoIncrement),
        vec![
            "INSERT INTO s (it) SELECT 1 FROM (SELECT DISTINCT '' AS y0 FROM r AS r0 WHERE r0.it = 0 \
             AND true AND NOT EXISTS (SELECT * from s AS pre));"
        ]
    );
}

#[test]
fn repeated_variables_and_head_constants() {
    // p(X, c) :- q(X, X, Y), q(Y, Z, X).
    let rule = Rule::new(
        atom("p", vec![var("X"), cst("c")]),
        vec![
            atom("q", vec![var("X"), var("X"), var("Y")]),
            atom("q", vec![var("Y"), var("Z"), var("X")]),
        ],
    );
    let qs = eval_rule_query(&rule, 1, Backend::AutoIncrement);
    assert_eq!(
        qs[1],
        "INSERT INTO p (it, x0, x1) SELECT 1, y0, y1 FROM (SELECT DISTINCT q0.x0 AS y0, \
         'c' AS y1 FROM q AS q0,q AS q1 WHERE q1.it = 0 AND q0.x0 = q0.x1 AND \
         q0.x0 = q1.x2 AND q0.x2 = q1.x0 AND NOT EXISTS (SELECT * from p AS pre WHERE \
         pre.x0 = q0.x0 AND pre.x1 = 'c'));"
    );
}

#[test]
fn unrestricted_head_variable_is_refused() {
    let rule = Rule::new(atom("s", vec![var("X")]), vec![atom("r", vec![var("Y")])]);
    assert!(!check_range_restriction(&rule));
    assert!(check_range_restriction(&path_step()));
    let head_constant = Rule::new(atom("s", vec![cst("a")]), vec![atom("r", vec![var("Y")])]);
    assert!(check_range_restriction(&head_constant));
    assert!(iteration_queries(&vec![path_step(), rule], 1, Backend::AutoIncrement).is_none());
}

#[test]
fn iteration_statements_follow_the_rules() {
    let copy = Rule::new(atom("s", vec![]), vec![atom("r", vec![])]);
    let qs = iteration_queries(&vec![copy.clone(), path_step()], 2, Backend::AutoIncrement).unwrap();
    assert_eq!(qs.len(), 3);
    assert_eq!(qs[0], eval_rule_query(&copy, 2, Backend::AutoIncrement)[0]);
    assert_eq!(qs[1..].to_vec(), eval_rule_query(&path_step(), 2, Backend::AutoIncrement));
}

#[test]
fn model_query() {
    assert_eq!(select_all_query(&rel("path")), "SELECT DISTINCT * from path;");
}

#[test]
fn fixpoint_needs_no_insertions() {
    assert!(fixpoint_reached(&Vec::new()));
    assert!(fixpoint_reached(&vec![0, 0]));
    assert!(!fixpoint_reached(&vec![0, 3, 0]));
}

#[test]
fn body_constants_are_compared() {
    // s(X) :- r(X, c), r(c, X).
    let rule = Rule::new(
        atom("s", vec![var("X")]),
        vec![atom("r", vec![var("X"), cst("c")]), atom("r", vec![cst("c"), var("X")])],
    );
    let qs = eval_rule_query(&rule, 1, Backend::AutoIncrement);
    assert_eq!(
        qs[0],
        "INSERT INTO s (it, x0) SELECT 1, y0 FROM (SELECT DISTINCT r0.x0 AS y0 FROM r AS r0,r AS r1 \
         WHERE r0.it = 0 AND r0.x0 = r1.x1 AND r0.x1 = 'c' AND r1.x0 = 'c' AND NOT EXISTS \
         (SELECT * from s AS pre WHERE pre.x0 = r0.x0));"
    );
}
