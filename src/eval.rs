//! The evaluator: it stores each relation as a table of an embedded SQLite
//! database, loads the facts, and runs the compiled rules to a fixpoint.

use vstd::prelude::*;

use rusqlite::Connection;
use rusqlite::Error as SqlError;

use crate::ast::{
    const_views, distinct_names, lemma_table_view, rule_views, table_view, Const, Rel, Rule,
    RuleModel,
};
use crate::mir::{arities_of, facts_held, has_head, lists_facts, tuple_views, Facts, FactsModel, Mir};
use crate::sql::{
    check_range_restriction, create_table, eval_rule_query, exists_query, insert_fact_query, range_restricted, rule_sql,
    Backend,
};
use crate::text::string_views;

verus! {

#[verifier::external_type_specification]
#[verifier::external_body]
pub struct ExConnection(rusqlite::Connection);

#[verifier::external_type_specification]
#[verifier::external_body]
pub struct ExSqlError(SqlError);

/// SQLite numbers rows itself.
pub const BACKEND: Backend = Backend::AutoIncrement;

/// How many prepared statements the connection keeps.
pub const STATEMENT_CACHE: usize = 512;

#[derive(Debug)]
pub enum EvalError {
    /// The database refused a statement.
    Sql(SqlError),
    /// A head variable does not occur in the rule's body.
    RangeRestriction,
    /// A count would overflow a `usize`: the iterations, or the columns of
    /// a table.
    Overflow,
}

/// Relies on `Connection::execute_batch`: runs the statements of `sql`.
#[verifier::external_body]
fn execute_batch(conn: &Connection, sql: &str) -> (r: Result<(), SqlError>) {
    conn.execute_batch(sql)
}

/// Relies on `Connection::execute`: runs one statement without parameters and
/// returns the number of rows it changed.
#[verifier::external_body]
fn execute(conn: &Connection, sql: &str) -> (r: Result<usize, SqlError>) {
    conn.execute(sql, [])
}

/// Relies on `Connection::prepare_cached` and `CachedStatement::query_row`:
/// the integer in the first column of the first row of a cached query.
#[verifier::external_body]
fn query_count(conn: &Connection, sql: &str) -> (r: Result<i64, SqlError>) {
    conn.prepare_cached(sql)?.query_row([], |row| row.get(0))
}

/// Relies on `Connection::set_prepared_statement_cache_capacity`.
#[verifier::external_body]
fn set_statement_cache(conn: &Connection, capacity: usize) {
    conn.set_prepared_statement_cache_capacity(capacity)
}

/// Relies on `Connection::prepare`, `Statement::query_map` and `Row::get`:
/// the rows of a query, each as the text of `width` columns from column
/// `first` on.
#[verifier::external_body]
fn query_text_rows(conn: &Connection, sql: &str, first: usize, width: usize) -> (r: Result<
    Vec<Vec<String>>,
    SqlError,
>)
    requires
        first + width <= usize::MAX,
    ensures
        r matches Ok(rows) ==> forall|i: int| 0 <= i < rows@.len() ==> (#[trigger] rows@[i])@.len() == width,
{
    let mut stmt = conn.prepare(sql)?;
    let rows = stmt.query_map([], |row| (first..first + width).map(|i| row.get(i)).collect())?;
    rows.collect()
}

/// Runs `sql`, reporting a refusal as [`EvalError::Sql`].
fn run_batch(conn: &Connection, sql: &str) -> (r: Result<(), EvalError>)
    ensures
        r matches Err(e) ==> e is Sql,
{
    match execute_batch(conn, sql) {
        Ok(()) => Ok(()),
        Err(e) => Err(EvalError::Sql(e)),
    }
}

/// Creates, in one transaction, a table for each relation of `arities` with
/// its number of data columns.
fn create_tables(conn: &Connection, arities: &Vec<(Rel, usize)>) -> (r: Result<(), EvalError>)
    ensures
        r matches Err(e) ==> e is Sql,
{
    run_batch(conn, "BEGIN;")?;
    let mut i: usize = 0;
    while i < arities.len()
        invariant
            i <= arities.len(),
        decreases arities.len() - i,
    {
        let stmt = create_table(&arities[i].0, arities[i].1, BACKEND);
        run_batch(conn, stmt.as_str())?;
        i = i + 1;
    }
    run_batch(conn, "COMMIT;")
}

/// Whether a row is stored, given the count of rows that match it.
pub fn row_present(count: i64) -> (r: bool)
    ensures
        r == (count >= 1),
{
    count >= 1
}

/// Whether `rel` already holds the tuple `consts`, by counting the rows that
/// [`exists_query`] matches.
fn fact_exists(conn: &Connection, rel: &Rel, consts: &Vec<Const>) -> (r: Result<bool, EvalError>)
    ensures
        r matches Err(e) ==> e is Sql,
{
    let q = exists_query(rel, consts);
    match query_count(conn, q.as_str()) {
        Ok(n) => Ok(row_present(n)),
        Err(e) => Err(EvalError::Sql(e)),
    }
}

/// Stores the tuple `consts` in `rel` with iteration number 0.
fn insert_fact(conn: &Connection, rel: &Rel, consts: &Vec<Const>) -> (r: Result<(), EvalError>)
    ensures
        r matches Err(e) ==> e is Sql,
{
    let q = insert_fact_query(rel, consts, BACKEND);
    match execute(conn, q.as_str()) {
        Ok(_) => Ok(()),
        Err(e) => Err(EvalError::Sql(e)),
    }
}

/// Stores the tuple unless the relation holds it already, so that loading
/// a fact twice leaves one row.
fn insert_fact_if_not_exists(conn: &Connection, rel: &Rel, consts: &Vec<Const>) -> (r: Result<(), EvalError>)
    ensures
        r matches Err(e) ==> e is Sql,
{
    if fact_exists(conn, rel, consts)? {
        return Ok(());
    }
    insert_fact(conn, rel, consts)
}

/// Loads, in one transaction, every fact of `prog`.
fn insert_facts(conn: &Connection, prog: &Mir) -> (r: Result<(), EvalError>)
    ensures
        r matches Err(e) ==> e is Sql,
{
    run_batch(conn, "BEGIN;")?;
    set_statement_cache(conn, STATEMENT_CACHE);
    let facts = prog.facts();
    let mut i: usize = 0;
    while i < facts.len()
        invariant
            i <= facts.len(),
        decreases facts.len() - i,
    {
        let tuples = &facts[i].1;
        let mut j: usize = 0;
        while j < tuples.len()
            invariant
                i < facts.len(),
                j <= tuples.len(),
            decreases tuples.len() - j,
        {
            insert_fact_if_not_exists(conn, &facts[i].0, &tuples[j])?;
            j = j + 1;
        }
        i = i + 1;
    }
    run_batch(conn, "COMMIT;")
}

/// The statements of one rule at iteration `k`, one per body atom.
pub open spec fn rule_statements(rule: RuleModel, k: nat, backend: Backend) -> Seq<Seq<char>> {
    Seq::new(rule.body.len(), |d: int| rule_sql(rule, k, d as nat, backend))
}

/// The statements of iteration `k`: those of each rule, rule after rule.
pub open spec fn iteration_sql(rules: Seq<RuleModel>, k: nat, backend: Backend) -> Seq<Seq<char>>
    decreases rules.len(),
{
    if rules.len() == 0 {
        Seq::empty()
    } else {
        iteration_sql(rules.drop_last(), k, backend) + rule_statements(rules.last(), k, backend)
    }
}

pub open spec fn all_range_restricted(rules: Seq<RuleModel>) -> bool {
    forall|i: int| 0 <= i < rules.len() ==> range_restricted(#[trigger] rules[i])
}

pub open spec fn rules_range_restricted(rules: Set<RuleModel>) -> bool {
    forall|r: RuleModel| #[trigger] rules.contains(r) ==> range_restricted(r)
}

/// Compiles every rule for iteration `it`; `None` when some rule has a head
/// variable that its body lacks.
pub fn iteration_queries(rules: &Vec<Rule>, it: usize, backend: Backend) -> (r: Option<Vec<String>>)
    requires
        it >= 1,
    ensures
        r is Some <==> all_range_restricted(rule_views(rules@)),
        r matches Some(qs) ==> string_views(qs@) == iteration_sql(rule_views(rules@), it as nat, backend),
{
    let ghost rv = rule_views(rules@);
    let mut out: Vec<String> = Vec::new();
    let mut i: usize = 0;
    while i < rules.len()
        invariant
            i <= rules.len(),
            it >= 1,
            rv == rule_views(rules@),
            all_range_restricted(rv.take(i as int)),
            string_views(out@) =~= iteration_sql(rv.take(i as int), it as nat, backend),
        decreases rules.len() - i,
    {
        assert(rv[i as int] == rules@[i as int]@);
        if !check_range_restriction(&rules[i]) {
            assert(!all_range_restricted(rv));
            return None;
        }
        let qs = eval_rule_query(&rules[i], it, backend);
        let ghost start = string_views(out@);
        let ghost stmts = rule_statements(rv[i as int], it as nat, backend);
        let mut d: usize = 0;
        while d < qs.len()
            invariant
                d <= qs.len(),
                qs@.len() == stmts.len(),
                stmts == rule_statements(rv[i as int], it as nat, backend),
                rv[i as int] == rules@[i as int]@,
                forall|e: int| 0 <= e < qs@.len() ==> (#[trigger] qs@[e])@ == rule_sql(rules@[i as int]@, it as nat, e as nat, backend),
                string_views(out@) =~= start + stmts.take(d as int),
            decreases qs.len() - d,
        {
            let ghost before = string_views(out@);
            out.push(qs[d].clone());
            assert(string_views(out@) =~= before.push(stmts[d as int]));
            assert(stmts.take(d + 1) =~= stmts.take(d as int).push(stmts[d as int]));
            d = d + 1;
        }
        assert(stmts.take(d as int) =~= stmts);
        assert(rv.take(i + 1).drop_last() =~= rv.take(i as int));
        assert(all_range_restricted(rv.take(i + 1))) by {
            assert forall|j: int| 0 <= j < i + 1 implies range_restricted(#[trigger] rv.take(i + 1)[j]) by {
                if j < i {
                    assert(rv.take(i + 1)[j] == rv.take(i as int)[j]);
                }
            }
        }
        i = i + 1;
    }
    assert(rv.take(i as int) =~= rv);
    Some(out)
}

/// The query that reads every row of `rel`.
pub open spec fn select_all_sql(rel: Seq<char>) -> Seq<char> {
    "SELECT DISTINCT * from "@ + rel + ";"@
}

pub fn select_all_query(rel: &Rel) -> (r: String)
    ensures
        r@ == select_all_sql(rel@),
{
    let mut q = String::new();
    q.append("SELECT DISTINCT * from ");
    q.append(rel.as_str());
    q.append(";");
    q
}

/// Runs every statement of one iteration in one transaction; returns how
/// many rows each statement inserted.
fn run_iteration(conn: &Connection, queries: &Vec<String>) -> (r: Result<Vec<usize>, EvalError>)
    ensures
        r matches Ok(counts) ==> counts@.len() == queries@.len(),
        r matches Err(e) ==> e is Sql,
{
    run_batch(conn, "BEGIN;")?;
    let mut counts: Vec<usize> = Vec::with_capacity(queries.len());
    let mut i: usize = 0;
    while i < queries.len()
        invariant
            i <= queries.len(),
            counts@.len() == i,
        decreases queries.len() - i,
    {
        match execute(conn, queries[i].as_str()) {
            Ok(n) => {
                counts.push(n);
            },
            Err(e) => {
                return Err(EvalError::Sql(e));
            },
        }
        i = i + 1;
    }
    run_batch(conn, "END;")?;
    Ok(counts)
}

/// Whether an iteration whose statements inserted `counts` rows reached the
/// fixpoint: no statement inserted a row.
pub fn fixpoint_reached(counts: &Vec<usize>) -> (r: bool)
    ensures
        r == forall|i: int| 0 <= i < counts@.len() ==> #[trigger] counts@[i] == 0,
{
    let mut i: usize = 0;
    while i < counts.len()
        invariant
            i <= counts.len(),
            forall|j: int| 0 <= j < i ==> #[trigger] counts@[j] == 0,
        decreases counts.len() - i,
    {
        if counts[i] > 0 {
            return false;
        }
        i = i + 1;
    }
    true
}

/// `rel` has facts or heads a rule.
pub open spec fn in_program(facts: FactsModel, rules: Set<RuleModel>, rel: Seq<char>) -> bool {
    facts.contains_key(rel) || has_head(rules, rel)
}

/// `r` names each relation that has facts or heads a rule once, and no other,
/// each with distinct tuples.
pub open spec fn lists_relations(r: Seq<(Rel, Vec<Vec<Const>>)>, facts: FactsModel, rules: Set<RuleModel>) -> bool {
    &&& forall|i: int|
        0 <= i < r.len() ==> in_program(facts, rules, (#[trigger] r[i]).0@) && tuple_views(r[i].1@).no_duplicates()
    &&& forall|k: Seq<char>|
        #[trigger] in_program(facts, rules, k) ==> exists|i: int| 0 <= i < r.len() && (#[trigger] r[i]).0@ == k
    &&& forall|i: int, j: int| 0 <= i < j < r.len() ==> (#[trigger] r[i]).0@ != (#[trigger] r[j]).0@
}

/// Each tuple of a relation has that relation's arity.
pub open spec fn tuples_have_arities(held: FactsModel, arities: Map<Seq<char>, nat>) -> bool {
    forall|k: Seq<char>, t: Seq<Seq<char>>|
        held.contains_key(k) && #[trigger] held[k].contains(t) ==> t.len() == arities[k]
}

/// `m` lists, once each, the relations of `rels` with distinct tuples of
/// their arities.
pub open spec fn lists_model(m: Seq<(Rel, Vec<Vec<Const>>)>, rels: Seq<(Rel, usize)>) -> bool {
    exists|held: FactsModel|
        #[trigger] lists_facts(m, held) && held.dom() == table_view(rels).dom() && tuples_have_arities(
            held,
            table_view(rels),
        )
}

/// Row `q` read for relation `p` has the relation's arity.
pub open spec fn rows_have_widths(rels: Seq<(Rel, usize)>, rows: Seq<Vec<Vec<String>>>) -> bool {
    forall|p: int, q: int|
        0 <= p < rows.len() && 0 <= q < rows[p]@.len() ==> (#[trigger] rows[p]@[q])@.len() == rels[p].1
}

/// The set of the rows, each as the sequence of its columns.
pub open spec fn row_set(rows: Seq<Vec<String>>) -> Set<Seq<Seq<char>>> {
    rows.map_values(|w: Vec<String>| string_views(w@)).to_set()
}

/// Relation `rels[i]` to the set of the rows `rows[i]`.
pub open spec fn rows_model(rels: Seq<(Rel, usize)>, rows: Seq<Vec<Vec<String>>>) -> FactsModel
    decreases rels.len(),
{
    if rels.len() == 0 || rows.len() == 0 {
        FactsModel::empty()
    } else {
        rows_model(rels.drop_last(), rows.drop_last()).insert(rels.last().0@, row_set(rows.last()@))
    }
}

proof fn lemma_rows_model(rels: Seq<(Rel, usize)>, rows: Seq<Vec<Vec<String>>>)
    requires
        distinct_names(rels),
        rows.len() == rels.len(),
    ensures
        forall|k: Seq<char>|
            rows_model(rels, rows).contains_key(k) <==> exists|p: int| 0 <= p < rels.len() && (#[trigger] rels[p]).0@ == k,
        forall|p: int| 0 <= p < rels.len() ==> rows_model(rels, rows)[(#[trigger] rels[p]).0@] == row_set(rows[p]@),
    decreases rels.len(),
{
    if rels.len() > 0 {
        let u = rels.drop_last();
        let w = rows.drop_last();
        assert(distinct_names(u)) by {
            assert forall|p: int, q: int| 0 <= p < q < u.len() implies (#[trigger] u[p]).0@ != (#[trigger] u[q]).0@ by {
                assert(u[p] == rels[p] && u[q] == rels[q]);
            }
        }
        lemma_rows_model(u, w);
        assert(rows_model(rels, rows) == rows_model(u, w).insert(rels.last().0@, row_set(rows.last()@)));
        assert forall|k: Seq<char>|
            rows_model(rels, rows).contains_key(k) <==> exists|p: int| 0 <= p < rels.len() && (#[trigger] rels[p]).0@ == k by {
            if rows_model(rels, rows).contains_key(k) && k != rels.last().0@ {
                assert(rows_model(u, w).contains_key(k));
                let p = choose|p: int| 0 <= p < u.len() && (#[trigger] u[p]).0@ == k;
                assert(rels[p] == u[p]);
            }
            if exists|p: int| 0 <= p < rels.len() && (#[trigger] rels[p]).0@ == k {
                let p = choose|p: int| 0 <= p < rels.len() && (#[trigger] rels[p]).0@ == k;
                if p < u.len() {
                    assert(u[p] == rels[p]);
                }
            }
        }
        assert forall|p: int| 0 <= p < rels.len() implies rows_model(rels, rows)[(#[trigger] rels[p]).0@] == row_set(
            rows[p]@,
        ) by {
            if p < u.len() {
                assert(u[p] == rels[p]);
                assert(w[p] == rows[p]);
                assert(rels[p].0@ != rels[rels.len() - 1].0@);
            }
        }
    }
}

/// Each row as a tuple of constants, in order.
pub fn rows_to_tuples(rows: &Vec<Vec<String>>) -> (r: Vec<Vec<Const>>)
    ensures
        tuple_views(r@) == rows@.map_values(|w: Vec<String>| string_views(w@)),
{
    let mut out: Vec<Vec<Const>> = Vec::with_capacity(rows.len());
    let mut i: usize = 0;
    while i < rows.len()
        invariant
            i <= rows.len(),
            tuple_views(out@) =~= rows@.map_values(|w: Vec<String>| string_views(w@)).take(i as int),
        decreases rows.len() - i,
    {
        let row = &rows[i];
        let mut tuple: Vec<Const> = Vec::with_capacity(row.len());
        let mut f: usize = 0;
        while f < row.len()
            invariant
                f <= row.len(),
                const_views(tuple@) =~= string_views(row@).take(f as int),
            decreases row.len() - f,
        {
            let ghost before = tuple@;
            tuple.push(Const::new_unchecked(row[f].clone()));
            assert(const_views(tuple@) =~= const_views(before).push(row@[f as int]@));
            f = f + 1;
        }
        assert(string_views(row@).take(f as int) =~= string_views(row@));
        let ghost prev = out@;
        out.push(tuple);
        assert(tuple_views(out@) =~= tuple_views(prev).push(string_views(rows@[i as int]@)));
        i = i + 1;
    }
    assert(rows@.map_values(|w: Vec<String>| string_views(w@)).take(i as int) =~= rows@.map_values(
        |w: Vec<String>| string_views(w@),
    ));
    out
}

/// The model from the rows read back: relation `rels[i].0` with the set of
/// the rows `rows[i]`, each relation once, each tuple once.
pub fn build_model(rels: &Vec<(Rel, usize)>, rows: &Vec<Vec<Vec<String>>>) -> (r: Vec<(Rel, Vec<Vec<Const>>)>)
    requires
        distinct_names(rels@),
        rows@.len() == rels@.len(),
    ensures
        lists_facts(r@, rows_model(rels@, rows@)),
{
    let mut m = Facts::new();
    let mut i: usize = 0;
    while i < rels.len()
        invariant
            i <= rels.len(),
            rows@.len() == rels@.len(),
            distinct_names(rels@),
            facts_held(m) == rows_model(rels@.take(i as int), rows@.take(i as int)),
        ensures
            i == rels.len(),
        decreases rels.len() - i,
    {
        let ghost start = facts_held(m);
        let ghost key = rels@[i as int].0@;
        proof {
            assert(rels@.take(i + 1).drop_last() =~= rels@.take(i as int));
            assert(rows@.take(i + 1).drop_last() =~= rows@.take(i as int));
            lemma_rows_model(rels@.take(i as int), rows@.take(i as int));
            assert forall|p: int| 0 <= p < i implies (#[trigger] rels@.take(i as int)[p]).0@ != key by {
                assert(rels@.take(i as int)[p] == rels@[p]);
            }
        }
        proof {
            assert(!start.contains_key(key));
        }
        m.add_relation(rels[i].0.clone());
        let tuples = rows_to_tuples(&rows[i]);
        let ghost tv = tuple_views(tuples@);
        assert(tv.take(0).to_set() =~= Set::<Seq<Seq<char>>>::empty());
        let mut j: usize = 0;
        while j < tuples.len()
            invariant
                j <= tuples.len(),
                i < rels.len(),
                key == rels@[i as int].0@,
                tv == tuple_views(tuples@),
                facts_held(m) == start.insert(key, tv.take(j as int).to_set()),
            decreases tuples.len() - j,
        {
            let t = tuples[j].clone();
            assert(const_views(t@) =~= tv[j as int]);
            m.insert(rels[i].0.clone(), t);
            proof {
                assert(tv.take(j + 1) =~= tv.take(j as int).push(tv[j as int]));
                tv.take(j as int).lemma_push_to_set_commute(tv[j as int]);
                assert(tv.take(j + 1).to_set() =~= tv.take(j as int).to_set().insert(tv[j as int]));
                assert(facts_held(m) =~= start.insert(key, tv.take(j + 1).to_set()));
            }
            j = j + 1;
        }
        proof {
            assert(tv.take(j as int) =~= tv);
            assert(facts_held(m) =~= rows_model(rels@.take(i + 1), rows@.take(i + 1)));
        }
        i = i + 1;
    }
    assert(rels@.take(i as int) =~= rels@);
    assert(rows@.take(i as int) =~= rows@);
    m.entries()
}

/// A program loaded into a database.
#[derive(Debug)]
pub struct Eval {
    conn: Connection,
    prog: Mir,
    relations: Vec<(Rel, usize)>,
}

impl Eval {
    /// The program.
    pub closed spec fn program(self) -> Mir {
        self.prog
    }

    #[verifier::type_invariant]
    spec fn inv(self) -> bool {
        distinct_names(self.relations@)
    }

    /// The relations that have a table, each with its arity.
    pub closed spec fn relations(self) -> Seq<(Rel, usize)> {
        self.relations@
    }

    /// Clears the facts of the program; the database keeps them, and the
    /// relations stay.
    pub fn clear_facts(&mut self)
        ensures
            final(self).program().facts_view() == FactsModel::empty(),
            final(self).program().rules_view() == old(self).program().rules_view(),
            final(self).relations() == old(self).relations(),
    {
        proof {
            use_type_invariant(&*self);
        }
        self.prog.clear_facts()
    }

    /// Creates a table for every relation of `prog` on `conn`, which should
    /// hold none yet, and stores every fact with iteration number 0.
    pub fn new(conn: Connection, prog: Mir) -> (r: Result<Eval, EvalError>)
        ensures
            r matches Ok(e) ==> e.program() == prog && distinct_names(e.relations()) && arities_of(
                prog.facts_view(),
                prog.rules_view(),
                table_view(e.relations()),
            ),
            r matches Err(e) ==> e is Sql,
    {
        let relations = prog.arities();
        create_tables(&conn, &relations)?;
        insert_facts(&conn, &prog)?;
        Ok(Eval { conn, prog, relations })
    }

    /// Runs the rules, iteration after iteration, until one iteration
    /// inserts nothing; returns the number of iterations, that last one
    /// included.
    pub fn go(&self) -> (r: Result<usize, EvalError>)
        ensures
            r matches Ok(k) ==> k >= 1,
            !rules_range_restricted(self.program().rules_view()) <==> r matches Err(
                EvalError::RangeRestriction,
            ),
    {
        let rules = self.prog.rules();
        let mut iters: usize = 0;
        while iters < usize::MAX
            invariant
                rule_views(rules@).to_set() == self.program().rules_view(),
                iters == 0 || rules_range_restricted(self.program().rules_view()),
            decreases usize::MAX - iters,
        {
            iters = iters + 1;
            proof {
                let rv = rule_views(rules@);
                if rules_range_restricted(self.program().rules_view()) {
                    assert forall|i: int| 0 <= i < rv.len() implies range_restricted(#[trigger] rv[i]) by {
                        assert(rv.to_set().contains(rv[i]));
                    }
                } else {
                    let bad = choose|r: RuleModel| #[trigger] self.program().rules_view().contains(r) && !range_restricted(r);
                    assert(rv.to_set().contains(bad));
                    let i = choose|i: int| 0 <= i < rv.len() && rv[i] == bad;
                    assert(!all_range_restricted(rv));
                }
            }
            let queries = match iteration_queries(&rules, iters, BACKEND) {
                Some(qs) => qs,
                None => {
                    return Err(EvalError::RangeRestriction);
                },
            };
            let counts = run_iteration(&self.conn, &queries)?;
            if fixpoint_reached(&counts) {
                return Ok(iters);
            }
        }
        Err(EvalError::Overflow)
    }

    /// The minimal model, after [`Eval::go`]: each relation that has a
    /// table once, with or without tuples, and the distinct rows its table
    /// holds, in no particular order (see [`build_model`]).
    pub fn model(&self) -> (r: Result<Vec<(Rel, Vec<Vec<Const>>)>, EvalError>)
        ensures
            self.relations().len() == 0 ==> r is Ok,
            r matches Ok(m) ==> lists_model(m@, self.relations()),
            r matches Err(e) ==> e is Sql || e is Overflow,
            r matches Err(EvalError::Overflow) ==> exists|i: int|
                0 <= i < self.relations().len() && (#[trigger] self.relations()[i]).1 > usize::MAX - 2,
    {
        proof {
            use_type_invariant(self);
        }
        let relations = &self.relations;
        let mut all_rows: Vec<Vec<Vec<String>>> = Vec::new();
        let mut i: usize = 0;
        while i < relations.len()
            invariant
                i <= relations.len(),
                relations@ == self.relations(),
                distinct_names(relations@),
                all_rows@.len() == i,
                forall|p: int| 0 <= p < i ==> (#[trigger] relations@[p]).1 <= usize::MAX - 2,
                rows_have_widths(relations@, all_rows@),
            decreases relations.len() - i,
        {
            let arity = relations[i].1;
            if arity > usize::MAX - 2 {
                return Err(EvalError::Overflow);
            }
            let q = select_all_query(&relations[i].0);
            let rows = match query_text_rows(&self.conn, q.as_str(), 2, arity) {
                Ok(rows) => rows,
                Err(e) => {
                    return Err(EvalError::Sql(e));
                },
            };
            let ghost before = all_rows@;
            all_rows.push(rows);
            assert forall|p: int, q: int|
                0 <= p < all_rows@.len() && 0 <= q < all_rows@[p]@.len() implies (#[trigger] all_rows@[p]@[q])@.len()
                == relations@[p].1 by {
                if p < i {
                    assert(all_rows@[p] == before[p]);
                }
            }
            i = i + 1;
        }
        proof {
            lemma_table_view(relations@);
        }
        let m = build_model(relations, &all_rows);
        proof {
            let held = rows_model(relations@, all_rows@);
            lemma_rows_model(relations@, all_rows@);
            assert(held.dom() =~= table_view(relations@).dom()) by {
                assert forall|k: Seq<char>| held.contains_key(k) <==> table_view(relations@).contains_key(k) by {
                    if table_view(relations@).contains_key(k) {
                        let p = choose|p: int| 0 <= p < relations@.len() && (#[trigger] relations@[p]).0@ == k;
                    }
                }
            }
            assert forall|k: Seq<char>, t: Seq<Seq<char>>|
                held.contains_key(k) && #[trigger] held[k].contains(t) implies t.len() == table_view(relations@)[k] by {
                let p = choose|p: int| 0 <= p < relations@.len() && (#[trigger] relations@[p]).0@ == k;
                let rs = all_rows@[p]@.map_values(|w: Vec<String>| string_views(w@));
                assert(rs.to_set().contains(t));
                let q = choose|q: int| 0 <= q < rs.len() && rs[q] == t;
                assert(all_rows@[p]@[q]@.len() == relations@[p].1);
            }
            assert(lists_facts(m@, held));
            assert(relations@ == self.relations());
            assert(tuples_have_arities(held, table_view(self.relations())));
            assert(held.dom() == table_view(self.relations()).dom());
            assert(lists_model(m@, self.relations()));
        }
        Ok(m)
    }

    /// Gives back the connection, with the tables.
    pub fn into_connection(self) -> (r: Connection) {
        self.conn
    }

    /// Gives back the program.
    pub fn into_program(self) -> (r: Mir)
        ensures
            r == self.program(),
    {
        self.prog
    }
}

} // verus!
