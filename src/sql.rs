//! The SQL text that stores relations and evaluates rules: table schemas,
//! fact loading, and one semi-naive `INSERT ... SELECT` per body atom of a rule.

use vstd::prelude::*;

use crate::ast::{
    atom_views, const_views, term_views, Atom, AtomModel, Const, Rel, Rule, RuleModel, Term,
    TermModel,
};
use crate::text::{append_decimal, append_joined, concat_n, decimal, join, string_views};

verus! {

/// How a table's row identity is assigned.
#[derive(Clone, Copy, Debug, PartialEq, Eq, Structural)]
pub enum Backend {
    /// A sequence `REL_seq` per relation, drawn from in every insert.
    Sequence,
    /// The engine numbers rows itself; inserts name only the other columns.
    AutoIncrement,
}

/// `i |-> prefix + i`, in decimal.
pub open spec fn numbered(prefix: Seq<char>) -> spec_fn(nat) -> Seq<char> {
    |i: nat| prefix + decimal(i)
}

/// The column declarations `, xi TEXT NOT NULL`.
pub open spec fn column_decl() -> spec_fn(nat) -> Seq<char> {
    |i: nat| ", x"@ + decimal(i) + " TEXT NOT NULL"@
}

/// The index on column `xi` of `rel`.
pub open spec fn column_index(rel: Seq<char>) -> spec_fn(nat) -> Seq<char> {
    |i: nat| " CREATE INDEX "@ + rel + decimal(i) + "_idx ON "@ + rel + " (x"@ + decimal(i) + ");"@
}

/// The statements that create the table of `rel`, its indices and, with a
/// sequence backend, its sequence.
pub open spec fn table_sql(rel: Seq<char>, arity: nat, backend: Backend) -> Seq<char> {
    let (seq_decl, id) = match backend {
        Backend::Sequence => (
            "CREATE SEQUENCE "@ + rel + "_seq; "@,
            " DEFAULT NEXTVAL('"@ + rel + "_seq')"@,
        ),
        Backend::AutoIncrement => (Seq::empty(), " AUTOINCREMENT"@),
    };
    seq_decl + "CREATE TABLE "@ + rel + " (id INTEGER PRIMARY KEY"@ + id + ", it INTEGER"@ + concat_n(
        arity,
        column_decl(),
    ) + "); CREATE INDEX "@ + rel + "_delta_idx ON "@ + rel + " (it);"@ + concat_n(arity, column_index(rel))
}

/// Appends `prefix + i` for each `i < n`.
fn append_numbered(out: &mut String, prefix: &str, n: usize)
    ensures
        final(out)@ == old(out)@ + concat_n(n as nat, numbered(prefix@)),
{
    let ghost start = out@;
    let mut i: usize = 0;
    while i < n
        invariant
            i <= n,
            out@ == start + concat_n(i as nat, numbered(prefix@)),
        decreases n - i,
    {
        out.append(prefix);
        append_decimal(out, i);
        i = i + 1;
    }
}

/// The SQL that creates the table of `rel` with `arity` data columns.
pub fn create_table(rel: &Rel, arity: usize, backend: Backend) -> (r: String)
    ensures
        r@ == table_sql(rel@, arity as nat, backend),
{
    let mut out = String::new();
    let name = rel.as_str();
    match backend {
        Backend::Sequence => {
            out.append("CREATE SEQUENCE ");
            out.append(name);
            out.append("_seq; ");
        },
        Backend::AutoIncrement => {},
    }
    out.append("CREATE TABLE ");
    out.append(name);
    out.append(" (id INTEGER PRIMARY KEY");
    match backend {
        Backend::Sequence => {
            out.append(" DEFAULT NEXTVAL('");
            out.append(name);
            out.append("_seq')");
        },
        Backend::AutoIncrement => {
            out.append(" AUTOINCREMENT");
        },
    }
    out.append(", it INTEGER");
    let ghost mid = out@;
    let mut i: usize = 0;
    while i < arity
        invariant
            i <= arity,
            out@ == mid + concat_n(i as nat, column_decl()),
        decreases arity - i,
    {
        out.append(", x");
        append_decimal(&mut out, i);
        out.append(" TEXT NOT NULL");
        i = i + 1;
    }
    out.append("); CREATE INDEX ");
    out.append(name);
    out.append("_delta_idx ON ");
    out.append(name);
    out.append(" (it);");
    let ghost tail = out@;
    let mut j: usize = 0;
    while j < arity
        invariant
            j <= arity,
            name@ == rel@,
            out@ == tail + concat_n(j as nat, column_index(rel@)),
        decreases arity - j,
    {
        let ghost before = out@;
        out.append(" CREATE INDEX ");
        out.append(name);
        append_decimal(&mut out, j);
        out.append("_idx ON ");
        out.append(name);
        out.append(" (x");
        append_decimal(&mut out, j);
        out.append(");");
        assert(out@ =~= before + column_index(rel@)(j as nat));
        assert(concat_n((j + 1) as nat, column_index(rel@)) == concat_n(j as nat, column_index(rel@))
            + column_index(rel@)(j as nat));
        j = j + 1;
    }
    out
}

/// The conditions `rel.xi = 'ci'` that match a stored tuple.
pub open spec fn tuple_conditions(rel: Seq<char>, consts: Seq<Seq<char>>) -> Seq<Seq<char>> {
    Seq::new(consts.len(), |i: int| rel + ".x"@ + decimal(i as nat) + " = '"@ + consts[i] + "'"@)
}

/// The query that counts the rows of `rel` holding `consts`.
pub open spec fn exists_sql(rel: Seq<char>, consts: Seq<Seq<char>>) -> Seq<char> {
    "SELECT COUNT(*) from "@ + rel + (if consts.len() == 0 {
        Seq::empty()
    } else {
        " WHERE "@ + join(tuple_conditions(rel, consts), " AND "@)
    }) + ";"@
}

/// The query that counts the rows of `rel` whose data columns hold `consts`.
pub fn exists_query(rel: &Rel, consts: &Vec<Const>) -> (r: String)
    ensures
        r@ == exists_sql(rel@, const_views(consts@)),
{
    let ghost target = tuple_conditions(rel@, const_views(consts@));
    let mut conds: Vec<String> = Vec::new();
    let mut i: usize = 0;
    while i < consts.len()
        invariant
            i <= consts.len(),
            target == tuple_conditions(rel@, const_views(consts@)),
            string_views(conds@) =~= target.take(i as int),
        decreases consts.len() - i,
    {
        let mut c = String::new();
        c.append(rel.as_str());
        c.append(".x");
        append_decimal(&mut c, i);
        c.append(" = '");
        c.append(consts[i].as_str());
        c.append("'");
        let ghost before = conds@;
        conds.push(c);
        assert(string_views(conds@) =~= string_views(before).push(target[i as int]));
        i = i + 1;
    }
    assert(target.take(i as int) =~= target);
    let mut q = String::new();
    q.append("SELECT COUNT(*) from ");
    q.append(rel.as_str());
    if consts.len() > 0 {
        q.append(" WHERE ");
        append_joined(&mut q, &conds, " AND ");
    }
    q.append(";");
    q
}

/// `, 'c'` for each constant.
pub open spec fn quoted_list(consts: Seq<Seq<char>>) -> spec_fn(nat) -> Seq<char> {
    |i: nat| ", '"@ + consts[i as int] + "'"@
}

/// The statement that stores `consts` in `rel` with iteration number 0.
pub open spec fn insert_fact_sql(rel: Seq<char>, consts: Seq<Seq<char>>, backend: Backend) -> Seq<char> {
    let head = match backend {
        Backend::Sequence => "INSERT INTO "@ + rel + " VALUES (nextval('"@ + rel + "_seq'), 0"@,
        Backend::AutoIncrement => "INSERT INTO "@ + rel + " (it"@ + concat_n(consts.len(), numbered(", x"@))
            + ") VALUES (0"@,
    };
    head + concat_n(consts.len(), quoted_list(consts)) + ");"@
}

/// The statement that stores the tuple `consts` in `rel` as an initial fact.
pub fn insert_fact_query(rel: &Rel, consts: &Vec<Const>, backend: Backend) -> (r: String)
    ensures
        r@ == insert_fact_sql(rel@, const_views(consts@), backend),
{
    let ghost cv = const_views(consts@);
    let mut q = String::new();
    q.append("INSERT INTO ");
    q.append(rel.as_str());
    match backend {
        Backend::Sequence => {
            q.append(" VALUES (nextval('");
            q.append(rel.as_str());
            q.append("_seq'), 0");
        },
        Backend::AutoIncrement => {
            q.append(" (it");
            append_numbered(&mut q, ", x", consts.len());
            q.append(") VALUES (0");
        },
    }
    let ghost mid = q@;
    let mut i: usize = 0;
    while i < consts.len()
        invariant
            i <= consts.len(),
            cv == const_views(consts@),
            q@ == mid + concat_n(i as nat, quoted_list(cv)),
        decreases consts.len() - i,
    {
        q.append(", '");
        q.append(consts[i].as_str());
        q.append("'");
        i = i + 1;
    }
    q.append(");");
    q
}

/// An occurrence of a term in a rule body, with the column that holds it.
pub type Occurrence = (TermModel, Seq<char>);

/// The alias of the `i`-th body atom, of relation `rel`.
pub open spec fn alias(rel: Seq<char>, i: nat) -> Seq<char> {
    rel + decimal(i)
}

/// The qualified column that holds term `field` of body atom `i`.
pub open spec fn column(rel: Seq<char>, i: nat, field: nat) -> Seq<char> {
    alias(rel, i) + ".x"@ + decimal(field)
}

/// The occurrences of the terms of body atom `i`, in order.
pub open spec fn atom_occurrences(a: AtomModel, i: nat) -> Seq<Occurrence> {
    Seq::new(a.terms.len(), |f: int| (a.terms[f], column(a.rel, i, f as nat)))
}

/// Every term occurrence of a body, atom by atom, left to right.
pub open spec fn occurrences(body: Seq<AtomModel>) -> Seq<Occurrence>
    decreases body.len(),
{
    if body.len() == 0 {
        Seq::empty()
    } else {
        occurrences(body.drop_last()) + atom_occurrences(body.last(), (body.len() - 1) as nat)
    }
}

/// `j` is the first occurrence of `t`.
pub open spec fn is_first(occ: Seq<Occurrence>, t: TermModel, j: int) -> bool {
    0 <= j < occ.len() && occ[j].0 == t && forall|l: int| 0 <= l < j ==> (#[trigger] occ[l]).0 != t
}

/// The index of the first occurrence of `t`, or -1.
pub open spec fn first_occurrence(occ: Seq<Occurrence>, t: TermModel) -> int {
    if exists|j: int| is_first(occ, t, j) {
        choose|j: int| is_first(occ, t, j)
    } else {
        -1
    }
}

proof fn lemma_first_unique(occ: Seq<Occurrence>, t: TermModel, j: int)
    requires
        is_first(occ, t, j),
    ensures
        first_occurrence(occ, t) == j,
{
    let k = first_occurrence(occ, t);
    assert(is_first(occ, t, k));
    if k < j {
        assert(occ[k].0 != t);
    } else if j < k {
        assert(occ[j].0 != t);
    }
}

/// The equalities `c_j = c_l` from occurrence `j` to each later `l` of the
/// same term, from `l` on.
pub open spec fn equalities_from(occ: Seq<Occurrence>, j: int, l: int) -> Seq<Seq<char>>
    decreases occ.len() - l,
{
    if l < 0 || l >= occ.len() {
        Seq::empty()
    } else {
        (if occ[l].0 == occ[j].0 {
            seq![occ[j].1 + " = "@ + occ[l].1]
        } else {
            Seq::empty()
        }) + equalities_from(occ, j, l + 1)
    }
}

/// `col = 'c'` for an occurrence of the constant `c` in column `col`.
pub open spec fn constant_condition(o: Occurrence) -> Seq<Seq<char>> {
    match o.0 {
        TermModel::Const(c) => seq![o.1 + " = '"@ + c + "'"@],
        TermModel::Var(_) => Seq::empty(),
    }
}

/// At the first occurrence `j` of a variable, its column equated to the
/// columns of its later occurrences.
pub open spec fn variable_equalities(occ: Seq<Occurrence>, j: int) -> Seq<Seq<char>> {
    if occ[j].0 is Var && first_occurrence(occ, occ[j].0) == j {
        equalities_from(occ, j, j + 1)
    } else {
        Seq::empty()
    }
}

/// The unification conjuncts from occurrence `j` on: each constant's column
/// compared with the constant, and each variable's first column equated to
/// each later one, in order of occurrence.
pub open spec fn unification_from(occ: Seq<Occurrence>, j: int) -> Seq<Seq<char>>
    decreases occ.len() - j,
{
    if j < 0 || j >= occ.len() {
        Seq::empty()
    } else {
        constant_condition(occ[j]) + variable_equalities(occ, j) + unification_from(occ, j + 1)
    }
}

proof fn lemma_first_exists(occ: Seq<Occurrence>, l: int)
    requires
        0 <= l < occ.len(),
    ensures
        0 <= first_occurrence(occ, occ[l].0) <= l,
        is_first(occ, occ[l].0, first_occurrence(occ, occ[l].0)),
    decreases l,
{
    let t = occ[l].0;
    if exists|m: int| 0 <= m < l && occ[m].0 == t {
        let m = choose|m: int| 0 <= m < l && occ[m].0 == t;
        lemma_first_exists(occ, m);
    } else {
        assert(is_first(occ, t, l));
        lemma_first_unique(occ, t, l);
    }
}

proof fn lemma_equalities_contain(occ: Seq<Occurrence>, f: int, m: int, l: int)
    requires
        0 <= f < m <= l < occ.len(),
        occ[l].0 == occ[f].0,
    ensures
        equalities_from(occ, f, m).contains(occ[f].1 + " = "@ + occ[l].1),
    decreases l - m,
{
    let x = occ[f].1 + " = "@ + occ[l].1;
    let head: Seq<Seq<char>> = if occ[m].0 == occ[f].0 {
        seq![occ[f].1 + " = "@ + occ[m].1]
    } else {
        Seq::empty()
    };
    assert(equalities_from(occ, f, m) == head + equalities_from(occ, f, m + 1));
    if m == l {
        assert(head[0] == x);
        assert((head + equalities_from(occ, f, m + 1))[0] == x);
    } else {
        lemma_equalities_contain(occ, f, m + 1, l);
        let rest = equalities_from(occ, f, m + 1);
        let k = choose|k: int| 0 <= k < rest.len() && #[trigger] rest[k] == x;
        assert((head + rest)[head.len() + k] == x);
    }
}

proof fn lemma_unification_contains(occ: Seq<Occurrence>, j: int, f: int, x: Seq<char>)
    requires
        0 <= j <= f < occ.len(),
        constant_condition(occ[f]).contains(x) || variable_equalities(occ, f).contains(x),
    ensures
        unification_from(occ, j).contains(x),
    decreases f - j,
{
    let part = constant_condition(occ[j]) + variable_equalities(occ, j);
    let rest = unification_from(occ, j + 1);
    assert(unification_from(occ, j) == part + rest);
    if j == f {
        if constant_condition(occ[f]).contains(x) {
            let k = choose|k: int| 0 <= k < constant_condition(occ[f]).len() && #[trigger] constant_condition(occ[f])[k] == x;
            assert((part + rest)[k] == x);
        } else {
            let v = variable_equalities(occ, f);
            let k = choose|k: int| 0 <= k < v.len() && #[trigger] v[k] == x;
            assert(part[constant_condition(occ[f]).len() + k] == x);
            assert((part + rest)[constant_condition(occ[f]).len() + k] == x);
        }
    } else {
        lemma_unification_contains(occ, j + 1, f, x);
        let k = choose|k: int| 0 <= k < rest.len() && #[trigger] rest[k] == x;
        assert((part + rest)[part.len() + k] == x);
    }
}

/// Two occurrences of one term, the first before the second.
pub open spec fn same_term_pair(occ: Seq<Occurrence>, x: Seq<char>) -> bool {
    exists|a: int, b: int|
        0 <= a < b < occ.len() && occ[a].0 == occ[b].0 && x == occ[a].1 + " = "@ + occ[b].1
}

proof fn lemma_equalities_sound(occ: Seq<Occurrence>, f: int, m: int)
    requires
        0 <= f < m,
    ensures
        forall|x: Seq<char>| #[trigger] equalities_from(occ, f, m).contains(x) ==> same_term_pair(occ, x),
    decreases occ.len() - m,
{
    if m < occ.len() {
        lemma_equalities_sound(occ, f, m + 1);
        let head: Seq<Seq<char>> = if occ[m].0 == occ[f].0 {
            seq![occ[f].1 + " = "@ + occ[m].1]
        } else {
            Seq::empty()
        };
        let rest = equalities_from(occ, f, m + 1);
        assert(equalities_from(occ, f, m) == head + rest);
        assert forall|x: Seq<char>| #[trigger] equalities_from(occ, f, m).contains(x) implies same_term_pair(occ, x) by {
            let k = choose|k: int| 0 <= k < (head + rest).len() && #[trigger] (head + rest)[k] == x;
            if k < head.len() {
                assert(occ[f].0 == occ[m].0 && x == occ[f].1 + " = "@ + occ[m].1);
            } else {
                assert(rest[k - head.len()] == x);
                assert(rest.contains(x));
            }
        }
    }
}

/// The column of an occurrence of a constant, compared with that constant.
pub open spec fn constant_pair(occ: Seq<Occurrence>, x: Seq<char>) -> bool {
    exists|a: int| 0 <= a < occ.len() && #[trigger] constant_condition(occ[a]) == seq![x]
}

proof fn lemma_unification_sound(occ: Seq<Occurrence>, j: int)
    requires
        0 <= j,
    ensures
        forall|x: Seq<char>| #[trigger] unification_from(occ, j).contains(x) ==> same_term_pair(occ, x)
            || constant_pair(occ, x),
    decreases occ.len() - j,
{
    if j < occ.len() {
        lemma_unification_sound(occ, j + 1);
        lemma_equalities_sound(occ, j, j + 1);
        let cc = constant_condition(occ[j]);
        let ve = variable_equalities(occ, j);
        let part = cc + ve;
        let rest = unification_from(occ, j + 1);
        assert(unification_from(occ, j) == part + rest);
        assert forall|x: Seq<char>| #[trigger] unification_from(occ, j).contains(x) implies same_term_pair(occ, x)
            || constant_pair(occ, x) by {
            let k = choose|k: int| 0 <= k < (part + rest).len() && #[trigger] (part + rest)[k] == x;
            if k < cc.len() {
                assert(cc[k] == x);
                assert(cc =~= seq![x]);
            } else if k < part.len() {
                assert(ve[k - cc.len()] == x);
                assert(ve.contains(x));
                assert(equalities_from(occ, j, j + 1).contains(x));
            } else {
                assert(rest[k - part.len()] == x);
                assert(rest.contains(x));
            }
        }
    }
}

/// The unification conjuncts of a body realise its terms as conditions:
/// every column that holds a constant is compared with it, every occurrence
/// of a variable after its first is equated with the first, and every
/// conjunct is one of these.
pub proof fn lemma_unification_faithful(occ: Seq<Occurrence>)
    ensures
        forall|l: int|
            0 <= l < occ.len() && (#[trigger] occ[l]).0 is Const ==> unification_from(occ, 0).contains(
                occ[l].1 + " = '"@ + occ[l].0->Const_0 + "'"@,
            ),
        forall|l: int|
            0 <= l < occ.len() && occ[l].0 is Var && first_occurrence(occ, occ[l].0) < l
                ==> unification_from(occ, 0).contains(
                occ[first_occurrence(occ, #[trigger] occ[l].0)].1 + " = "@ + occ[l].1,
            ),
        forall|x: Seq<char>| #[trigger] unification_from(occ, 0).contains(x) ==> same_term_pair(occ, x)
            || constant_pair(occ, x),
{
    assert forall|l: int| 0 <= l < occ.len() && (#[trigger] occ[l]).0 is Const implies unification_from(
        occ,
        0,
    ).contains(occ[l].1 + " = '"@ + occ[l].0->Const_0 + "'"@) by {
        let x = occ[l].1 + " = '"@ + occ[l].0->Const_0 + "'"@;
        assert(constant_condition(occ[l])[0] == x);
        lemma_unification_contains(occ, 0, l, x);
    }
    assert forall|l: int|
        0 <= l < occ.len() && occ[l].0 is Var && first_occurrence(occ, occ[l].0) < l
            implies unification_from(occ, 0).contains(
        occ[first_occurrence(occ, #[trigger] occ[l].0)].1 + " = "@ + occ[l].1,
    ) by {
        lemma_first_exists(occ, l);
        let f = first_occurrence(occ, occ[l].0);
        assert(occ[f].0 == occ[l].0);
        lemma_first_unique(occ, occ[f].0, f);
        lemma_equalities_contain(occ, f, f + 1, l);
        lemma_unification_contains(occ, 0, f, occ[f].1 + " = "@ + occ[l].1);
    }
    lemma_unification_sound(occ, 0);
}

/// The unification predicate of a body.
pub open spec fn unification_sql(occ: Seq<Occurrence>) -> Seq<char> {
    let eqs = unification_from(occ, 0);
    if eqs.len() == 0 {
        "true"@
    } else {
        join(eqs, " AND "@)
    }
}

/// Every head variable occurs in the body.
pub open spec fn range_restricted(rule: RuleModel) -> bool {
    forall|f: int|
        0 <= f < rule.head.terms.len() && (#[trigger] rule.head.terms[f]) is Var ==> first_occurrence(
            occurrences(rule.body),
            rule.head.terms[f],
        ) >= 0
}

/// What the head projects for term `t`: a quoted constant, or the first
/// column that holds the variable.
pub open spec fn select_sql(t: TermModel, occ: Seq<Occurrence>) -> Seq<char> {
    match t {
        TermModel::Const(c) => "'"@ + c + "'"@,
        TermModel::Var(_) => occ[first_occurrence(occ, t)].1,
    }
}

pub open spec fn head_selects(rule: RuleModel) -> Seq<Seq<char>> {
    Seq::new(
        rule.head.terms.len(),
        |f: int| select_sql(rule.head.terms[f], occurrences(rule.body)),
    )
}

/// `s0 AS y0, s1 AS y1, ...`; for a nullary head one constant column, so
/// that `DISTINCT` leaves at most one row.
pub open spec fn projection_sql(sels: Seq<Seq<char>>) -> Seq<char> {
    if sels.len() == 0 {
        "'' AS y0"@
    } else {
        join(Seq::new(sels.len(), |i: int| sels[i] + " AS y"@ + decimal(i as nat)), ", "@)
    }
}

/// `B0 AS B00,B1 AS B11,...`
pub open spec fn from_sql(body: Seq<AtomModel>) -> Seq<char> {
    join(Seq::new(body.len(), |i: int| body[i].rel + " AS "@ + alias(body[i].rel, i as nat)), ","@)
}

/// The anti-join that keeps out tuples already in the head relation.
pub open spec fn not_exists_sql(head: Seq<char>, sels: Seq<Seq<char>>) -> Seq<char> {
    "SELECT * from "@ + head + " AS pre"@ + if sels.len() == 0 {
        Seq::empty()
    } else {
        " WHERE "@ + join(
            Seq::new(sels.len(), |i: int| "pre.x"@ + decimal(i as nat) + " = "@ + sels[i]),
            " AND "@,
        )
    }
}

/// The deduplicating selection of new head tuples, with body atom `d`
/// restricted to the tuples of iteration `k - 1`.
pub open spec fn subquery_sql(rule: RuleModel, k: nat, d: nat) -> Seq<char> {
    let sels = head_selects(rule);
    "SELECT DISTINCT "@ + projection_sql(sels) + " FROM "@ + from_sql(rule.body) + " WHERE "@ + alias(
        rule.body[d as int].rel,
        d,
    ) + ".it = "@ + decimal((k - 1) as nat) + " AND "@ + unification_sql(occurrences(rule.body))
        + " AND NOT EXISTS ("@ + not_exists_sql(rule.head.rel, sels) + ")"@
}

/// The statement for delta position `d` of `rule` at iteration `k`.
pub open spec fn rule_sql(rule: RuleModel, k: nat, d: nat, backend: Backend) -> Seq<char> {
    let h = rule.head.rel;
    let m = rule.head.terms.len();
    let sub = subquery_sql(rule, k, d);
    match backend {
        Backend::Sequence => "INSERT INTO "@ + h + " SELECT nextval('"@ + h + "_seq'), "@ + decimal(k)
            + concat_n(m, numbered(", y"@)) + " FROM ("@ + sub + ");"@,
        Backend::AutoIncrement => "INSERT INTO "@ + h + " (it"@ + concat_n(m, numbered(", x"@))
            + ") SELECT "@ + decimal(k) + concat_n(m, numbered(", y"@)) + " FROM ("@ + sub + ");"@,
    }
}

pub open spec fn occurrence_views(occ: Seq<(Term, String)>) -> Seq<Occurrence> {
    occ.map_values(|o: (Term, String)| (o.0@, o.1@))
}

/// The alias of body atom `i`.
fn alias_of(rel: &Rel, i: usize) -> (r: String)
    ensures
        r@ == alias(rel@, i as nat),
{
    let mut s = String::new();
    s.append(rel.as_str());
    append_decimal(&mut s, i);
    s
}

/// Every term occurrence of `body` with its column.
fn body_occurrences(body: &Vec<Atom>) -> (r: Vec<(Term, String)>)
    ensures
        occurrence_views(r@) == occurrences(atom_views(body@)),
{
    let ghost bv = atom_views(body@);
    let mut occ: Vec<(Term, String)> = Vec::new();
    let mut i: usize = 0;
    while i < body.len()
        invariant
            i <= body.len(),
            bv == atom_views(body@),
            occurrence_views(occ@) =~= occurrences(bv.take(i as int)),
        decreases body.len() - i,
    {
        let atom = &body[i];
        let ghost start = occurrence_views(occ@);
        let ghost target = atom_occurrences(atom@, i as nat);
        let mut f: usize = 0;
        while f < atom.terms.len()
            invariant
                f <= atom.terms.len(),
                atom@ == bv[i as int],
                occurrence_views(occ@) =~= start + target.take(f as int),
                target == atom_occurrences(atom@, i as nat),
            decreases atom.terms.len() - f,
        {
            let mut col = alias_of(&atom.rel, i);
            col.append(".x");
            append_decimal(&mut col, f);
            let ghost before = occ@;
            occ.push((atom.terms[f].clone(), col));
            assert(occurrence_views(occ@) =~= occurrence_views(before).push(target[f as int]));
            assert(target.take(f + 1) =~= target.take(f as int).push(target[f as int]));
            f = f + 1;
        }
        assert(target.take(f as int) =~= target);
        assert(bv.take(i + 1).drop_last() =~= bv.take(i as int));
        i = i + 1;
    }
    assert(bv.take(i as int) =~= bv);
    occ
}

/// The index of the first occurrence of `t`, if any.
fn find_first(occ: &Vec<(Term, String)>, t: &Term) -> (r: Option<usize>)
    ensures
        r matches Some(j) ==> j as int == first_occurrence(occurrence_views(occ@), t@),
        r is None ==> first_occurrence(occurrence_views(occ@), t@) == -1,
{
    let ghost ov = occurrence_views(occ@);
    let mut j: usize = 0;
    while j < occ.len()
        invariant
            j <= occ.len(),
            ov == occurrence_views(occ@),
            forall|l: int| 0 <= l < j ==> (#[trigger] ov[l]).0 != t@,
        decreases occ.len() - j,
    {
        if occ[j].0 == *t {
            proof {
                assert(is_first(ov, t@, j as int));
                lemma_first_unique(ov, t@, j as int);
            }
            return Some(j);
        }
        j = j + 1;
    }
    proof {
        if exists|k: int| is_first(ov, t@, k) {
            let k = choose|k: int| is_first(ov, t@, k);
            assert(ov[k].0 != t@);
        }
    }
    None
}

/// The unification predicate of the body whose occurrences are `occ`.
fn unification(occ: &Vec<(Term, String)>) -> (r: String)
    ensures
        r@ == unification_sql(occurrence_views(occ@)),
{
    let ghost ov = occurrence_views(occ@);
    let ghost all = unification_from(ov, 0);
    let mut parts: Vec<String> = Vec::new();
    let mut j: usize = 0;
    while j < occ.len()
        invariant
            j <= occ.len(),
            ov == occurrence_views(occ@),
            all == unification_from(ov, 0),
            string_views(parts@) + unification_from(ov, j as int) == all,
        decreases occ.len() - j,
    {
        let ghost outer = string_views(parts@);
        assert(ov[j as int] == (occ@[j as int].0@, occ@[j as int].1@));
        match &occ[j].0 {
            Term::Const(c) => {
                let mut e = occ[j].1.clone();
                e.append(" = '");
                e.append(c.as_str());
                e.append("'");
                parts.push(e);
                assert(string_views(parts@) + unification_from(ov, j + 1) =~= all);
            },
            Term::Var(_) => {
                match find_first(occ, &occ[j].0) {
                    Some(first) if first == j => {
                        assert(unification_from(ov, j as int) =~= equalities_from(ov, j as int, j + 1)
                            + unification_from(ov, j + 1));
                        let mut l: usize = j + 1;
                        while l < occ.len()
                            invariant
                                j < l <= occ.len(),
                                ov == occurrence_views(occ@),
                                first_occurrence(ov, ov[j as int].0) == j,
                                outer + unification_from(ov, j as int) == all,
                                unification_from(ov, j as int) == equalities_from(ov, j as int, j + 1)
                                    + unification_from(ov, j + 1),
                                string_views(parts@) + equalities_from(ov, j as int, l as int) =~= outer
                                    + equalities_from(ov, j as int, j + 1),
                            decreases occ.len() - l,
                        {
                            assert(ov[l as int] == (occ@[l as int].0@, occ@[l as int].1@));
                            if occ[l].0 == occ[j].0 {
                                let mut e = occ[j].1.clone();
                                e.append(" = ");
                                e.append(occ[l].1.as_str());
                                let ghost before = string_views(parts@);
                                parts.push(e);
                                assert(string_views(parts@) =~= before.push(
                                    ov[j as int].1 + " = "@ + ov[l as int].1,
                                ));
                            }
                            l = l + 1;
                        }
                        assert(string_views(parts@) + unification_from(ov, j + 1) =~= all);
                    },
                    _ => {
                        assert(unification_from(ov, j as int) =~= unification_from(ov, j + 1));
                        assert(string_views(parts@) + unification_from(ov, j + 1) =~= all);
                    },
                }
            },
        }
        j = j + 1;
    }
    assert(string_views(parts@) =~= all);
    let mut out = String::new();
    if parts.len() == 0 {
        out.append("true");
    } else {
        append_joined(&mut out, &parts, " AND ");
    }
    out
}

/// The index of the first occurrence of `t`, which occurs.
fn find_present(occ: &Vec<(Term, String)>, t: &Term) -> (r: usize)
    requires
        first_occurrence(occurrence_views(occ@), t@) >= 0,
    ensures
        r as int == first_occurrence(occurrence_views(occ@), t@),
{
    let ghost ov = occurrence_views(occ@);
    let mut j: usize = 0;
    while j < occ.len()
        invariant
            j <= occ.len(),
            ov == occurrence_views(occ@),
            first_occurrence(ov, t@) >= 0,
            forall|l: int| 0 <= l < j ==> (#[trigger] ov[l]).0 != t@,
        decreases occ.len() - j,
    {
        if occ[j].0 == *t {
            proof {
                assert(is_first(ov, t@, j as int));
                lemma_first_unique(ov, t@, j as int);
            }
            return j;
        }
        j = j + 1;
    }
    proof {
        let k = first_occurrence(ov, t@);
        assert(is_first(ov, t@, k));
        assert(ov[k].0 != t@);
    }
    j
}

/// Whether every head variable of `rule` occurs in its body.
pub fn check_range_restriction(rule: &Rule) -> (r: bool)
    ensures
        r == range_restricted(rule@),
{
    let occ = body_occurrences(&rule.body);
    let mut f: usize = 0;
    while f < rule.head.terms.len()
        invariant
            f <= rule.head.terms.len(),
            occurrence_views(occ@) == occurrences(rule@.body),
            forall|g: int|
                0 <= g < f && (#[trigger] rule@.head.terms[g]) is Var ==> first_occurrence(
                    occurrences(rule@.body),
                    rule@.head.terms[g],
                ) >= 0,
        decreases rule.head.terms.len() - f,
    {
        let term = &rule.head.terms[f];
        assert(rule@.head.terms[f as int] == term@);
        match term {
            Term::Const(_) => {},
            Term::Var(_) => {
                if find_first(&occ, term).is_none() {
                    return false;
                }
            },
        }
        f = f + 1;
    }
    true
}

/// What the head projects, term by term.
fn selects(head: &Atom, occ: &Vec<(Term, String)>, Ghost(rule): Ghost<RuleModel>) -> (r: Vec<String>)
    requires
        rule.head == head@,
        occurrence_views(occ@) == occurrences(rule.body),
        range_restricted(rule),
    ensures
        string_views(r@) == head_selects(rule),
{
    let ghost target = head_selects(rule);
    let mut sels: Vec<String> = Vec::new();
    let mut f: usize = 0;
    while f < head.terms.len()
        invariant
            f <= head.terms.len(),
            rule.head == head@,
            occurrence_views(occ@) == occurrences(rule.body),
            target == head_selects(rule),
            string_views(sels@) =~= target.take(f as int),
            range_restricted(rule),
        decreases head.terms.len() - f,
    {
        let term = &head.terms[f];
        assert(rule.head.terms[f as int] == term@);
        let ghost before = string_views(sels@);
        match term {
            Term::Const(c) => {
                let mut s = String::new();
                s.append("'");
                s.append(c.as_str());
                s.append("'");
                sels.push(s);
            },
            Term::Var(_) => {
                let j = find_present(occ, term);
                assert(occurrence_views(occ@)[j as int] == (occ@[j as int].0@, occ@[j as int].1@));
                sels.push(occ[j].1.clone());
            },
        }
        assert(string_views(sels@) =~= before.push(target[f as int]));
        f = f + 1;
    }
    assert(target.take(f as int) =~= target);
    sels
}

fn projection(sels: &Vec<String>) -> (r: String)
    ensures
        r@ == projection_sql(string_views(sels@)),
{
    let ghost sv = string_views(sels@);
    let ghost target = Seq::new(sv.len(), |i: int| sv[i] + " AS y"@ + decimal(i as nat));
    let mut out = String::new();
    if sels.len() == 0 {
        out.append("'' AS y0");
        return out;
    }
    let mut parts: Vec<String> = Vec::new();
    let mut i: usize = 0;
    while i < sels.len()
        invariant
            i <= sels.len(),
            sv == string_views(sels@),
            target == Seq::new(sv.len(), |i: int| sv[i] + " AS y"@ + decimal(i as nat)),
            string_views(parts@) =~= target.take(i as int),
        decreases sels.len() - i,
    {
        let mut p = sels[i].clone();
        p.append(" AS y");
        append_decimal(&mut p, i);
        let ghost before = string_views(parts@);
        parts.push(p);
        assert(string_views(parts@) =~= before.push(target[i as int]));
        i = i + 1;
    }
    assert(target.take(i as int) =~= target);
    append_joined(&mut out, &parts, ", ");
    out
}

fn from_list(body: &Vec<Atom>) -> (r: String)
    ensures
        r@ == from_sql(atom_views(body@)),
{
    let ghost bv = atom_views(body@);
    let ghost target = Seq::new(bv.len(), |i: int| bv[i].rel + " AS "@ + alias(bv[i].rel, i as nat));
    let mut parts: Vec<String> = Vec::new();
    let mut i: usize = 0;
    while i < body.len()
        invariant
            i <= body.len(),
            bv == atom_views(body@),
            target == Seq::new(bv.len(), |i: int| bv[i].rel + " AS "@ + alias(bv[i].rel, i as nat)),
            string_views(parts@) =~= target.take(i as int),
        decreases body.len() - i,
    {
        let mut p = String::new();
        p.append(body[i].rel.as_str());
        p.append(" AS ");
        let a = alias_of(&body[i].rel, i);
        p.append(a.as_str());
        let ghost before = string_views(parts@);
        parts.push(p);
        assert(string_views(parts@) =~= before.push(target[i as int]));
        i = i + 1;
    }
    assert(target.take(i as int) =~= target);
    let mut out = String::new();
    append_joined(&mut out, &parts, ",");
    out
}

fn not_exists(head: &Rel, sels: &Vec<String>) -> (r: String)
    ensures
        r@ == not_exists_sql(head@, string_views(sels@)),
{
    let ghost sv = string_views(sels@);
    let ghost target = Seq::new(sv.len(), |i: int| "pre.x"@ + decimal(i as nat) + " = "@ + sv[i]);
    let mut out = String::new();
    out.append("SELECT * from ");
    out.append(head.as_str());
    out.append(" AS pre");
    if sels.len() == 0 {
        return out;
    }
    let mut parts: Vec<String> = Vec::new();
    let mut i: usize = 0;
    while i < sels.len()
        invariant
            i <= sels.len(),
            sv == string_views(sels@),
            target == Seq::new(sv.len(), |i: int| "pre.x"@ + decimal(i as nat) + " = "@ + sv[i]),
            string_views(parts@) =~= target.take(i as int),
        decreases sels.len() - i,
    {
        let mut p = String::new();
        p.append("pre.x");
        append_decimal(&mut p, i);
        p.append(" = ");
        p.append(sels[i].as_str());
        let ghost before = string_views(parts@);
        parts.push(p);
        assert(string_views(parts@) =~= before.push(target[i as int]));
        i = i + 1;
    }
    assert(target.take(i as int) =~= target);
    out.append(" WHERE ");
    append_joined(&mut out, &parts, " AND ");
    out
}

/// Compiles `rule` for iteration `it` into one statement per body atom: the
/// statement for position `d` takes the tuples of iteration `it - 1` at `d`
/// and the whole relations elsewhere, and inserts, with iteration number
/// `it`, the head tuples that are not stored yet. Every head variable must
/// occur in the body (see [`check_range_restriction`]).
pub fn eval_rule_query(rule: &Rule, it: usize, backend: Backend) -> (r: Vec<String>)
    requires
        it >= 1,
        range_restricted(rule@),
    ensures
        r@.len() == rule@.body.len(),
        forall|d: int| 0 <= d < r@.len() ==> (#[trigger] r@[d])@ == rule_sql(rule@, it as nat, d as nat, backend),
{
    let occ = body_occurrences(&rule.body);
    let sels = selects(&rule.head, &occ, Ghost(rule@));
    let unif = unification(&occ);
    let proj = projection(&sels);
    let from = from_list(&rule.body);
    let anti = not_exists(&rule.head.rel, &sels);
    let h = rule.head.rel.as_str();
    let m = sels.len();
    let mut out: Vec<String> = Vec::new();
    let mut d: usize = 0;
    while d < rule.body.len()
        invariant
            d <= rule.body.len(),
            it >= 1,
            h@ == rule@.head.rel,
            m == rule@.head.terms.len(),
            proj@ == projection_sql(head_selects(rule@)),
            from@ == from_sql(rule@.body),
            unif@ == unification_sql(occurrences(rule@.body)),
            anti@ == not_exists_sql(rule@.head.rel, head_selects(rule@)),
            out@.len() == d,
            forall|e: int| 0 <= e < d ==> (#[trigger] out@[e])@ == rule_sql(rule@, it as nat, e as nat, backend),
        decreases rule.body.len() - d,
    {
        let mut sub = String::new();
        sub.append("SELECT DISTINCT ");
        sub.append(proj.as_str());
        sub.append(" FROM ");
        sub.append(from.as_str());
        sub.append(" WHERE ");
        let a = alias_of(&rule.body[d].rel, d);
        sub.append(a.as_str());
        sub.append(".it = ");
        append_decimal(&mut sub, it - 1);
        sub.append(" AND ");
        sub.append(unif.as_str());
        sub.append(" AND NOT EXISTS (");
        sub.append(anti.as_str());
        sub.append(")");
        assert(sub@ == subquery_sql(rule@, it as nat, d as nat));
        let mut q = String::new();
        q.append("INSERT INTO ");
        q.append(h);
        match backend {
            Backend::Sequence => {
                q.append(" SELECT nextval('");
                q.append(h);
                q.append("_seq'), ");
                append_decimal(&mut q, it);
            },
            Backend::AutoIncrement => {
                q.append(" (it");
                append_numbered(&mut q, ", x", m);
                q.append(") SELECT ");
                append_decimal(&mut q, it);
            },
        }
        append_numbered(&mut q, ", y", m);
        q.append(" FROM (");
        q.append(sub.as_str());
        q.append(");");
        assert(q@ == rule_sql(rule@, it as nat, d as nat, backend));
        out.push(q);
        d = d + 1;
    }
    out
}

} // verus!
