//! Surface syntax of Datalog programs.

use vstd::prelude::*;

use crate::text::{append_joined, join, string_views};

verus! {

/// Whether `c` has the Unicode `Lowercase` property.
pub uninterp spec fn lowercase_char(c: char) -> bool;

/// Whether `c` has the Unicode `Uppercase` property.
pub uninterp spec fn uppercase_char(c: char) -> bool;

/// Relies on `char::is_lowercase`: true exactly when `c` has the Unicode
/// `Lowercase` property.
#[verifier::external_body]
fn char_is_lowercase(c: char) -> (r: bool)
    ensures
        r == lowercase_char(c),
{
    c.is_lowercase()
}

/// Relies on `char::is_uppercase`: true exactly when `c` has the Unicode
/// `Uppercase` property.
#[verifier::external_body]
fn char_is_uppercase(c: char) -> (r: bool)
    ensures
        r == uppercase_char(c),
{
    c.is_uppercase()
}

/// A constant is a non-empty string whose first character is lowercase.
pub open spec fn valid_const(s: Seq<char>) -> bool {
    s.len() > 0 && lowercase_char(s[0])
}

/// A variable is a non-empty string whose first character is uppercase.
pub open spec fn valid_var(s: Seq<char>) -> bool {
    s.len() > 0 && uppercase_char(s[0])
}

#[derive(Debug, Hash)]
pub struct Const(pub(crate) String);

impl View for Const {
    type V = Seq<char>;

    open(crate) spec fn view(&self) -> Seq<char> {
        self.0@
    }
}

impl Clone for Const {
    fn clone(&self) -> (r: Self)
        ensures
            r == *self,
    {
        Const(self.0.clone())
    }
}

impl PartialEq for Const {
    fn eq(&self, o: &Const) -> (r: bool) {
        self.0 == o.0
    }
}

impl vstd::std_specs::cmp::PartialEqSpecImpl for Const {
    open spec fn obeys_eq_spec() -> bool {
        true
    }

    open spec fn eq_spec(&self, o: &Const) -> bool {
        self@ == o@
    }
}

impl Eq for Const {
}

impl Const {
    pub fn new(s: String) -> (r: Option<Const>)
        ensures
            r is Some <==> valid_const(s@),
            r matches Some(c) ==> c@ == s@,
    {
        if Self::valid(s.as_str()) {
            Some(Const(s))
        } else {
            None
        }
    }

    /// Builds a constant without checking the case of its first character.
    pub fn new_unchecked(s: String) -> (r: Const)
        ensures
            r@ == s@,
    {
        Const(s)
    }

    pub fn valid(s: &str) -> (r: bool)
        ensures
            r == valid_const(s@),
    {
        if s.is_empty() {
            false
        } else {
            char_is_lowercase(s.get_char(0))
        }
    }

    pub fn as_str(&self) -> (r: &str)
        ensures
            r@ == self@,
    {
        self.0.as_str()
    }
}


#[derive(Debug, Hash)]
pub struct Var(pub(crate) String);

impl View for Var {
    type V = Seq<char>;

    open(crate) spec fn view(&self) -> Seq<char> {
        self.0@
    }
}

impl Clone for Var {
    fn clone(&self) -> (r: Self)
        ensures
            r == *self,
    {
        Var(self.0.clone())
    }
}

impl PartialEq for Var {
    fn eq(&self, o: &Var) -> (r: bool) {
        self.0 == o.0
    }
}

impl vstd::std_specs::cmp::PartialEqSpecImpl for Var {
    open spec fn obeys_eq_spec() -> bool {
        true
    }

    open spec fn eq_spec(&self, o: &Var) -> bool {
        self@ == o@
    }
}

impl Eq for Var {
}

impl Var {
    pub fn new(s: String) -> (r: Option<Var>)
        ensures
            r is Some <==> valid_var(s@),
            r matches Some(v) ==> v@ == s@,
    {
        if Self::valid(s.as_str()) {
            Some(Var(s))
        } else {
            None
        }
    }

    /// Builds a variable without checking the case of its first character.
    pub fn new_unchecked(s: String) -> (r: Var)
        ensures
            r@ == s@,
    {
        Var(s)
    }

    pub fn valid(s: &str) -> (r: bool)
        ensures
            r == valid_var(s@),
    {
        if s.is_empty() {
            false
        } else {
            char_is_uppercase(s.get_char(0))
        }
    }

    pub fn as_str(&self) -> (r: &str)
        ensures
            r@ == self@,
    {
        self.0.as_str()
    }
}

/// A relation name; it is used verbatim as a table name.
#[derive(Debug, Hash)]
pub struct Rel(pub(crate) String);

impl View for Rel {
    type V = Seq<char>;

    open(crate) spec fn view(&self) -> Seq<char> {
        self.0@
    }
}

impl Clone for Rel {
    fn clone(&self) -> (r: Self)
        ensures
            r == *self,
    {
        Rel(self.0.clone())
    }
}

impl PartialEq for Rel {
    fn eq(&self, o: &Rel) -> (r: bool) {
        self.0 == o.0
    }
}

impl vstd::std_specs::cmp::PartialEqSpecImpl for Rel {
    open spec fn obeys_eq_spec() -> bool {
        true
    }

    open spec fn eq_spec(&self, o: &Rel) -> bool {
        self@ == o@
    }
}

impl Eq for Rel {
}

impl Rel {
    pub fn new(name: String) -> (r: Rel)
        ensures
            r@ == name@,
    {
        Rel(name)
    }

    pub fn as_str(&self) -> (r: &str)
        ensures
            r@ == self@,
    {
        self.0.as_str()
    }
}

/// The mathematical value of a term.
pub enum TermModel {
    Const(Seq<char>),
    Var(Seq<char>),
}

#[derive(Debug, Hash)]
pub enum Term {
    Const(Const),
    Var(Var),
}

impl View for Term {
    type V = TermModel;

    open spec fn view(&self) -> TermModel {
        match self {
            Term::Const(c) => TermModel::Const(c@),
            Term::Var(v) => TermModel::Var(v@),
        }
    }
}

impl Clone for Term {
    fn clone(&self) -> (r: Self)
        ensures
            r == *self,
    {
        match self {
            Term::Const(c) => Term::Const(c.clone()),
            Term::Var(v) => Term::Var(v.clone()),
        }
    }
}

impl PartialEq for Term {
    fn eq(&self, o: &Term) -> (r: bool) {
        match (self, o) {
            (Term::Const(a), Term::Const(b)) => a.0 == b.0,
            (Term::Var(a), Term::Var(b)) => a.0 == b.0,
            _ => false,
        }
    }
}

impl vstd::std_specs::cmp::PartialEqSpecImpl for Term {
    open spec fn obeys_eq_spec() -> bool {
        true
    }

    open spec fn eq_spec(&self, o: &Term) -> bool {
        self@ == o@
    }
}

impl Eq for Term {
}

/// The mathematical value of an atom: a relation name applied to terms.
pub struct AtomModel {
    pub rel: Seq<char>,
    pub terms: Seq<TermModel>,
}

/// The mathematical value of a rule.
pub struct RuleModel {
    pub head: AtomModel,
    pub body: Seq<AtomModel>,
}

pub open spec fn term_views(ts: Seq<Term>) -> Seq<TermModel> {
    ts.map_values(|t: Term| t@)
}

pub open spec fn const_views(cs: Seq<Const>) -> Seq<Seq<char>> {
    cs.map_values(|c: Const| c@)
}

/// The text of a term: the name of the constant or of the variable.
pub open spec fn term_text(t: TermModel) -> Seq<char> {
    match t {
        TermModel::Const(c) => c,
        TermModel::Var(v) => v,
    }
}

/// Whether every term is a constant.
pub open spec fn is_ground(ts: Seq<TermModel>) -> bool {
    forall|i: int| 0 <= i < ts.len() ==> (#[trigger] ts[i]) is Const
}

/// The names of a sequence of terms; on ground terms, the constants.
pub open spec fn term_texts(ts: Seq<TermModel>) -> Seq<Seq<char>> {
    ts.map_values(|t: TermModel| term_text(t))
}

/// The separator of a list of terms or of atoms.
pub open spec fn comma() -> Seq<char> {
    ", "@
}

/// `rel(t1, t2, ..., tn)`
pub open spec fn atom_text(a: AtomModel) -> Seq<char> {
    a.rel + "("@ + join(term_texts(a.terms), comma()) + ")"@
}

/// `head :- b1, b2, ..., bk.`
pub open spec fn rule_text(r: RuleModel) -> Seq<char> {
    atom_text(r.head) + " :- "@ + join(r.body.map_values(|a: AtomModel| atom_text(a)), comma()) + "."@
}

impl Term {
    pub fn to_string(&self) -> (r: String)
        ensures
            r@ == term_text(self@),
    {
        match self {
            Term::Const(c) => c.0.clone(),
            Term::Var(v) => v.0.clone(),
        }
    }
}

#[derive(Debug, PartialEq, Eq, Hash)]
pub struct Atom {
    pub(crate) rel: Rel,
    pub(crate) terms: Vec<Term>,
}

impl View for Atom {
    type V = AtomModel;

    open(crate) spec fn view(&self) -> AtomModel {
        AtomModel { rel: self.rel@, terms: term_views(self.terms@) }
    }
}

impl Clone for Atom {
    fn clone(&self) -> (r: Self)
        ensures
            r@ == self@,
    {
        let terms = self.terms.clone();
        assert(term_views(terms@) =~= term_views(self.terms@));
        Atom { rel: self.rel.clone(), terms }
    }
}

/// A relation name applied to constants only.
#[derive(Debug, PartialEq, Eq, Hash)]
pub struct GroundAtom {
    pub(crate) rel: Rel,
    pub(crate) terms: Vec<Const>,
}

impl View for GroundAtom {
    type V = (Seq<char>, Seq<Seq<char>>);

    open(crate) spec fn view(&self) -> (Seq<char>, Seq<Seq<char>>) {
        (self.rel@, const_views(self.terms@))
    }
}

impl GroundAtom {
    pub fn new(rel: Rel, terms: Vec<Const>) -> (r: GroundAtom)
        ensures
            r@ == (rel@, const_views(terms@)),
    {
        GroundAtom { rel, terms }
    }
}

impl Atom {
    pub fn new(rel: Rel, terms: Vec<Term>) -> (r: Atom)
        ensures
            r@ == (AtomModel { rel: rel@, terms: term_views(terms@) }),
    {
        Atom { rel, terms }
    }

    /// The same relation applied to constants, when every term is one.
    pub fn ground(self) -> (r: Option<GroundAtom>)
        ensures
            r is Some <==> is_ground(self@.terms),
            r matches Some(g) ==> g@ == (self@.rel, term_texts(self@.terms)),
    {
        let mut consts: Vec<Const> = Vec::with_capacity(self.terms.len());
        let mut i: usize = 0;
        while i < self.terms.len()
            invariant
                i <= self.terms.len(),
                is_ground(term_views(self.terms@).take(i as int)),
                const_views(consts@) =~= term_texts(term_views(self.terms@).take(i as int)),
            decreases self.terms.len() - i,
        {
            match &self.terms[i] {
                Term::Const(c) => {
                    let ghost before = consts@;
                    consts.push(c.clone());
                    assert(const_views(consts@) =~= const_views(before).push(c@));
                },
                Term::Var(_) => {
                    assert(!(term_views(self.terms@)[i as int] is Const));
                    return None;
                },
            }
            i = i + 1;
            assert(term_views(self.terms@).take(i as int) =~= term_views(self.terms@).take(
                i - 1,
            ).push(term_views(self.terms@)[i - 1]));
        }
        assert(term_views(self.terms@).take(i as int) =~= term_views(self.terms@));
        Some(GroundAtom::new(self.rel, consts))
    }

    pub fn to_string(&self) -> (r: String)
        ensures
            r@ == atom_text(self@),
    {
        let mut parts: Vec<String> = Vec::new();
        let mut i: usize = 0;
        while i < self.terms.len()
            invariant
                i <= self.terms.len(),
                string_views(parts@) =~= term_texts(term_views(self.terms@)).take(
                    i as int,
                ),
            decreases self.terms.len() - i,
        {
            let ghost before = parts@;
            parts.push(self.terms[i].to_string());
            assert(string_views(parts@) =~= string_views(before).push(
                term_text(self.terms@[i as int]@),
            ));
            assert(term_texts(term_views(self.terms@)).take(i + 1) =~= term_texts(
                term_views(self.terms@),
            ).take(i as int).push(term_text(self.terms@[i as int]@)));
            i = i + 1;
        }
        let mut out = self.rel.0.clone();
        out.append("(");
        append_joined(&mut out, &parts, ", ");
        out.append(")");
        assert(term_texts(term_views(self.terms@)).take(i as int) =~= term_texts(self@.terms));
        out
    }
}

pub open spec fn atom_views(atoms: Seq<Atom>) -> Seq<AtomModel> {
    atoms.map_values(|a: Atom| a@)
}

#[derive(Debug, PartialEq, Eq, Hash)]
pub struct Rule {
    pub(crate) head: Atom,
    pub(crate) body: Vec<Atom>,
}

impl View for Rule {
    type V = RuleModel;

    open(crate) spec fn view(&self) -> RuleModel {
        RuleModel { head: self.head@, body: atom_views(self.body@) }
    }
}

impl Clone for Rule {
    fn clone(&self) -> (r: Self)
        ensures
            r@ == self@,
    {
        let mut body: Vec<Atom> = Vec::with_capacity(self.body.len());
        let mut i: usize = 0;
        while i < self.body.len()
            invariant
                i <= self.body.len(),
                atom_views(body@) =~= atom_views(self.body@).take(i as int),
            decreases self.body.len() - i,
        {
            let ghost before = body@;
            body.push(self.body[i].clone());
            assert(atom_views(body@) =~= atom_views(before).push(self.body@[i as int]@));
            i = i + 1;
        }
        assert(atom_views(self.body@).take(i as int) =~= atom_views(self.body@));
        Rule { head: self.head.clone(), body }
    }
}

impl Rule {
    pub fn new(head: Atom, body: Vec<Atom>) -> (r: Rule)
        ensures
            r@ == (RuleModel { head: head@, body: atom_views(body@) }),
    {
        Rule { head, body }
    }

    /// A rule is a fact when its body is empty.
    pub fn is_fact(&self) -> (r: bool)
        ensures
            r == (self@.body.len() == 0),
    {
        self.body.len() == 0
    }

    pub fn to_string(&self) -> (r: String)
        ensures
            r@ == rule_text(self@),
    {
        let ghost texts = self@.body.map_values(|a: AtomModel| atom_text(a));
        let mut parts: Vec<String> = Vec::new();
        let mut i: usize = 0;
        while i < self.body.len()
            invariant
                i <= self.body.len(),
                texts == atom_views(self.body@).map_values(|a: AtomModel| atom_text(a)),
                string_views(parts@) =~= texts.take(i as int),
            decreases self.body.len() - i,
        {
            let ghost before = parts@;
            parts.push(self.body[i].to_string());
            assert(string_views(parts@) =~= string_views(before).push(
                texts[i as int],
            ));
            assert(texts.take(i + 1) =~= texts.take(i as int).push(texts[i as int]));
            i = i + 1;
        }
        let mut out = self.head.to_string();
        out.append(" :- ");
        append_joined(&mut out, &parts, ", ");
        out.append(".");
        assert(texts.take(i as int) =~= texts);
        out
    }
}

#[derive(Debug, PartialEq, Eq, Hash)]
pub enum Error {
    Arity { relation: Rel, arity1: usize, arity2: usize },
    Ungrounded { rule: Rule, var: Var },
}

pub open spec fn rule_views(rules: Seq<Rule>) -> Seq<RuleModel> {
    rules.map_values(|r: Rule| r@)
}

/// Every atom of a program, rule by rule, each rule's head before its body.
pub open spec fn atoms_of(rules: Seq<RuleModel>) -> Seq<AtomModel>
    decreases rules.len(),
{
    if rules.len() == 0 {
        Seq::empty()
    } else {
        atoms_of(rules.drop_last()) + seq![rules.last().head] + rules.last().body
    }
}

/// Every two atoms of one relation have the same number of terms.
pub open spec fn arity_consistent(atoms: Seq<AtomModel>) -> bool {
    forall|i: int, j: int|
        0 <= i < atoms.len() && 0 <= j < atoms.len() && (#[trigger] atoms[i]).rel == (
        #[trigger] atoms[j]).rel ==> atoms[i].terms.len() == atoms[j].terms.len()
}

/// The arity error for `atoms`: the atom at `j` is the first one whose arity
/// disagrees with an earlier atom of the same relation, `relation` is its
/// relation, `arity1` the arity of the earlier atoms and `arity2` its own.
pub open spec fn is_arity_error(atoms: Seq<AtomModel>, relation: Seq<char>, arity1: nat, arity2: nat) -> bool {
    exists|j: int|
        0 <= j < atoms.len() && arity_consistent(atoms.take(j)) && !arity_consistent(
            #[trigger] atoms.take(j + 1),
        ) && atoms[j].rel == relation && atoms[j].terms.len() == arity2 && exists|i: int|
            0 <= i < j && atoms[i].rel == relation && atoms[i].terms.len() == arity1
}

/// Relation name to the arity of its first atom.
pub open spec fn arity_map(atoms: Seq<AtomModel>) -> Map<Seq<char>, nat>
    decreases atoms.len(),
{
    if atoms.len() == 0 {
        Map::empty()
    } else {
        let m = arity_map(atoms.drop_last());
        if m.contains_key(atoms.last().rel) {
            m
        } else {
            m.insert(atoms.last().rel, atoms.last().terms.len())
        }
    }
}

/// The map that a list of `(relation, arity)` pairs with distinct names stands for.
pub open spec fn table_view(t: Seq<(Rel, usize)>) -> Map<Seq<char>, nat>
    decreases t.len(),
{
    if t.len() == 0 {
        Map::empty()
    } else {
        table_view(t.drop_last()).insert(t.last().0@, t.last().1 as nat)
    }
}

pub open spec fn distinct_names(t: Seq<(Rel, usize)>) -> bool {
    forall|p: int, q: int|
        0 <= p < q < t.len() ==> (#[trigger] t[p]).0@ != (#[trigger] t[q]).0@
}

pub(crate) proof fn lemma_table_view(t: Seq<(Rel, usize)>)
    requires
        distinct_names(t),
    ensures
        forall|p: int|
            0 <= p < t.len() ==> table_view(t).contains_key((#[trigger] t[p]).0@) && table_view(t)[t[p].0@]
                == t[p].1 as nat,
        forall|k: Seq<char>|
            table_view(t).contains_key(k) ==> exists|p: int| 0 <= p < t.len() && (#[trigger] t[p]).0@ == k,
    decreases t.len(),
{
    if t.len() > 0 {
        let u = t.drop_last();
        assert(distinct_names(u)) by {
            assert forall|p: int, q: int| 0 <= p < q < u.len() implies (#[trigger] u[p]).0@ != (
            #[trigger] u[q]).0@ by {
                assert(u[p] == t[p] && u[q] == t[q]);
            }
        }
        lemma_table_view(u);
        assert forall|k: Seq<char>| table_view(t).contains_key(k) implies exists|p: int|
            0 <= p < t.len() && (#[trigger] t[p]).0@ == k by {
            if k != t.last().0@ {
                assert(table_view(t) == table_view(u).insert(t.last().0@, t.last().1 as nat));
                assert(table_view(u).contains_key(k));
                let p = choose|p: int| 0 <= p < u.len() && (#[trigger] u[p]).0@ == k;
                assert(t[p] == u[p]);
            } else {
                assert(t[t.len() - 1].0@ == k);
            }
        }
        assert forall|p: int| 0 <= p < t.len() implies table_view(t).contains_key((#[trigger] t[p]).0@)
            && table_view(t)[t[p].0@] == t[p].1 as nat by {
            if p < t.len() - 1 {
                assert(u[p] == t[p]);
                assert(t[p].0@ != t[t.len() - 1].0@);
            }
        }
    }
}

/// Adds `rel` with `arity` to `table` unless the relation is there already;
/// returns the arity recorded before, if any.
#[verifier::loop_isolation(false)]
pub(crate) fn record_arity(table: &mut Vec<(Rel, usize)>, rel: &Rel, arity: usize) -> (r: Option<usize>)
    requires
        distinct_names(old(table)@),
    ensures
        distinct_names(final(table)@),
        table_view(old(table)@).contains_key(rel@) ==> (r matches Some(a) && a as nat
            == table_view(old(table)@)[rel@]) && final(table)@ == old(table)@,
        !table_view(old(table)@).contains_key(rel@) ==> r is None && table_view(final(table)@)
            == table_view(old(table)@).insert(rel@, arity as nat),
{
    proof {
        lemma_table_view(table@);
    }
    let mut p: usize = 0;
    while p < table.len()
        invariant
            p <= table.len(),
            forall|q: int| 0 <= q < p ==> (#[trigger] table@[q]).0@ != rel@,
        decreases table.len() - p,
    {
        if table[p].0 == *rel {
            return Some(table[p].1);
        }
        p = p + 1;
    }
    let ghost before = table@;
    table.push((rel.clone(), arity));
    assert(table@.drop_last() =~= before);
    proof {
        assert forall|a: int, b: int| 0 <= a < b < table@.len() implies (#[trigger] table@[a]).0@
            != (#[trigger] table@[b]).0@ by {
            if b < before.len() {
                assert(before[a] == table@[a] && before[b] == table@[b]);
            } else {
                assert(before[a] == table@[a]);
            }
        }
    }
    None
}

proof fn lemma_arity_map(atoms: Seq<AtomModel>)
    ensures
        forall|m: int| 0 <= m < atoms.len() ==> arity_map(atoms).contains_key((#[trigger] atoms[m]).rel),
        forall|k: Seq<char>|
            arity_map(atoms).contains_key(k) ==> exists|m: int|
                0 <= m < atoms.len() && (#[trigger] atoms[m]).rel == k && arity_map(atoms)[k]
                    == atoms[m].terms.len(),
        arity_consistent(atoms) ==> forall|m: int|
            0 <= m < atoms.len() ==> arity_map(atoms)[(#[trigger] atoms[m]).rel] == atoms[m].terms.len(),
    decreases atoms.len(),
{
    if atoms.len() > 0 {
        let u = atoms.drop_last();
        lemma_arity_map(u);
        assert forall|m: int| 0 <= m < atoms.len() implies arity_map(atoms).contains_key(
            (#[trigger] atoms[m]).rel,
        ) by {
            if m < u.len() {
                assert(u[m] == atoms[m]);
            }
        }
        assert forall|k: Seq<char>| arity_map(atoms).contains_key(k) implies exists|m: int|
            0 <= m < atoms.len() && (#[trigger] atoms[m]).rel == k && arity_map(atoms)[k]
                == atoms[m].terms.len() by {
            if arity_map(u).contains_key(k) {
                let m = choose|m: int|
                    0 <= m < u.len() && (#[trigger] u[m]).rel == k && arity_map(u)[k]
                        == u[m].terms.len();
                assert(atoms[m] == u[m]);
            } else {
                assert(atoms[atoms.len() - 1].rel == k);
            }
        }
        if arity_consistent(atoms) {
            assert(arity_consistent(u)) by {
                assert forall|i: int, j: int|
                    0 <= i < u.len() && 0 <= j < u.len() && (#[trigger] u[i]).rel == (
                    #[trigger] u[j]).rel implies u[i].terms.len() == u[j].terms.len() by {
                    assert(u[i] == atoms[i] && u[j] == atoms[j]);
                }
            }
            assert forall|m: int| 0 <= m < atoms.len() implies arity_map(atoms)[(
            #[trigger] atoms[m]).rel] == atoms[m].terms.len() by {
                let last = atoms.len() - 1;
                if arity_map(u).contains_key(atoms[m].rel) {
                    let w = choose|w: int|
                        0 <= w < u.len() && (#[trigger] u[w]).rel == atoms[m].rel && arity_map(u)[atoms[m].rel]
                            == u[w].terms.len();
                    assert(u[w] == atoms[w]);
                } else if m < u.len() {
                    assert(u[m] == atoms[m]);
                }
            }
        }
    }
}

#[derive(Debug, PartialEq, Eq, Hash)]
pub struct Ast {
    pub(crate) rules: Vec<Rule>,
}

impl View for Ast {
    type V = Seq<RuleModel>;

    open(crate) spec fn view(&self) -> Seq<RuleModel> {
        rule_views(self.rules@)
    }
}

proof fn lemma_atoms_of_step(rules: Seq<RuleModel>, i: int)
    requires
        0 <= i < rules.len(),
    ensures
        atoms_of(rules.take(i + 1)) == atoms_of(rules.take(i)) + seq![rules[i].head] + rules[i].body,
{
    assert(rules.take(i + 1).drop_last() =~= rules.take(i));
}

proof fn lemma_arity_map_step(atoms: Seq<AtomModel>, k: int)
    requires
        0 <= k < atoms.len(),
    ensures
        arity_map(atoms.take(k + 1)) == if arity_map(atoms.take(k)).contains_key(atoms[k].rel) {
            arity_map(atoms.take(k))
        } else {
            arity_map(atoms.take(k)).insert(atoms[k].rel, atoms[k].terms.len())
        },
{
    assert(atoms.take(k + 1).drop_last() =~= atoms.take(k));
}

pub open spec fn ref_atom_views(atoms: Seq<&Atom>) -> Seq<AtomModel> {
    atoms.map_values(|a: &Atom| a@)
}

impl Ast {
    /// Every atom of the program: for each rule in order, its head and then
    /// its body atoms in order.
    pub fn atoms(&self) -> (r: Vec<&Atom>)
        ensures
            ref_atom_views(r@) == atoms_of(self@),
    {
        let mut out: Vec<&Atom> = Vec::new();
        let mut i: usize = 0;
        while i < self.rules.len()
            invariant
                i <= self.rules.len(),
                ref_atom_views(out@) =~= atoms_of(self@.take(i as int)),
            decreases self.rules.len() - i,
        {
            let rule = &self.rules[i];
            proof {
                lemma_atoms_of_step(self@, i as int);
            }
            let ghost start = ref_atom_views(out@);
            out.push(&rule.head);
            let mut j: usize = 0;
            while j < rule.body.len()
                invariant
                    j <= rule.body.len(),
                    ref_atom_views(out@) =~= start + seq![rule.head@] + atom_views(rule.body@).take(
                        j as int,
                    ),
                decreases rule.body.len() - j,
            {
                let ghost before = out@;
                out.push(&rule.body[j]);
                assert(ref_atom_views(out@) =~= ref_atom_views(before).push(rule.body@[j as int]@));
                assert(atom_views(rule.body@).take(j + 1) =~= atom_views(rule.body@).take(j as int).push(
                    rule.body@[j as int]@,
                ));
                j = j + 1;
            }
            assert(atom_views(rule.body@).take(j as int) =~= rule@.body);
            i = i + 1;
        }
        assert(self@.take(i as int) =~= self@);
        out
    }

    /// Each relation of the program with the arity of its first atom, once
    /// per relation.
    pub fn arities(&self) -> (r: Vec<(Rel, usize)>)
        ensures
            distinct_names(r@),
            table_view(r@) == arity_map(atoms_of(self@)),
    {
        let atoms = self.atoms();
        let ghost av = atoms_of(self@);
        let mut table: Vec<(Rel, usize)> = Vec::new();
        let mut k: usize = 0;
        while k < atoms.len()
            invariant
                k <= atoms.len(),
                av == ref_atom_views(atoms@),
                av == atoms_of(self@),
                distinct_names(table@),
                table_view(table@) == arity_map(av.take(k as int)),
            decreases atoms.len() - k,
        {
            proof {
                lemma_arity_map_step(av, k as int);
            }
            let _ = record_arity(&mut table, &atoms[k].rel, atoms[k].terms.len());
            k = k + 1;
        }
        assert(av.take(k as int) =~= av);
        table
    }

    pub fn new(rules: Vec<Rule>) -> (r: Result<Ast, Error>)
        ensures
            r is Ok <==> arity_consistent(atoms_of(rule_views(rules@))),
            r matches Ok(a) ==> a@ == rule_views(rules@),
            r matches Err(e) ==> e matches Error::Arity { relation, arity1, arity2 }
                && is_arity_error(atoms_of(rule_views(rules@)), relation@, arity1 as nat, arity2 as nat),
    {
        let prog = Ast { rules };
        match prog.valid() {
            Ok(()) => Ok(prog),
            Err(e) => Err(e),
        }
    }

    pub fn new_unchecked(rules: Vec<Rule>) -> (r: Ast)
        ensures
            r@ == rule_views(rules@),
    {
        Ast { rules }
    }

    /// Checks that all atoms of each relation have one arity; reports the
    /// first atom that disagrees with an earlier one.
    pub fn valid(&self) -> (r: Result<(), Error>)
        ensures
            r is Ok <==> arity_consistent(atoms_of(self@)),
            r matches Err(e) ==> e matches Error::Arity { relation, arity1, arity2 }
                && is_arity_error(atoms_of(self@), relation@, arity1 as nat, arity2 as nat),
    {
        let atoms = self.atoms();
        let ghost av = atoms_of(self@);
        let mut table: Vec<(Rel, usize)> = Vec::new();
        let mut k: usize = 0;
        while k < atoms.len()
            invariant
                k <= atoms.len(),
                av == ref_atom_views(atoms@),
                av == atoms_of(self@),
                distinct_names(table@),
                table_view(table@) == arity_map(av.take(k as int)),
                arity_consistent(av.take(k as int)),
            decreases atoms.len() - k,
        {
            let atom = atoms[k];
            let ghost pre = av.take(k as int);
            let ghost next = av.take(k + 1);
            proof {
                lemma_arity_map_step(av, k as int);
                lemma_arity_map(pre);
                assert(av[k as int] == atom@);
                assert forall|m: int| 0 <= m < k implies #[trigger] next[m] == pre[m] && pre[m] == av[m] by {}
                assert(next[k as int] == atom@);
            }
            match record_arity(&mut table, &atom.rel, atom.terms.len()) {
                Some(arity) => {
                    if arity != atom.terms.len() {
                        proof {
                            let m = choose|m: int|
                                0 <= m < pre.len() && (#[trigger] pre[m]).rel == atom@.rel && arity_map(pre)[atom@.rel]
                                    == pre[m].terms.len();
                            assert(next[m] == pre[m]);
                            assert(av[m] == pre[m]);
                            assert(pre[m].terms.len() == arity);
                            assert(next[m].rel == next[k as int].rel);
                            assert(!arity_consistent(next));
                            assert(!arity_consistent(av)) by {
                                assert(av[m].rel == av[k as int].rel);
                            }
                            let j = k as int;
                            assert(0 <= j < av.len() && arity_consistent(av.take(j)) && !arity_consistent(
                                av.take(j + 1),
                            ) && av[j].rel == atom@.rel && av[j].terms.len() == atom@.terms.len());
                            assert(0 <= m < j && av[m].rel == atom@.rel && av[m].terms.len() == arity as nat);
                            assert(is_arity_error(av, atom@.rel, arity as nat, atom@.terms.len()));
                        }
                        return Err(
                            Error::Arity {
                                relation: atom.rel.clone(),
                                arity1: arity,
                                arity2: atom.terms.len(),
                            },
                        );
                    }
                },
                None => {},
            }
            proof {
                assert forall|a: int, b: int|
                    0 <= a < next.len() && 0 <= b < next.len() && (#[trigger] next[a]).rel == (
                    #[trigger] next[b]).rel implies next[a].terms.len() == next[b].terms.len() by {
                    if a < k && b < k {
                        assert(next[a] == pre[a] && next[b] == pre[b]);
                    } else if a < k {
                        assert(next[a] == pre[a]);
                        assert(pre.contains(pre[a]));
                    } else if b < k {
                        assert(next[b] == pre[b]);
                    }
                }
            }
            k = k + 1;
        }
        assert(av.take(k as int) =~= av);
        Ok(())
    }
}

} // verus!
