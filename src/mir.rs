//! Mid-level form of a program: ground facts grouped by relation, and the
//! rules that have a body.

use vstd::prelude::*;

use fxhash::{FxHashMap, FxHashSet};

use crate::ast::{
    const_views, is_ground, record_arity, rule_views, table_view, term_texts, distinct_names,
    lemma_table_view, Ast, Const, Rel, Rule, RuleModel,
};

verus! {

/// Relation name to the set of its tuples.
pub type FactsModel = Map<Seq<char>, Set<Seq<Seq<char>>>>;

/// What a [`Facts`] holds.
pub uninterp spec fn facts_held(f: Facts) -> FactsModel;

/// What a [`RuleSet`] holds.
pub uninterp spec fn rules_held(s: RuleSet) -> Set<RuleModel>;

pub open spec fn tuple_views(ts: Seq<Vec<Const>>) -> Seq<Seq<Seq<char>>> {
    ts.map_values(|t: Vec<Const>| const_views(t@))
}

/// `m` with `t` added to the tuples of `rel`.
pub open spec fn add_tuple(m: FactsModel, rel: Seq<char>, t: Seq<Seq<char>>) -> FactsModel {
    if m.contains_key(rel) {
        m.insert(rel, m[rel].insert(t))
    } else {
        m.insert(rel, set![t])
    }
}

/// `r` lists the relations of `m` once each, each with its tuples once each.
pub open spec fn lists_facts(r: Seq<(Rel, Vec<Vec<Const>>)>, m: FactsModel) -> bool {
    &&& forall|i: int|
        0 <= i < r.len() ==> m.contains_key((#[trigger] r[i]).0@) && tuple_views(r[i].1@).to_set()
            == m[r[i].0@] && tuple_views(r[i].1@).no_duplicates()
    &&& forall|k: Seq<char>| m.contains_key(k) ==> exists|i: int| 0 <= i < r.len() && (#[trigger] r[i]).0@ == k
    &&& forall|i: int, j: int| 0 <= i < j < r.len() ==> (#[trigger] r[i]).0@ != (#[trigger] r[j]).0@
}

/// Tuples grouped by relation name, with set semantics.
#[verifier::external_body]
#[derive(Debug)]
pub struct Facts {
    map: FxHashMap<Rel, FxHashSet<Vec<Const>>>,
}

impl Facts {
    /// Relies on `FxHashMap::default`: a new map is empty.
    #[verifier::external_body]
    pub(crate) fn new() -> (r: Facts)
        ensures
            facts_held(r) == FactsModel::empty(),
    {
        Facts { map: FxHashMap::default() }
    }

    /// Relies on `HashMap::entry` and `Entry::or_default`: the relation gets
    /// an empty set of tuples unless it has one.
    #[verifier::external_body]
    pub(crate) fn add_relation(&mut self, rel: Rel)
        ensures
            facts_held(*final(self)) == if facts_held(*old(self)).contains_key(rel@) {
                facts_held(*old(self))
            } else {
                facts_held(*old(self)).insert(rel@, Set::empty())
            },
    {
        self.map.entry(rel).or_default();
    }

    /// Relies on `HashMap::entry`, `Entry::or_default` and `HashSet::insert`:
    /// the tuple joins the set of its relation, which is made if missing. It
    /// does not unwind: the keys hash and compare with derived code, and a
    /// failed allocation aborts.
    #[verifier::external_body]
    pub(crate) fn insert(&mut self, rel: Rel, tuple: Vec<Const>)
        ensures
            facts_held(*final(self)) == add_tuple(facts_held(*old(self)), rel@, const_views(tuple@)),
        no_unwind
    {
        self.map.entry(rel).or_default().insert(tuple);
    }

    /// Relies on `HashMap::clear`: no relation is left. It does not unwind.
    #[verifier::external_body]
    pub(crate) fn clear(&mut self)
        ensures
            facts_held(*final(self)) == FactsModel::empty(),
        no_unwind
    {
        self.map.clear()
    }

    /// Relies on `HashMap::iter` and `HashSet::iter`: every relation once,
    /// each with every tuple once, in no particular order.
    #[verifier::external_body]
    pub(crate) fn entries(&self) -> (r: Vec<(Rel, Vec<Vec<Const>>)>)
        ensures
            lists_facts(r@, facts_held(*self)),
    {
        self.map.iter().map(|(rel, ts)| (rel.clone(), ts.iter().cloned().collect())).collect()
    }
}

/// A set of rules.
#[verifier::external_body]
#[derive(Debug)]
pub struct RuleSet {
    set: FxHashSet<Rule>,
}

impl RuleSet {
    /// Relies on `FxHashSet::default`: a new set is empty.
    #[verifier::external_body]
    fn new() -> (r: RuleSet)
        ensures
            rules_held(r) == Set::<RuleModel>::empty(),
    {
        RuleSet { set: FxHashSet::default() }
    }

    /// Relies on `HashSet::insert`: the rule joins the set.
    #[verifier::external_body]
    fn insert(&mut self, rule: Rule)
        ensures
            rules_held(*final(self)) == rules_held(*old(self)).insert(rule@),
    {
        self.set.insert(rule);
    }

    /// Relies on `HashSet::iter`: every rule once, in no particular order.
    #[verifier::external_body]
    fn to_vec(&self) -> (r: Vec<Rule>)
        ensures
            rule_views(r@).to_set() == rules_held(*self),
            rule_views(r@).no_duplicates(),
    {
        self.set.iter().cloned().collect()
    }
}

#[derive(Debug, PartialEq, Eq, Hash)]
pub enum Error {
    Arity { relation: Rel, arity1: usize, arity2: usize },
    Ungrounded,
}

/// Every fact (a rule with an empty body) has only constants in its head.
pub open spec fn facts_ground(rules: Seq<RuleModel>) -> bool {
    forall|i: int|
        0 <= i < rules.len() && (#[trigger] rules[i]).body.len() == 0 ==> is_ground(rules[i].head.terms)
}

/// The facts of a program, by relation.
pub open spec fn facts_of(rules: Seq<RuleModel>) -> FactsModel
    decreases rules.len(),
{
    if rules.len() == 0 {
        FactsModel::empty()
    } else {
        let m = facts_of(rules.drop_last());
        let r = rules.last();
        if r.body.len() == 0 {
            add_tuple(m, r.head.rel, term_texts(r.head.terms))
        } else {
            m
        }
    }
}

/// The rules of a program that have a body.
pub open spec fn rules_of(rules: Seq<RuleModel>) -> Set<RuleModel>
    decreases rules.len(),
{
    if rules.len() == 0 {
        Set::empty()
    } else {
        let s = rules_of(rules.drop_last());
        if rules.last().body.len() > 0 {
            s.insert(rules.last())
        } else {
            s
        }
    }
}

/// Each relation has at least one tuple.
pub open spec fn relations_inhabited(m: FactsModel) -> bool {
    forall|k: Seq<char>| #[trigger] m.contains_key(k) ==> m[k] != Set::<Seq<Seq<char>>>::empty()
}

/// Each rule has a body.
pub open spec fn rules_have_bodies(s: Set<RuleModel>) -> bool {
    forall|r: RuleModel| #[trigger] s.contains(r) ==> r.body.len() > 0
}

proof fn lemma_add_tuple_inhabited(m: FactsModel, rel: Seq<char>, t: Seq<Seq<char>>)
    requires
        relations_inhabited(m),
    ensures
        relations_inhabited(add_tuple(m, rel, t)),
{
    let n = add_tuple(m, rel, t);
    assert forall|k: Seq<char>| #[trigger] n.contains_key(k) implies n[k] != Set::<Seq<Seq<char>>>::empty() by {
        if k == rel {
            assert(n[k].contains(t));
        } else {
            assert(m.contains_key(k));
        }
    }
}

/// Some tuple of `ts` has `n` components.
pub open spec fn has_tuple_of_length(ts: Set<Seq<Seq<char>>>, n: nat) -> bool {
    exists|t: Seq<Seq<char>>| ts.contains(t) && t.len() == n
}

/// Some rule of `rs` has a head of relation `rel` with `n` terms.
pub open spec fn has_rule_of_arity(rs: Set<RuleModel>, rel: Seq<char>, n: nat) -> bool {
    exists|r: RuleModel| rs.contains(r) && r.head.rel == rel && r.head.terms.len() == n
}

/// Some rule of `rs` has a head of relation `rel`.
pub open spec fn has_head(rs: Set<RuleModel>, rel: Seq<char>) -> bool {
    exists|r: RuleModel| rs.contains(r) && r.head.rel == rel
}

/// `table` gives an arity to exactly the relations with facts or rules; for
/// a relation with facts the length of one of its tuples, for the others
/// the arity of the head of one of their rules.
pub open spec fn arities_of(facts: FactsModel, rs: Set<RuleModel>, table: Map<Seq<char>, nat>) -> bool {
    &&& forall|k: Seq<char>| #[trigger] table.contains_key(k) <==> facts.contains_key(k) || has_head(rs, k)
    &&& forall|k: Seq<char>|
        #[trigger] table.contains_key(k) && facts.contains_key(k) ==> has_tuple_of_length(facts[k], table[k])
    &&& forall|k: Seq<char>|
        #[trigger] table.contains_key(k) && !facts.contains_key(k) ==> has_rule_of_arity(rs, k, table[k])
}

proof fn lemma_facts_of_contains(rules: Seq<RuleModel>)
    ensures
        forall|j: int|
            0 <= j < rules.len() && (#[trigger] rules[j]).body.len() == 0 ==> facts_of(rules).contains_key(
                rules[j].head.rel,
            ) && facts_of(rules)[rules[j].head.rel].contains(term_texts(rules[j].head.terms)),
        forall|j: int|
            0 <= j < rules.len() && (#[trigger] rules[j]).body.len() > 0 ==> rules_of(rules).contains(rules[j]),
    decreases rules.len(),
{
    if rules.len() > 0 {
        let u = rules.drop_last();
        lemma_facts_of_contains(u);
        assert forall|j: int|
            0 <= j < rules.len() && (#[trigger] rules[j]).body.len() == 0 implies facts_of(rules).contains_key(
            rules[j].head.rel,
        ) && facts_of(rules)[rules[j].head.rel].contains(term_texts(rules[j].head.terms)) by {
            if j < u.len() {
                assert(u[j] == rules[j]);
            }
        }
        assert forall|j: int|
            0 <= j < rules.len() && (#[trigger] rules[j]).body.len() > 0 implies rules_of(rules).contains(
            rules[j],
        ) by {
            if j < u.len() {
                assert(u[j] == rules[j]);
            }
        }
    }
}

/// Repeating a rule of a program, fact or not, changes neither the facts
/// nor the rules that the program stands for: a fact stated twice is stored
/// once.
pub proof fn lemma_repeated_rule(rules: Seq<RuleModel>, i: int)
    requires
        0 <= i < rules.len(),
    ensures
        facts_of(rules.push(rules[i])) == facts_of(rules),
        rules_of(rules.push(rules[i])) == rules_of(rules),
{
    let more = rules.push(rules[i]);
    assert(more.drop_last() =~= rules);
    lemma_facts_of_contains(rules);
    let r = rules[i];
    if r.body.len() == 0 {
        let m = facts_of(rules);
        let t = term_texts(r.head.terms);
        assert(m[r.head.rel].insert(t) =~= m[r.head.rel]);
        assert(add_tuple(m, r.head.rel, t) =~= m);
    } else {
        assert(rules_of(rules).insert(r) =~= rules_of(rules));
    }
}

/// Mid-level IR.
#[derive(Debug)]
pub struct Mir {
    facts: Facts,
    rules: RuleSet,
}

impl Mir {
    /// The facts, by relation.
    pub closed spec fn facts_view(self) -> FactsModel {
        facts_held(self.facts)
    }

    /// The rules; each has a non-empty body.
    pub closed spec fn rules_view(self) -> Set<RuleModel> {
        rules_held(self.rules)
    }

    #[verifier::type_invariant]
    spec fn inv(self) -> bool {
        &&& relations_inhabited(facts_held(self.facts))
        &&& rules_have_bodies(rules_held(self.rules))
    }

    pub fn new(ast: Ast) -> (r: Result<Mir, Error>)
        ensures
            r is Ok <==> facts_ground(ast@),
            r matches Ok(m) ==> m.facts_view() == facts_of(ast@) && m.rules_view() == rules_of(ast@),
            r matches Err(e) ==> e is Ungrounded,
    {
        let prog = Self::new_unchecked(ast)?;
        prog.valid()?;
        Ok(prog)
    }

    /// Sorts the rules of `ast` into facts and rules with bodies; duplicates
    /// collapse.
    pub fn new_unchecked(ast: Ast) -> (r: Result<Mir, Error>)
        ensures
            r is Ok <==> facts_ground(ast@),
            r matches Ok(m) ==> m.facts_view() == facts_of(ast@) && m.rules_view() == rules_of(ast@),
            r matches Err(e) ==> e is Ungrounded,
    {
        let mut facts = Facts::new();
        let mut rules = RuleSet::new();
        let ghost all = ast@;
        let mut i: usize = 0;
        while i < ast.rules.len()
            invariant
                i <= ast.rules.len(),
                all == ast@,
                facts_held(facts) == facts_of(all.take(i as int)),
                rules_held(rules) == rules_of(all.take(i as int)),
                facts_ground(all.take(i as int)),
                relations_inhabited(facts_held(facts)),
                rules_have_bodies(rules_held(rules)),
            decreases ast.rules.len() - i,
        {
            let rule = ast.rules[i].clone();
            let ghost pre = all.take(i as int);
            let ghost next = all.take(i + 1);
            proof {
                assert(next.drop_last() =~= pre);
                assert(next.last() == rule@);
                assert(all[i as int] == rule@);
            }
            if rule.is_fact() {
                match rule.head.ground() {
                    None => {
                        proof {
                            assert(!facts_ground(all)) by {
                                assert(all[i as int].body.len() == 0);
                            }
                        }
                        return Err(Error::Ungrounded);
                    },
                    Some(f) => {
                        proof {
                            lemma_add_tuple_inhabited(facts_held(facts), f.rel@, const_views(f.terms@));
                        }
                        facts.insert(f.rel, f.terms);
                    },
                }
            } else {
                rules.insert(rule);
            }
            proof {
                assert forall|j: int|
                    0 <= j < next.len() && (#[trigger] next[j]).body.len() == 0 implies is_ground(
                    next[j].head.terms,
                ) by {
                    if j < i {
                        assert(next[j] == pre[j]);
                    }
                }
            }
            i = i + 1;
        }
        assert(all.take(i as int) =~= all);
        Ok(Mir { facts, rules })
    }

    /// Nothing beyond what construction establishes is checked.
    pub fn valid(&self) -> (r: Result<(), Error>)
        ensures
            r is Ok,
    {
        Ok(())
    }

    /// Adds a tuple to a relation; its arity is not checked.
    pub fn add_fact(&mut self, rel: &Rel, consts: Vec<Const>)
        ensures
            final(self).facts_view() == add_tuple(old(self).facts_view(), rel@, const_views(consts@)),
            final(self).rules_view() == old(self).rules_view(),
    {
        proof {
            use_type_invariant(&*self);
            lemma_add_tuple_inhabited(facts_held(self.facts), rel@, const_views(consts@));
        }
        self.facts.insert(rel.clone(), consts);
    }

    pub fn clear_facts(&mut self)
        ensures
            final(self).facts_view() == FactsModel::empty(),
            final(self).rules_view() == old(self).rules_view(),
        no_unwind
    {
        proof {
            use_type_invariant(&*self);
        }
        self.facts.clear();
    }

    /// The arity of every relation that has facts or heads a rule: for a
    /// relation with facts the length of one of its tuples, otherwise the
    /// arity of the head of one of its rules.
    pub fn arities(&self) -> (r: Vec<(Rel, usize)>)
        ensures
            distinct_names(r@),
            arities_of(self.facts_view(), self.rules_view(), table_view(r@)),
    {
        let entries = self.facts();
        let ghost facts = self.facts_view();
        let mut table: Vec<(Rel, usize)> = Vec::new();
        let mut i: usize = 0;
        while i < entries.len()
            invariant
                i <= entries.len(),
                facts == self.facts_view(),
                lists_facts(entries@, facts),
                forall|p: int| 0 <= p < entries@.len() ==> (#[trigger] entries@[p]).1@.len() > 0,
                distinct_names(table@),
                forall|k: Seq<char>|
                    #[trigger] table_view(table@).contains_key(k) <==> exists|p: int|
                        0 <= p < i && (#[trigger] entries@[p]).0@ == k,
                forall|k: Seq<char>|
                    #[trigger] table_view(table@).contains_key(k) ==> facts.contains_key(k)
                        && has_tuple_of_length(facts[k], table_view(table@)[k]),
            decreases entries.len() - i,
        {
            let tuples = &entries[i].1;
            let arity = tuples[0].len();
            proof {
                let t = tuple_views(tuples@)[0];
                assert(tuple_views(tuples@).to_set().contains(t));
                assert(t.len() == arity);
                lemma_table_view(table@);
                assert forall|p: int| 0 <= p < i implies (#[trigger] entries@[p]).0@ != entries@[i as int].0@ by {}
            }
            let _ = record_arity(&mut table, &entries[i].0, arity);
            i = i + 1;
        }
        let rules = self.rules();
        let ghost rs = self.rules_view();
        let mut j: usize = 0;
        while j < rules.len()
            invariant
                j <= rules.len(),
                facts == self.facts_view(),
                rs == self.rules_view(),
                rule_views(rules@).to_set() == rs,
                distinct_names(table@),
                forall|k: Seq<char>|
                    #[trigger] table_view(table@).contains_key(k) <==> facts.contains_key(k) || exists|q: int|
                        0 <= q < j && (#[trigger] rules@[q])@.head.rel == k,
                forall|k: Seq<char>|
                    #[trigger] table_view(table@).contains_key(k) && facts.contains_key(k) ==> has_tuple_of_length(
                        facts[k],
                        table_view(table@)[k],
                    ),
                forall|k: Seq<char>|
                    #[trigger] table_view(table@).contains_key(k) && !facts.contains_key(k) ==> has_rule_of_arity(
                        rs,
                        k,
                        table_view(table@)[k],
                    ),
            decreases rules.len() - j,
        {
            proof {
                assert(rule_views(rules@)[j as int] == rules@[j as int]@);
                assert(rs.contains(rules@[j as int]@));
            }
            let ghost before = table_view(table@);
            let _ = record_arity(&mut table, &rules[j].head.rel, rules[j].head.terms.len());
            let ghost old_j = j as int;
            j = j + 1;
            proof {
                let rel = rules@[old_j]@.head.rel;
                assert forall|k: Seq<char>|
                    table_view(table@).contains_key(k) <==> facts.contains_key(k) || exists|q: int|
                        0 <= q < j && (#[trigger] rules@[q])@.head.rel == k by {
                    if k == rel {
                        assert(rules@[old_j]@.head.rel == k);
                        assert(table_view(table@).contains_key(k));
                    } else {
                        assert(before.contains_key(k) <==> facts.contains_key(k) || exists|q: int|
                        0 <= q < old_j && (#[trigger] rules@[q])@.head.rel == k);
                        assert(table_view(table@).contains_key(k) == before.contains_key(k));
                        if exists|q: int| 0 <= q < j && (#[trigger] rules@[q])@.head.rel == k {
                            let q = choose|q: int| 0 <= q < j && (#[trigger] rules@[q])@.head.rel == k;
                            assert(q < old_j);
                        }
                    }
                }
            }
        }
        proof {
            assert forall|k: Seq<char>| has_head(rs, k) implies table_view(table@).contains_key(k) by {
                let r = choose|r: RuleModel| rs.contains(r) && r.head.rel == k;
                assert(rule_views(rules@).to_set().contains(r));
                assert(rule_views(rules@).contains(r));
                let q = choose|q: int| 0 <= q < rules@.len() && rule_views(rules@)[q] == r;
                assert(rule_views(rules@)[q] == rules@[q]@);
                assert(rules@[q]@.head.rel == k);
                assert(0 <= q < j);
                assert(exists|q: int| 0 <= q < j && (#[trigger] rules@[q])@.head.rel == k);
            }
            assert forall|k: Seq<char>| table_view(table@).contains_key(k) implies facts.contains_key(k) || has_head(rs, k) by {
                if !facts.contains_key(k) {
                    let q = choose|q: int| 0 <= q < j && (#[trigger] rules@[q])@.head.rel == k;
                    assert(rule_views(rules@)[q] == rules@[q]@);
                    assert(rs.contains(rules@[q]@));
                }
            }
        }
        table
    }

    /// Each relation with its tuples, in no particular order.
    pub fn facts(&self) -> (r: Vec<(Rel, Vec<Vec<Const>>)>)
        ensures
            lists_facts(r@, self.facts_view()),
            forall|i: int| 0 <= i < r@.len() ==> (#[trigger] r@[i]).1@.len() > 0,
    {
        proof {
            use_type_invariant(self);
        }
        let r = self.facts.entries();
        proof {
            assert forall|i: int| 0 <= i < r@.len() implies (#[trigger] r@[i]).1@.len() > 0 by {
                let s = tuple_views(r@[i].1@);
                assert(self.facts_view().contains_key(r@[i].0@));
                if r@[i].1@.len() == 0 {
                    assert(s.to_set() =~= Set::<Seq<Seq<char>>>::empty());
                }
            }
        }
        r
    }

    /// The rules that have a body, each once, in no particular order.
    pub fn rules(&self) -> (r: Vec<Rule>)
        ensures
            rule_views(r@).to_set() == self.rules_view(),
            rule_views(r@).no_duplicates(),
            forall|i: int| 0 <= i < r@.len() ==> (#[trigger] r@[i])@.body.len() > 0,
    {
        proof {
            use_type_invariant(self);
        }
        let r = self.rules.to_vec();
        proof {
            assert forall|i: int| 0 <= i < r@.len() implies (#[trigger] r@[i])@.body.len() > 0 by {
                assert(rule_views(r@)[i] == r@[i]@);
                assert(rule_views(r@).to_set().contains(r@[i]@));
            }
        }
        r
    }
}

} // verus!
