use vstd::prelude::*;

use crate::is_variable;
use crate::permutation::{contains_char, letter};
use crate::truth_table::{rule_builds, rule_results, BuildError, TruthTable};
use crate::permutation::variables_in;

verus! {

/// What the index knows of a table: its variables and its results.
pub open spec fn view_of(t: TruthTable) -> (Seq<char>, Seq<bool>) {
    (t.variables@, t.results@)
}

/// What the index knows of each of `ts`.
pub open spec fn views(ts: Seq<TruthTable>) -> Seq<(Seq<char>, Seq<bool>)> {
    ts.map_values(|t: TruthTable| view_of(t))
}

/// The ids of a list ascend strictly.
pub open spec fn increasing(ids: Seq<usize>) -> bool {
    forall|i: int, j: int| 0 <= i < j < ids.len() ==> ids[i] < ids[j]
}

/// The tables after `t` is registered: an equal table is not added twice.
pub open spec fn register(tables: Seq<(Seq<char>, Seq<bool>)>, t: (Seq<char>, Seq<bool>)) -> Seq<
    (Seq<char>, Seq<bool>),
> {
    if tables.contains(t) {
        tables
    } else {
        tables.push(t)
    }
}

/// The tables after each of `ts` is registered, in order.
pub open spec fn register_all(
    tables: Seq<(Seq<char>, Seq<bool>)>,
    ts: Seq<(Seq<char>, Seq<bool>)>,
) -> Seq<(Seq<char>, Seq<bool>)>
    decreases ts.len(),
{
    if ts.len() == 0 {
        tables
    } else {
        register(register_all(tables, ts.drop_last()), ts.last())
    }
}

/// The table that the rule `s` builds.
pub open spec fn rule_table(s: Seq<char>) -> (Seq<char>, Seq<bool>) {
    (variables_in(s), rule_results(s))
}

/// A rule whose table could not be built, with the rule's text.
#[derive(Debug, Clone)]
pub struct RuleError {
    pub rule: String,
    pub cause: BuildError,
}

/// The rule index: every table once, and for each variable the tables that mention it.
pub struct RuleMap {
    tables: Vec<TruthTable>,
    index: Vec<Vec<usize>>,
}

impl RuleMap {
    /// The tables, by id.
    pub closed spec fn tables(&self) -> Seq<(Seq<char>, Seq<bool>)> {
        views(self.tables@)
    }

    /// The ids of the tables that mention `c`, ascending.
    pub closed spec fn ids(&self, c: char) -> Seq<usize> {
        if is_variable(c) {
            self.index@[c as u32 - 65]@
        } else {
            Seq::empty()
        }
    }

    pub closed spec fn layout(&self) -> bool {
        self.index@.len() == 26
    }

    /// A table is listed under every variable it mentions and under no other, each
    /// table is held once, and each list ascends.
    pub open spec fn wf(&self) -> bool {
        &&& self.layout()
        &&& forall|c: char| increasing(#[trigger] self.ids(c))
        &&& forall|c: char, id: usize|
            #[trigger] self.ids(c).contains(id) <==> (is_variable(c) && id < self.tables().len()
                && self.tables()[id as int].0.contains(c))
        &&& forall|i: int, j: int|
            0 <= i < j < self.tables().len() ==> self.tables()[i] != self.tables()[j]
    }

    /// The index after `t` is registered: unchanged when an equal table is already
    /// there, else `t` gets the next id and is listed under each of its variables.
    pub open spec fn registered(old: &RuleMap, new: &RuleMap, t: (Seq<char>, Seq<bool>)) -> bool {
        if old.tables().contains(t) {
            &&& new.tables() == old.tables()
            &&& forall|c: char| #[trigger] new.ids(c) == old.ids(c)
        } else {
            &&& new.tables() == old.tables().push(t)
            &&& forall|c: char|
                #[trigger] new.ids(c) == if is_variable(c) && t.0.contains(c) {
                    old.ids(c).push(old.tables().len() as usize)
                } else {
                    old.ids(c)
                }
        }
    }

    /// An empty index.
    pub fn new() -> (r: RuleMap)
        ensures
            r.wf(),
            r.tables().len() == 0,
            forall|c: char| (#[trigger] r.ids(c)).len() == 0,
    {
        let mut index: Vec<Vec<usize>> = Vec::new();
        let mut k: usize = 0;
        while k < 26
            invariant
                0 <= k <= 26,
                index@.len() == k,
                forall|i: int| 0 <= i < k ==> (#[trigger] index@[i])@.len() == 0,
            decreases 26 - k,
        {
            index.push(Vec::new());
            k = k + 1;
        }
        let r = RuleMap { tables: Vec::new(), index };
        proof {
            assert forall|c: char, id: usize| #[trigger] r.ids(c).contains(id) <==> (is_variable(c)
                && id < r.tables().len() && r.tables()[id as int].0.contains(c)) by {
                if is_variable(c) {
                    assert(r.ids(c).len() == 0);
                }
            }
        }
        r
    }

    /// The number of variables that some table mentions.
    pub fn variable_count(&self) -> (r: usize)
        requires
            self.wf(),
        ensures
            r == Set::new(|k: int| 0 <= k < 26 && self.ids(letter(k)).len() > 0).len(),
    {
        let mut n: usize = 0;
        let mut k: usize = 0;
        let ghost mut seen: Set<int> = Set::empty();
        while k < 26
            invariant
                self.layout(),
                0 <= k <= 26,
                seen == Set::new(|i: int| 0 <= i < k && self.ids(letter(i)).len() > 0),
                seen.finite(),
                n == seen.len(),
                n <= k,
            decreases 26 - k,
        {
            proof {
                assert(letter(k as int) as u32 - 65 == k);
            }
            if self.index[k].len() > 0 {
                proof {
                    assert(Set::new(|i: int| 0 <= i < k + 1 && self.ids(letter(i)).len() > 0)
                        =~= seen.insert(k as int));
                    seen = seen.insert(k as int);
                }
                n = n + 1;
            } else {
                proof {
                    assert(Set::new(|i: int| 0 <= i < k + 1 && self.ids(letter(i)).len() > 0)
                        =~= seen);
                }
            }
            k = k + 1;
        }
        n
    }

    /// The ids of the tables that mention `c`; none when `c` is no variable.
    pub fn lookup(&self, c: char) -> (r: Vec<usize>)
        requires
            self.wf(),
        ensures
            r@ == self.ids(c),
    {
        if crate::is_identifier(c) {
            let k = (c as u32 - 65) as usize;
            let mut r: Vec<usize> = Vec::new();
            let mut i: usize = 0;
            while i < self.index[k].len()
                invariant
                    self.layout(),
                    k == c as u32 - 65,
                    k < 26,
                    0 <= i <= self.index@[k as int]@.len(),
                    r@ == self.index@[k as int]@.take(i as int),
                decreases self.index@[k as int]@.len() - i,
            {
                r.push(self.index[k][i]);
                proof {
                    assert(self.index@[k as int]@.take(i + 1) =~= self.index@[k as int]@.take(
                        i as int,
                    ).push(self.index@[k as int]@[i as int]));
                }
                i = i + 1;
            }
            proof {
                assert(self.index@[k as int]@.take(i as int) =~= self.index@[k as int]@);
            }
            r
        } else {
            Vec::new()
        }
    }

    /// The number of tables held.
    pub fn table_count(&self) -> (r: usize)
        ensures
            r == self.tables().len(),
    {
        self.tables.len()
    }

    /// The table with id `id`.
    pub fn table(&self, id: usize) -> (r: &TruthTable)
        requires
            id < self.tables().len(),
        ensures
            view_of(*r) == self.tables()[id as int],
    {
        &self.tables[id]
    }

    /// Registers a table under each of its variables, unless an equal one is there.
    pub fn insert(&mut self, table: TruthTable)
        requires
            old(self).wf(),
        ensures
            final(self).wf(),
            final(self).tables() == register(old(self).tables(), view_of(table)),
            RuleMap::registered(old(self), final(self), view_of(table)),
    {
        let ghost t = view_of(table);
        let mut i: usize = 0;
        while i < self.tables.len()
            invariant
                0 <= i <= self.tables@.len(),
                *self == *old(self),
                self.wf(),
                t == view_of(table),
                forall|k: int| 0 <= k < i ==> self.tables()[k] != t,
            decreases self.tables.len() - i,
        {
            proof {
                assert(self.tables()[i as int] == view_of(self.tables@[i as int]));
            }
            if self.tables[i].equals(&table) {
                proof {
                    assert(self.tables()[i as int] == t);
                    assert(self.tables().contains(t));
                }
                return;
            }
            i = i + 1;
        }
        proof {
            if self.tables().contains(t) {
                let k = choose|k: int| 0 <= k < self.tables().len() && self.tables()[k] == t;
                assert(self.tables()[k] != t);
            }
        }
        let id = self.tables.len();
        let mut index: Vec<Vec<usize>> = Vec::new();
        let mut k: usize = 0;
        while k < 26
            invariant
                self.layout(),
                self.wf(),
                t == view_of(table),
                !self.tables().contains(t),
                0 <= k <= 26,
                id == self.tables@.len(),
                index@.len() == k,
                forall|j: int|
                    0 <= j < k ==> (#[trigger] index@[j])@ == if table.variables@.contains(
                        letter(j),
                    ) {
                        self.index@[j]@.push(id)
                    } else {
                        self.index@[j]@
                    },
            decreases 26 - k,
        {
            let c = (65 + k as u8) as char;
            let mut l = self.index[k].clone();
            proof {
                assert(l@ =~= self.index@[k as int]@);
            }
            if contains_char(&table.variables, c) {
                l.push(id);
            }
            index.push(l);
            k = k + 1;
        }
        let ghost prev = *self;
        self.tables.push(table);
        self.index = index;
        proof {
            assert(self.tables() =~= prev.tables().push(t));
            assert(self.tables() == register(prev.tables(), t));
            assert forall|c: char| #[trigger] self.ids(c) == if is_variable(c) && t.0.contains(c) {
                prev.ids(c).push(prev.tables().len() as usize)
            } else {
                prev.ids(c)
            } by {
                if is_variable(c) {
                    let j = c as u32 - 65;
                    assert(letter(j as int) == c);
                }
            }
            assert forall|c: char| increasing(#[trigger] self.ids(c)) by {
                assert(increasing(prev.ids(c)));
                if is_variable(c) && t.0.contains(c) {
                    assert forall|x: int| 0 <= x < prev.ids(c).len() implies prev.ids(c)[x] < id by {
                        assert(prev.ids(c).contains(prev.ids(c)[x]));
                    }
                }
            }
            assert forall|c: char, n: usize| #[trigger] self.ids(c).contains(n) <==> (is_variable(c)
                && n < self.tables().len() && self.tables()[n as int].0.contains(c)) by {
                if is_variable(c) && t.0.contains(c) {
                    if self.ids(c).contains(n) && n != id {
                        let x = choose|x: int| 0 <= x < self.ids(c).len() && self.ids(c)[x] == n;
                        assert(prev.ids(c)[x] == n);
                        assert(prev.ids(c).contains(n));
                    }
                    if n < id && prev.tables()[n as int].0.contains(c) {
                        assert(prev.ids(c).contains(n));
                        let x = choose|x: int| 0 <= x < prev.ids(c).len() && prev.ids(c)[x] == n;
                        assert(self.ids(c)[x] == n);
                    }
                    if n == id {
                        assert(self.ids(c)[prev.ids(c).len() as int] == n);
                    }
                } else {
                    if n == id && is_variable(c) {
                        assert(!prev.ids(c).contains(n));
                    }
                }
            }
        }
    }

    /// Registers each table in turn.
    pub fn insert_vec(&mut self, tables: Vec<TruthTable>)
        requires
            old(self).wf(),
        ensures
            final(self).wf(),
            final(self).tables() == register_all(old(self).tables(), views(tables@)),
    {
        let ghost ts = views(tables@);
        let ghost start = self.tables();
        let mut rest = tables;
        let ghost mut i: int = 0;
        while rest.len() > 0
            invariant
                0 <= i <= ts.len(),
                ts == views(tables@),
                start == old(self).tables(),
                rest@.len() == ts.len() - i,
                views(rest@) == ts.skip(i),
                self.wf(),
                self.tables() == register_all(start, ts.take(i)),
            decreases rest.len(),
        {
            let ghost before = rest@;
            proof {
                assert(views(before)[0] == view_of(before[0]));
            }
            let t = rest.remove(0);
            proof {
                assert(ts.take(i + 1).drop_last() =~= ts.take(i));
                assert(ts.skip(i)[0] == ts[i]);
                assert forall|k: int| 0 <= k < rest@.len() implies #[trigger] views(rest@)[k]
                    == ts.skip(i + 1)[k] by {
                    assert(rest@[k] == before[k + 1]);
                    assert(views(before)[k + 1] == view_of(before[k + 1]));
                }
                assert(views(rest@) =~= ts.skip(i + 1));
            }
            self.insert(t);
            proof {
                i = i + 1;
            }
        }
        proof {
            assert(ts.take(i) =~= ts);
        }
    }

    /// Builds the table of a rule and registers it.
    pub fn insert_rule(&mut self, rule: &str) -> (r: Result<(), RuleError>)
        requires
            old(self).wf(),
        ensures
            final(self).wf(),
            r is Ok <==> rule_builds(rule@),
            r is Ok ==> final(self).tables() == register(old(self).tables(), rule_table(rule@)),
            r is Ok ==> RuleMap::registered(old(self), final(self), rule_table(rule@)),
            r is Err ==> *final(self) == *old(self) && r->Err_0.rule@ == rule@,
    {
        match TruthTable::from_rule(rule) {
            Ok(table) => {
                self.insert(table);
                Ok(())
            },
            Err(cause) => Err(RuleError { rule: rule.to_string(), cause }),
        }
    }

    /// Builds and registers each rule in turn, and stops at the first one that fails:
    /// the rules before it stay registered.
    pub fn insert_rule_vec(&mut self, rules: Vec<&str>) -> (r: Result<(), RuleError>)
        requires
            old(self).wf(),
        ensures
            final(self).wf(),
            r is Ok <==> forall|i: int| 0 <= i < rules@.len() ==> rule_builds(#[trigger] rules@[i]@),
            r is Ok ==> final(self).tables() == register_all(
                old(self).tables(),
                rules@.map_values(|s: &str| rule_table(s@)),
            ),
            r is Err ==> exists|k: int|
                {
                    &&& 0 <= k < rules@.len()
                    &&& forall|i: int| 0 <= i < k ==> rule_builds(#[trigger] rules@[i]@)
                    &&& !rule_builds(rules@[k]@)
                    &&& r->Err_0.rule@ == rules@[k]@
                    &&& final(self).tables() == register_all(
                        old(self).tables(),
                        rules@.take(k).map_values(|s: &str| rule_table(s@)),
                    )
                },
    {
        let ghost ts = rules@.map_values(|s: &str| rule_table(s@));
        let ghost start = self.tables();
        let mut i: usize = 0;
        while i < rules.len()
            invariant
                0 <= i <= rules@.len(),
                ts == rules@.map_values(|s: &str| rule_table(s@)),
                start == old(self).tables(),
                self.wf(),
                forall|j: int| 0 <= j < i ==> rule_builds(#[trigger] rules@[j]@),
                self.tables() == register_all(start, ts.take(i as int)),
            decreases rules.len() - i,
        {
            let rule = rules[i];
            proof {
                assert(ts.take(i + 1).drop_last() =~= ts.take(i as int));
            }
            match self.insert_rule(rule) {
                Ok(()) => {},
                Err(e) => {
                    proof {
                        assert(rules@.take(i as int).map_values(|s: &str| rule_table(s@))
                            =~= ts.take(i as int));
                        assert(!rule_builds(rules@[i as int]@));
                        assert(e.rule@ == rules@[i as int]@);
                    }
                    return Err(e);
                },
            }
            i = i + 1;
        }
        proof {
            assert(ts.take(i as int) =~= ts);
        }
        Ok(())
    }

    /// An index holding the given tables.
    pub fn from_tables(tables: Vec<TruthTable>) -> (r: RuleMap)
        ensures
            r.wf(),
            r.tables() == register_all(Seq::empty(), views(tables@)),
    {
        let mut map = RuleMap::new();
        proof {
            assert(map.tables() =~= Seq::empty());
        }
        map.insert_vec(tables);
        map
    }

    /// An index holding the tables of the given rules; fails, with no index, at the
    /// first rule that does not build.
    pub fn from_rules(rules: Vec<&str>) -> (r: Result<RuleMap, RuleError>)
        ensures
            r is Ok <==> forall|i: int| 0 <= i < rules@.len() ==> rule_builds(#[trigger] rules@[i]@),
            r is Ok ==> r->Ok_0.wf() && r->Ok_0.tables() == register_all(
                Seq::empty(),
                rules@.map_values(|s: &str| rule_table(s@)),
            ),
            r is Err ==> exists|k: int|
                {
                    &&& 0 <= k < rules@.len()
                    &&& forall|i: int| 0 <= i < k ==> rule_builds(#[trigger] rules@[i]@)
                    &&& !rule_builds(rules@[k]@)
                    &&& r->Err_0.rule@ == rules@[k]@
                },
    {
        let mut map = RuleMap::new();
        proof {
            assert(map.tables() =~= Seq::empty());
        }
        match map.insert_rule_vec(rules) {
            Ok(()) => Ok(map),
            Err(e) => Err(e),
        }
    }
}

impl Default for RuleMap {
    fn default() -> (r: RuleMap)
        ensures
            r.wf(),
            r.tables().len() == 0,
    {
        RuleMap::new()
    }
}

impl RuleError {
    pub open spec fn text(&self) -> Seq<char> {
        "Failed to create truth table from: '"@ + self.rule@ + "'"@
    }

    /// The error, in words.
    pub fn message(&self) -> (r: String)
        ensures
            r@ == self.text(),
    {
        let mut r = String::from_str("Failed to create truth table from: '");
        r.append(self.rule.as_str());
        r.append("'");
        r
    }
}

} // verus!
