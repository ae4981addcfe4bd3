use vstd::arithmetic::power2::pow2;
use vstd::prelude::*;

use crate::is_variable;
use crate::permutation::{ascending, contains_char};
use crate::rule_map::{view_of, RuleMap};
use crate::truth_table::{expand, TruthTable};

verus! {

/// The answer to a query.
#[derive(Debug, Clone, Copy, PartialEq, Eq, Structural)]
pub enum Outcome {
    True,
    False,
    Undetermined,
}

/// A table given by its variables and results is well formed.
pub open spec fn table_wf(t: (Seq<char>, Seq<bool>)) -> bool {
    &&& ascending(t.0)
    &&& forall|i: int| 0 <= i < t.0.len() ==> is_variable(#[trigger] t.0[i])
    &&& t.0.len() <= 26
    &&& t.1.len() == pow2(t.0.len())
}

/// The table `t` with the variable `w` fixed to `value`.
pub open spec fn reduce_view(t: (Seq<char>, Seq<bool>), w: char, value: bool) -> (
    Seq<char>,
    Seq<bool>,
) {
    let b = t.0.index_of(w);
    let m = (t.0.len() - 1 - b) as nat;
    (t.0.remove(b), Seq::new(t.1.len() / 2, |j: int| t.1[expand(j as nat, m, value) as int]))
}

/// The vote of a table that only its query variable is left in: true when the rule
/// forces the variable true, false when it forces it false, none otherwise.
pub open spec fn classify(t: (Seq<char>, Seq<bool>)) -> Option<bool> {
    if t.1 == seq![false, true] {
        Some(true)
    } else if t.1 == seq![true, false] {
        Some(false)
    } else {
        None
    }
}

/// The verdict from the votes: no vote or only false votes give false, only true
/// votes give true, both give undetermined.
pub open spec fn tally(yes: bool, no: bool) -> Outcome {
    if yes && no {
        Outcome::Undetermined
    } else if yes {
        Outcome::True
    } else {
        Outcome::False
    }
}

/// How many tables are not yet visited.
pub open spec fn unvisited(v: Seq<bool>) -> nat
    decreases v.len(),
{
    if v.len() == 0 {
        0
    } else {
        unvisited(v.drop_last()) + if v.last() {
            0nat
        } else {
            1nat
        }
    }
}

/// `b` has visited every table that `a` has.
pub open spec fn grows(a: Seq<bool>, b: Seq<bool>) -> bool {
    a.len() == b.len() && forall|i: int| 0 <= i < a.len() && a[i] ==> b[i]
}

proof fn lemma_unvisited_mark(v: Seq<bool>, i: int)
    requires
        0 <= i < v.len(),
        !v[i],
    ensures
        unvisited(v.update(i, true)) + 1 == unvisited(v),
    decreases v.len(),
{
    let u = v.update(i, true);
    if i < v.len() - 1 {
        assert(u.drop_last() =~= v.drop_last().update(i, true));
        lemma_unvisited_mark(v.drop_last(), i);
    } else {
        assert(u.drop_last() =~= v.drop_last());
    }
}

proof fn lemma_unvisited_grows(a: Seq<bool>, b: Seq<bool>)
    requires
        grows(a, b),
    ensures
        unvisited(b) <= unvisited(a),
    decreases a.len(),
{
    if a.len() > 0 {
        lemma_unvisited_grows(a.drop_last(), b.drop_last());
    }
}

/// The outcome of `v`, and the visited tables after it, from the visited tables `vis`.
/// A fact is true. Otherwise each table listed under `v` that is well formed and not
/// yet visited is marked visited and votes; the votes are tallied.
pub open spec fn resolve_in(m: RuleMap, facts: Seq<char>, v: char, vis: Seq<bool>) -> (
    Outcome,
    Seq<bool>,
)
    decreases unvisited(vis) as int, 1int, 0int,
{
    if facts.contains(v) {
        (Outcome::True, vis)
    } else {
        let r = votes_in(m, facts, v, m.ids(v), 0, vis);
        (tally(r.0, r.1), r.2)
    }
}

/// Whether some of the tables `ids[k..]` vote true, whether some vote false, and the
/// visited tables after them.
pub open spec fn votes_in(
    m: RuleMap,
    facts: Seq<char>,
    v: char,
    ids: Seq<usize>,
    k: int,
    vis: Seq<bool>,
) -> (bool, bool, Seq<bool>)
    decreases unvisited(vis) as int, 0int, ids.len() - k,
{
    if k < 0 || k >= ids.len() {
        (false, false, vis)
    } else {
        let id = ids[k] as int;
        if id >= vis.len() || vis[id] || id >= m.tables().len() || !table_wf(m.tables()[id]) {
            votes_in(m, facts, v, ids, k + 1, vis)
        } else {
            let vis1 = vis.update(id, true);
            if unvisited(vis1) < unvisited(vis) {
                let t = m.tables()[id];
                let r = rule_vote(m, facts, v, t.0, t, 0, vis1);
                if unvisited(r.1) <= unvisited(vis1) {
                    let rest = votes_in(m, facts, v, ids, k + 1, r.1);
                    (rest.0 || r.0 == Some(true), rest.1 || r.0 == Some(false), rest.2)
                } else {
                    (false, false, r.1)
                }
            } else {
                (false, false, vis1)
            }
        }
    }
}

/// The vote of a table for `v`: the variables `order[b..]` other than `v` are resolved
/// one by one and fixed in `cur`; an undetermined one ends the rule without a vote.
pub open spec fn rule_vote(
    m: RuleMap,
    facts: Seq<char>,
    v: char,
    order: Seq<char>,
    cur: (Seq<char>, Seq<bool>),
    b: int,
    vis: Seq<bool>,
) -> (Option<bool>, Seq<bool>)
    decreases unvisited(vis) as int, 2int, order.len() - b,
{
    if b < 0 || b >= order.len() {
        (classify(cur), vis)
    } else {
        let w = order[b];
        if w == v {
            rule_vote(m, facts, v, order, cur, b + 1, vis)
        } else {
            let r = resolve_in(m, facts, w, vis);
            if unvisited(r.1) <= unvisited(vis) {
                match r.0 {
                    Outcome::Undetermined => (None, r.1),
                    Outcome::True => rule_vote(
                        m,
                        facts,
                        v,
                        order,
                        reduce_view(cur, w, true),
                        b + 1,
                        r.1,
                    ),
                    Outcome::False => rule_vote(
                        m,
                        facts,
                        v,
                        order,
                        reduce_view(cur, w, false),
                        b + 1,
                        r.1,
                    ),
                }
            } else {
                (None, r.1)
            }
        }
    }
}

/// The answer to the query `v`: resolution starts with no table visited.
pub open spec fn outcome(m: RuleMap, facts: Seq<char>, v: char) -> Outcome {
    resolve_in(m, facts, v, Seq::new(m.tables().len(), |i: int| false)).0
}

/// Answers queries by backward chaining over a rule index and a set of facts.
pub struct Resolver {
    map: RuleMap,
    facts: Vec<char>,
    queries: Vec<char>,
}

impl Resolver {
    pub closed spec fn rules(&self) -> RuleMap {
        self.map
    }

    pub closed spec fn fact_list(&self) -> Seq<char> {
        self.facts@
    }

    pub closed spec fn query_list(&self) -> Seq<char> {
        self.queries@
    }

    pub open spec fn wf(&self) -> bool {
        self.rules().wf()
    }

    /// A resolver over `map`, with the variables in `facts` true, for `queries`.
    pub fn new(map: RuleMap, facts: Vec<char>, queries: Vec<char>) -> (r: Resolver)
        requires
            map.wf(),
        ensures
            r.wf(),
            r.rules() == map,
            r.fact_list() == facts@,
            r.query_list() == queries@,
    {
        Resolver { map, facts, queries }
    }

    fn resolve_from(&self, v: char, vis: &mut Vec<bool>) -> (r: Outcome)
        requires
            self.wf(),
            old(vis)@.len() == self.map.tables().len(),
        ensures
            (r, final(vis)@) == resolve_in(self.map, self.facts@, v, old(vis)@),
            grows(old(vis)@, final(vis)@),
        decreases unvisited(old(vis)@) as int, 1int, 0int,
    {
        if contains_char(&self.facts, v) {
            return Outcome::True;
        }
        let ids = self.map.lookup(v);
        let ghost vis0 = vis@;
        let mut yes = false;
        let mut no = false;
        let mut k: usize = 0;
        while k < ids.len()
            invariant
                self.wf(),
                ids@ == self.map.ids(v),
                0 <= k <= ids@.len(),
                vis@.len() == self.map.tables().len(),
                grows(vis0, vis@),
                vis0 == old(vis)@,
                !self.facts@.contains(v),
                ({
                    let now = votes_in(self.map, self.facts@, v, ids@, k as int, vis@);
                    votes_in(self.map, self.facts@, v, ids@, 0, vis0) == (
                        yes || now.0,
                        no || now.1,
                        now.2,
                    )
                }),
            decreases ids@.len() - k,
        {
            let id = ids[k];
            proof {
                assert(self.map.ids(v).contains(id));
            }
            if vis[id] || !self.map.table(id).is_valid() {
                k = k + 1;
                continue;
            }
            let ghost before = vis@;
            proof {
                lemma_unvisited_mark(before, id as int);
                lemma_unvisited_grows(vis0, before);
            }
            vis.set(id, true);
            proof {
                assert(grows(vis0, vis@));
            }
            let vote = self.rule_vote_from(v, id, vis);
            proof {
                lemma_unvisited_grows(before.update(id as int, true), vis@);
                assert(grows(vis0, vis@));
            }
            match vote {
                Some(true) => {
                    yes = true;
                },
                Some(false) => {
                    no = true;
                },
                None => {},
            }
            k = k + 1;
        }
        if yes && no {
            Outcome::Undetermined
        } else if yes {
            Outcome::True
        } else {
            Outcome::False
        }
    }

    fn rule_vote_from(&self, v: char, id: usize, vis: &mut Vec<bool>) -> (r: Option<bool>)
        requires
            self.wf(),
            id < self.map.tables().len(),
            table_wf(self.map.tables()[id as int]),
            old(vis)@.len() == self.map.tables().len(),
        ensures
            (r, final(vis)@) == rule_vote(
                self.map,
                self.facts@,
                v,
                self.map.tables()[id as int].0,
                self.map.tables()[id as int],
                0,
                old(vis)@,
            ),
            grows(old(vis)@, final(vis)@),
        decreases unvisited(old(vis)@) as int, 2int, 0int,
    {
        let table = self.map.table(id);
        let order = &table.variables;
        let ghost t0 = self.map.tables()[id as int];
        let ghost vis0 = vis@;
        let mut cur = table.duplicate();
        let mut b: usize = 0;
        while b < order.len()
            invariant
                self.wf(),
                id < self.map.tables().len(),
                t0 == self.map.tables()[id as int],
                order@ == t0.0,
                0 <= b <= order@.len(),
                ascending(order@),
                cur.wf(),
                forall|j: int| b <= j < order@.len() ==> cur.variables@.contains(order@[j]),
                vis@.len() == self.map.tables().len(),
                grows(vis0, vis@),
                vis0 == old(vis)@,
                rule_vote(self.map, self.facts@, v, t0.0, t0, 0, vis0) == rule_vote(
                    self.map,
                    self.facts@,
                    v,
                    t0.0,
                    view_of(cur),
                    b as int,
                    vis@,
                ),
            decreases order@.len() - b,
        {
            let w = order[b];
            if w == v {
                b = b + 1;
                continue;
            }
            let ghost before = vis@;
            proof {
                lemma_unvisited_grows(vis0, before);
            }
            let o = self.resolve_from(w, vis);
            proof {
                lemma_unvisited_grows(before, vis@);
            }
            let value = match o {
                Outcome::True => true,
                Outcome::False => false,
                Outcome::Undetermined => {
                    return None;
                },
            };
            let next = match cur.reduce(w, value) {
                Ok(t) => t,
                Err(_) => {
                    return None;
                },
            };
            proof {
                assert(view_of(next) == reduce_view(view_of(cur), w, value)) by {
                    assert(next.results@ =~= reduce_view(view_of(cur), w, value).1);
                }
                let bi = cur.variables@.index_of(w);
                assert forall|j: int| b + 1 <= j < order@.len() implies next.variables@.contains(
                    order@[j],
                ) by {
                    let x = order@[j];
                    assert(order@[b as int] < x);
                    let p = choose|p: int| 0 <= p < cur.variables@.len() && cur.variables@[p] == x;
                    if p < bi {
                        assert(next.variables@[p] == x);
                    } else {
                        assert(p != bi);
                        assert(next.variables@[p - 1] == x);
                    }
                }
            }
            cur = next;
            b = b + 1;
        }
        let r = &cur.results;
        if r.len() == 2 && !r[0] && r[1] {
            proof {
                assert(cur.results@ =~= seq![false, true]);
            }
            Some(true)
        } else if r.len() == 2 && r[0] && !r[1] {
            proof {
                assert(cur.results@ =~= seq![true, false]);
            }
            Some(false)
        } else {
            proof {
                if cur.results@ == seq![false, true] || cur.results@ == seq![true, false] {
                    assert(cur.results@.len() == 2);
                }
            }
            None
        }
    }

    /// The answer to the query `v`, with no table visited at the start.
    pub fn resolve(&self, v: char) -> (r: Outcome)
        requires
            self.wf(),
        ensures
            r == outcome(self.rules(), self.fact_list(), v),
    {
        let mut vis: Vec<bool> = Vec::new();
        let n = self.map.table_count();
        let mut i: usize = 0;
        while i < n
            invariant
                0 <= i <= n,
                n == self.map.tables().len(),
                vis@ =~= Seq::new(i as nat, |k: int| false),
            decreases n - i,
        {
            vis.push(false);
            i = i + 1;
        }
        self.resolve_from(v, &mut vis)
    }

    /// The answer to each query, in the order of the queries.
    pub fn solve(&self) -> (r: Vec<Outcome>)
        requires
            self.wf(),
        ensures
            r@.len() == self.query_list().len(),
            forall|i: int|
                0 <= i < r@.len() ==> #[trigger] r@[i] == outcome(
                    self.rules(),
                    self.fact_list(),
                    self.query_list()[i],
                ),
    {
        let mut r: Vec<Outcome> = Vec::new();
        let mut i: usize = 0;
        while i < self.queries.len()
            invariant
                self.wf(),
                0 <= i <= self.queries@.len(),
                r@.len() == i,
                forall|k: int|
                    0 <= k < i ==> #[trigger] r@[k] == outcome(
                        self.rules(),
                        self.fact_list(),
                        self.query_list()[k],
                    ),
            decreases self.queries.len() - i,
        {
            r.push(self.resolve(self.queries[i]));
            i = i + 1;
        }
        r
    }
}

/// Resolution leaves the resolver as it was and starts each query with no table
/// visited, so the same query asked twice gets the same answer.
pub proof fn lemma_same_query_same_outcome(r: Resolver, i: int, j: int)
    requires
        0 <= i < r.query_list().len(),
        0 <= j < r.query_list().len(),
        r.query_list()[i] == r.query_list()[j],
    ensures
        outcome(r.rules(), r.fact_list(), r.query_list()[i]) == outcome(
            r.rules(),
            r.fact_list(),
            r.query_list()[j],
        ),
{
}

} // verus!
