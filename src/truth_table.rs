use vstd::arithmetic::div_mod::{
    lemma_div_denominator, lemma_fundamental_div_mod, lemma_fundamental_div_mod_converse,
};
use vstd::arithmetic::power2::{lemma_pow2_adds, lemma_pow2_pos, lemma_pow2_unfold, pow2};
use vstd::prelude::*;

use crate::text::push_char;

use crate::is_variable;
use crate::permutation::{
    ascending, bit, digit, fix_variable, lemma_fixed_variables, lemma_index_in_ascending,
    lemma_variables_in, position_of, row_count, row_of, variables, variables_in,
    SequentialPermutationIter,
};
use crate::rule_parser::{eval_outcome, evaluate_rule, lex, parse_rule, EvalError};

verus! {

/// The truth value of a variable-free rule text, if it has one.
#[verifier::opaque]
pub open spec fn rule_value(s: Seq<char>) -> Option<bool> {
    match lex(s) {
        Ok(t) => match parse_rule(t) {
            Ok(b) => Some(b),
            Err(_) => None,
        },
        Err(_) => None,
    }
}

/// Every row of the rule `s` evaluates.
pub open spec fn rule_builds(s: Seq<char>) -> bool {
    forall|i: nat| i < pow2(variables_in(s).len()) ==> (#[trigger] rule_value(row_of(s, i))) is Some
}

/// The results of the rule `s`, one per row.
pub open spec fn rule_results(s: Seq<char>) -> Seq<bool> {
    Seq::new(pow2(variables_in(s).len()), |i: int| rule_value(row_of(s, i as nat))->Some_0)
}

/// The row of a table that row `j` of its reduction comes from, where the fixed
/// variable is bit `m` of the row number and is fixed to `value`.
pub open spec fn expand(j: nat, m: nat, value: bool) -> nat {
    (j / pow2(m)) * pow2(m + 1) + (if value {
        pow2(m)
    } else {
        0nat
    }) + j % pow2(m)
}

/// The truth table of a rule: its variables, ascending, and one result per row.
/// In row `i`, the variable at position `b` of `n` has the value of bit `n - 1 - b` of `i`.
#[derive(Debug, Clone, PartialEq, Eq, Hash)]
pub struct TruthTable {
    pub variables: Vec<char>,
    pub results: Vec<bool>,
}

/// A rule whose table could not be built: the first row that failed, and why.
#[derive(Debug, Clone)]
pub struct BuildError {
    pub permutation: String,
    pub cause: EvalError,
}

/// Why a table could not be reduced.
#[derive(Debug, Clone, Copy, PartialEq, Eq, Structural)]
pub enum ReduceError {
    MissingVariable(char),
}

proof fn lemma_eval_outcome(s: Seq<char>, r: Result<bool, EvalError>)
    requires
        eval_outcome(s, r),
    ensures
        r is Ok ==> rule_value(s) == Some(r->Ok_0),
        r is Err ==> rule_value(s) is None,
{
    reveal(rule_value);
    reveal(eval_outcome);
}

/// Bounds and the fixed bit of a row that a reduced row comes from.
pub proof fn lemma_expand(j: nat, m: nat, k: nat, value: bool)
    requires
        j < pow2(m + k),
    ensures
        expand(j, m, value) < pow2(m + 1 + k),
        bit(expand(j, m, value), m) == value,
{
    let p = pow2(m);
    let kk = pow2(k);
    lemma_pow2_pos(m);
    lemma_pow2_pos(k);
    lemma_pow2_adds(m, k);
    lemma_pow2_unfold(m + 1);
    lemma_pow2_adds(m + 1, k);
    lemma_fundamental_div_mod(j as int, p as int);
    let q = j / p;
    let r = j % p;
    assert(q < kk) by (nonlinear_arith)
        requires
            j == p * q + r,
            0 <= r,
            j < p * kk,
            p > 0,
    ;
    let v: nat = if value {
        1
    } else {
        0
    };
    assert(expand(j, m, value) == (2 * q + v) * p + r) by (nonlinear_arith)
        requires
            expand(j, m, value) == q * pow2(m + 1) + v * p + r,
            pow2(m + 1) == 2 * p,
    ;
    assert((2 * q + v) * p + r < pow2(m + 1 + k)) by (nonlinear_arith)
        requires
            q + 1 <= kk,
            r < p,
            v <= 1,
            pow2(m + 1 + k) == 2 * p * kk,
    ;
    lemma_fundamental_div_mod_converse(expand(j, m, value) as int, p as int, (2 * q + v) as int, r as int);
    lemma_fundamental_div_mod_converse((2 * q + v) as int, 2, q as int, v as int);
}

/// Reduction keeps the order of the rows: later reduced rows come from later rows.
pub proof fn lemma_expand_increasing(j1: nat, j2: nat, m: nat, value: bool)
    requires
        j1 < j2,
    ensures
        expand(j1, m, value) < expand(j2, m, value),
{
    let p = pow2(m);
    lemma_pow2_pos(m);
    lemma_pow2_unfold(m + 1);
    lemma_fundamental_div_mod(j1 as int, p as int);
    lemma_fundamental_div_mod(j2 as int, p as int);
    let q1 = j1 / p;
    let q2 = j2 / p;
    let r1 = j1 % p;
    let r2 = j2 % p;
    let v: nat = if value {
        p
    } else {
        0
    };
    assert(q1 <= q2) by {
        vstd::arithmetic::div_mod::lemma_div_is_ordered(j1 as int, j2 as int, p as int);
    }
    if q1 == q2 {
        assert(r1 < r2) by (nonlinear_arith)
            requires
                j1 == p * q1 + r1,
                j2 == p * q2 + r2,
                q1 == q2,
                j1 < j2,
        ;
    } else {
        assert(q1 * (2 * p) + v + r1 < q2 * (2 * p) + v + r2) by (nonlinear_arith)
            requires
                q1 + 1 <= q2,
                r1 < p,
                0 <= r2,
                p > 0,
        ;
    }
}

/// Every row whose bit `m` is `value` is the source of some reduced row: reduction
/// keeps exactly the rows where the fixed variable has its value.
pub proof fn lemma_expand_onto(i: nat, m: nat, k: nat, value: bool)
    requires
        i < pow2(m + 1 + k),
        bit(i, m) == value,
    ensures
        ({
            let j = (i / pow2(m + 1)) * pow2(m) + i % pow2(m);
            j < pow2(m + k) && expand(j, m, value) == i
        }),
{
    let p = pow2(m);
    let kk = pow2(k);
    lemma_pow2_pos(m);
    lemma_pow2_pos(k);
    lemma_pow2_unfold(m + 1);
    lemma_pow2_adds(m, k);
    lemma_pow2_adds(m + 1, k);
    let q = i / (2 * p);
    let rr = i % (2 * p);
    lemma_fundamental_div_mod(i as int, (2 * p) as int);
    vstd::arithmetic::div_mod::lemma_mod_pos_bound(i as int, (2 * p) as int);
    lemma_fundamental_div_mod(rr as int, p as int);
    vstd::arithmetic::div_mod::lemma_mod_pos_bound(rr as int, p as int);
    let h = rr / p;
    let l = rr % p;
    assert(h < 2) by (nonlinear_arith)
        requires
            rr == p * h + l,
            rr < 2 * p,
            0 <= l,
            p > 0,
    ;
    assert(i == (2 * q + h) * p + l) by (nonlinear_arith)
        requires
            i == (2 * p) * q + rr,
            rr == p * h + l,
    ;
    lemma_fundamental_div_mod_converse(i as int, p as int, (2 * q + h) as int, l as int);
    lemma_fundamental_div_mod_converse((2 * q + h) as int, 2, q as int, h as int);
    let v: nat = if value {
        1
    } else {
        0
    };
    assert(h == v);
    let j = q * p + l;
    assert(j == p * q + l) by (nonlinear_arith)
        requires
            j == q * p + l,
    ;
    lemma_fundamental_div_mod_converse(j as int, p as int, q as int, l as int);
    assert(q < kk) by (nonlinear_arith)
        requires
            i == (2 * p) * q + rr,
            0 <= rr,
            i < 2 * p * kk,
            p > 0,
    ;
    assert(j < p * kk) by (nonlinear_arith)
        requires
            j == p * q + l,
            l < p,
            q + 1 <= kk,
    ;
    assert(expand(j, m, value) == q * (2 * p) + v * p + l);
    assert(q * (2 * p) + v * p + l == i) by (nonlinear_arith)
        requires
            i == (2 * q + h) * p + l,
            h == v,
    ;
}

/// Below the fixed bit, a reduced row and the row it comes from agree bit for bit.
proof fn lemma_expand_low_bit(j: nat, m: nat, k: nat, value: bool)
    requires
        k < m,
    ensures
        bit(expand(j, m, value), k) == bit(j, k),
{
    let p = pow2(m);
    let pk = pow2(k);
    let d = (m - k) as nat;
    lemma_pow2_pos(m);
    lemma_pow2_pos(k);
    lemma_pow2_pos(d);
    lemma_pow2_unfold(m + 1);
    lemma_pow2_adds(k, d);
    lemma_pow2_unfold(d);
    let h = pow2((d - 1) as nat);
    assert(pow2(d) == 2 * h);
    assert(p == pk * (2 * h));
    lemma_fundamental_div_mod(j as int, p as int);
    vstd::arithmetic::div_mod::lemma_mod_pos_bound(j as int, p as int);
    let q = j / p;
    let r = j % p;
    lemma_fundamental_div_mod(r as int, pk as int);
    vstd::arithmetic::div_mod::lemma_mod_pos_bound(r as int, pk as int);
    let rh = r / pk;
    let rl = r % pk;
    let v: nat = if value {
        1
    } else {
        0
    };
    let x = expand(j, m, value);
    assert(x == q * (2 * p) + v * p + r);
    assert(x == (4 * q * h + 2 * v * h + rh) * pk + rl) by (nonlinear_arith)
        requires
            x == q * (2 * p) + v * p + r,
            p == pk * (2 * h),
            r == pk * rh + rl,
    ;
    assert(j == (2 * q * h + rh) * pk + rl) by (nonlinear_arith)
        requires
            j == p * q + r,
            p == pk * (2 * h),
            r == pk * rh + rl,
    ;
    lemma_fundamental_div_mod_converse(
        x as int,
        pk as int,
        (4 * q * h + 2 * v * h + rh) as int,
        rl as int,
    );
    lemma_fundamental_div_mod_converse(j as int, pk as int, (2 * q * h + rh) as int, rl as int);
    vstd::arithmetic::div_mod::lemma_mod_multiples_vanish(
        (2 * q * h + v * h) as int,
        rh as int,
        2,
    );
    vstd::arithmetic::div_mod::lemma_mod_multiples_vanish((q * h) as int, rh as int, 2);
    assert(4 * q * h + 2 * v * h + rh == 2 * (2 * q * h + v * h) + rh) by (nonlinear_arith);
    assert(2 * q * h + rh == 2 * (q * h) + rh) by (nonlinear_arith);
}

/// Above the fixed bit, bit `k + 1` of the row a reduced row comes from is bit `k` of
/// the reduced row.
proof fn lemma_expand_high_bit(j: nat, m: nat, k: nat, value: bool)
    requires
        k >= m,
    ensures
        bit(expand(j, m, value), k + 1) == bit(j, k),
{
    let p = pow2(m);
    let d = (k - m) as nat;
    lemma_pow2_pos(m);
    lemma_pow2_pos(d);
    lemma_pow2_unfold(m + 1);
    lemma_pow2_adds(m + 1, d);
    lemma_pow2_adds(m, d);
    assert(m + 1 + d == k + 1);
    assert(m + d == k);
    lemma_fundamental_div_mod(j as int, p as int);
    vstd::arithmetic::div_mod::lemma_mod_pos_bound(j as int, p as int);
    let q = j / p;
    let r = j % p;
    let v: nat = if value {
        1
    } else {
        0
    };
    let x = expand(j, m, value);
    assert(x == (2 * p) * q + (v * p + r)) by (nonlinear_arith)
        requires
            x == q * (2 * p) + v * p + r,
    ;
    assert(v * p + r < 2 * p) by (nonlinear_arith)
        requires
            v <= 1,
            r < p,
    ;
    lemma_fundamental_div_mod_converse(x as int, (2 * p) as int, q as int, (v * p + r) as int);
    lemma_div_denominator(x as int, (2 * p) as int, pow2(d) as int);
    lemma_div_denominator(j as int, p as int, pow2(d) as int);
}

/// Row `j` of a formula with one variable fixed is the row of the whole formula that
/// reduction takes row `j` from.
pub proof fn lemma_fixed_rows(s: Seq<char>, b: int, value: bool, j: nat)
    requires
        0 <= b < variables_in(s).len(),
        j < pow2((variables_in(s).len() - 1) as nat),
    ensures
        row_of(fix_variable(s, variables_in(s)[b], value), j) == row_of(
            s,
            expand(j, (variables_in(s).len() - 1 - b) as nat, value),
        ),
{
    let v = variables_in(s);
    let n = v.len();
    let w = v[b];
    let m = (n - 1 - b) as nat;
    let s2 = fix_variable(s, w, value);
    let v2 = v.remove(b);
    let x = expand(j, m, value);
    lemma_fixed_variables(s, b, value);
    lemma_variables_in(s);
    lemma_variables_in(s2);
    assert(m + b == n - 1);
    lemma_expand(j, m, b as nat, value);
    assert forall|p: int| 0 <= p < s.len() implies #[trigger] row_of(s2, j)[p] == row_of(s, x)[p] by {
        let c = s[p];
        if c == w {
            assert(!is_variable(digit(value)));
            assert(!v2.contains(digit(value)));
            lemma_index_in_ascending(v, b);
        } else if v.contains(c) {
            let k = choose|k: int| 0 <= k < v.len() && v[k] == c;
            lemma_index_in_ascending(v, k);
            assert(k != b);
            let k2 = if k < b {
                k
            } else {
                k - 1
            };
            assert(v2[k2] == c);
            lemma_index_in_ascending(v2, k2);
            if k < b {
                lemma_expand_high_bit(j, m, (n - 2 - k) as nat, value);
                assert((n - 2 - k) as nat + 1 == (n - 1 - k) as nat);
            } else {
                lemma_expand_low_bit(j, m, (n - 1 - k) as nat, value);
                assert((n - 1 - 1 - k2) as nat == (n - 1 - k) as nat);
            }
        } else {
            if v2.contains(c) {
                let k = choose|k: int| 0 <= k < v2.len() && v2[k] == c;
                let kk = if k < b {
                    k
                } else {
                    k + 1
                };
                assert(v[kk] == c);
            }
        }
    }
    assert(row_of(s2, j) =~= row_of(s, x));
}

/// Building a formula with one variable fixed to a digit gives the reduction of the
/// formula's table by that variable: the same variables but that one, half the rows,
/// and row `j` the row of the whole table that reduction takes it from.
pub proof fn lemma_build_fixed(s: Seq<char>, b: int, value: bool)
    requires
        0 <= b < variables_in(s).len(),
        rule_builds(s),
    ensures
        ({
            let v = variables_in(s);
            let s2 = fix_variable(s, v[b], value);
            let m = (v.len() - 1 - b) as nat;
            &&& rule_builds(s2)
            &&& variables_in(s2) == v.remove(b)
            &&& rule_results(s2).len() * 2 == rule_results(s).len()
            &&& forall|j: int|
                0 <= j < rule_results(s2).len() ==> #[trigger] rule_results(s2)[j]
                    == rule_results(s)[expand(j as nat, m, value) as int]
        }),
{
    let v = variables_in(s);
    let n = v.len();
    let s2 = fix_variable(s, v[b], value);
    let m = (n - 1 - b) as nat;
    lemma_fixed_variables(s, b, value);
    lemma_pow2_unfold(n);
    assert(v.remove(b).len() == n - 1);
    assert(m + b == n - 1);
    assert(m + 1 + b == n);
    assert forall|j: nat| j < pow2(variables_in(s2).len()) implies (#[trigger] rule_value(
        row_of(s2, j),
    )) is Some by {
        lemma_fixed_rows(s, b, value, j);
        lemma_expand(j, m, b as nat, value);
        assert(rule_value(row_of(s, expand(j, m, value))) is Some);
    }
    assert forall|j: int| 0 <= j < rule_results(s2).len() implies #[trigger] rule_results(s2)[j]
        == rule_results(s)[expand(j as nat, m, value) as int] by {
        lemma_fixed_rows(s, b, value, j as nat);
        lemma_expand(j as nat, m, b as nat, value);
    }
}

impl TruthTable {
    /// Variables ascending, all of them letters, and one result for each row.
    pub open spec fn wf(&self) -> bool {
        &&& ascending(self.variables@)
        &&& forall|i: int|
            0 <= i < self.variables@.len() ==> is_variable(#[trigger] self.variables@[i])
        &&& self.variables@.len() <= 26
        &&& self.results@.len() == pow2(self.variables@.len())
    }

    /// A table over no variables and with no rows.
    pub fn new() -> (r: TruthTable)
        ensures
            r.variables@ == Seq::<char>::empty(),
            r.results@ == Seq::<bool>::empty(),
    {
        TruthTable { variables: Vec::new(), results: Vec::new() }
    }

    /// Whether two tables have the same variables and the same results.
    pub fn equals(&self, other: &TruthTable) -> (r: bool)
        ensures
            r == (self.variables@ == other.variables@ && self.results@ == other.results@),
    {
        if self.variables.len() != other.variables.len() || self.results.len()
            != other.results.len() {
            return false;
        }
        let mut i: usize = 0;
        while i < self.variables.len()
            invariant
                0 <= i <= self.variables@.len(),
                self.variables@.len() == other.variables@.len(),
                forall|k: int| 0 <= k < i ==> self.variables@[k] == other.variables@[k],
            decreases self.variables.len() - i,
        {
            if self.variables[i] != other.variables[i] {
                return false;
            }
            i = i + 1;
        }
        let mut i: usize = 0;
        while i < self.results.len()
            invariant
                0 <= i <= self.results@.len(),
                self.results@.len() == other.results@.len(),
                forall|k: int| 0 <= k < i ==> self.results@[k] == other.results@[k],
            decreases self.results.len() - i,
        {
            if self.results[i] != other.results[i] {
                return false;
            }
            i = i + 1;
        }
        assert(self.variables@ =~= other.variables@);
        assert(self.results@ =~= other.results@);
        true
    }

    /// A copy of the table.
    pub fn duplicate(&self) -> (r: TruthTable)
        ensures
            r.variables@ == self.variables@,
            r.results@ == self.results@,
    {
        let mut variables: Vec<char> = Vec::new();
        let mut i: usize = 0;
        while i < self.variables.len()
            invariant
                0 <= i <= self.variables@.len(),
                variables@ == self.variables@.take(i as int),
            decreases self.variables.len() - i,
        {
            variables.push(self.variables[i]);
            proof {
                assert(self.variables@.take(i + 1) =~= self.variables@.take(i as int).push(
                    self.variables@[i as int],
                ));
            }
            i = i + 1;
        }
        let mut results: Vec<bool> = Vec::new();
        let mut i: usize = 0;
        while i < self.results.len()
            invariant
                0 <= i <= self.results@.len(),
                results@ == self.results@.take(i as int),
            decreases self.results.len() - i,
        {
            results.push(self.results[i]);
            proof {
                assert(self.results@.take(i + 1) =~= self.results@.take(i as int).push(
                    self.results@[i as int],
                ));
            }
            i = i + 1;
        }
        proof {
            assert(self.variables@.take(self.variables@.len() as int) =~= self.variables@);
            assert(self.results@.take(self.results@.len() as int) =~= self.results@);
        }
        TruthTable { variables, results }
    }

    /// Whether the table is well formed.
    pub fn is_valid(&self) -> (r: bool)
        ensures
            r == self.wf(),
    {
        let n = self.variables.len();
        if n > 26 {
            return false;
        }
        let mut i: usize = 0;
        while i < n
            invariant
                0 <= i <= n,
                n == self.variables@.len(),
                forall|a: int, b: int|
                    0 <= a < b < i ==> self.variables@[a] < self.variables@[b],
                forall|k: int| 0 <= k < i ==> is_variable(#[trigger] self.variables@[k]),
            decreases n - i,
        {
            let c = self.variables[i];
            if !crate::is_identifier(c) {
                return false;
            }
            if i > 0 && self.variables[i - 1] >= c {
                assert(!ascending(self.variables@));
                return false;
            }
            proof {
                let v = self.variables@;
                assert forall|a: int, b: int| 0 <= a < b < i + 1 implies v[a] < v[b] by {
                    if b == i && a < i - 1 {
                        assert(v[a] < v[i - 1]);
                    }
                }
            }
            i = i + 1;
        }
        self.results.len() == row_count(n)
    }

    /// The table of a rule: every row of the rule, evaluated. Fails with the first row
    /// that does not evaluate.
    pub fn from_rule(rule: &str) -> (r: Result<TruthTable, BuildError>)
        ensures
            r is Ok <==> rule_builds(rule@),
            r is Ok ==> r->Ok_0.results@ == rule_results(rule@),
            match r {
                Ok(t) => {
                    &&& t.wf()
                    &&& t.variables@ == variables_in(rule@)
                    &&& forall|i: int|
                        0 <= i < t.results@.len() ==> rule_value(row_of(rule@, i as nat)) == Some(
                            #[trigger] t.results@[i],
                        )
                },
                Err(e) => exists|i: nat|
                    {
                        &&& i < pow2(variables_in(rule@).len())
                        &&& forall|j: nat| j < i ==> (#[trigger] rule_value(row_of(rule@, j))) is Some
                        &&& rule_value(row_of(rule@, i)) is None
                        &&& e.permutation@ == row_of(rule@, i)
                        &&& eval_outcome(row_of(rule@, i), Err(e.cause))
                    },
            },
    {
        let vars = variables(rule);
        proof {
            lemma_variables_in(rule@);
        }
        let total = row_count(vars.len());
        let mut iter = SequentialPermutationIter::new(rule.to_string(), variables(rule), 0, total);
        let mut results: Vec<bool> = Vec::new();
        while results.len() < total
            invariant
                iter.wf(),
                iter.formula() == rule@,
                iter.vars() == variables_in(rule@),
                iter.end() == total,
                total == pow2(variables_in(rule@).len()),
                iter.position() == results@.len(),
                forall|j: int|
                    0 <= j < results@.len() ==> rule_value(row_of(rule@, j as nat)) == Some(
                        #[trigger] results@[j],
                    ),
            decreases total - results@.len(),
        {
            let row = iter.next().unwrap();
            let value = evaluate_rule(row.as_str());
            proof {
                lemma_eval_outcome(row@, value);
            }
            match value {
                Ok(b) => results.push(b),
                Err(cause) => {
                    proof {
                        let i = results@.len();
                        assert forall|j: nat| j < i implies (#[trigger] rule_value(
                            row_of(rule@, j),
                        )) is Some by {
                            assert(rule_value(row_of(rule@, j as int as nat)) == Some(
                                results@[j as int],
                            ));
                        }
                        assert(row@ == row_of(rule@, i));
                        assert(eval_outcome(row_of(rule@, i), Err(cause)));
                        assert(rule_value(row_of(rule@, i)) is None);
                        assert(i < pow2(variables_in(rule@).len()));
                    }
                    return Err(BuildError { permutation: row, cause });
                },
            }
        }
        proof {
            assert(results@ =~= rule_results(rule@));
            assert forall|i: nat| i < pow2(variables_in(rule@).len()) implies (#[trigger] rule_value(
                row_of(rule@, i),
            )) is Some by {
                assert(rule_value(row_of(rule@, i as int as nat)) == Some(results@[i as int]));
            }
        }
        Ok(TruthTable { variables: vars, results })
    }

    /// Fixes `variable` to `value`: the variable leaves the list, and of the rows only
    /// those where it has that value stay, in their order.
    pub fn reduce(&self, variable: char, value: bool) -> (r: Result<TruthTable, ReduceError>)
        requires
            self.wf(),
        ensures
            r is Err <==> !self.variables@.contains(variable),
            r is Err ==> r->Err_0 == ReduceError::MissingVariable(variable),
            r is Ok ==> ({
                let t = r->Ok_0;
                let b = self.variables@.index_of(variable);
                let m = (self.variables@.len() - 1 - b) as nat;
                &&& t.wf()
                &&& t.variables@ == self.variables@.remove(b)
                &&& t.results@.len() * 2 == self.results@.len()
                &&& forall|j: int|
                    0 <= j < t.results@.len() ==> #[trigger] t.results@[j] == self.results@[expand(
                        j as nat,
                        m,
                        value,
                    ) as int]
            }),
    {
        let b = match position_of(&self.variables, variable) {
            Some(b) => b,
            None => return Err(ReduceError::MissingVariable(variable)),
        };
        let n = self.variables.len();
        let m = n - 1 - b;
        let pw = row_count(m);
        let half = row_count(n - 1);
        proof {
            lemma_pow2_unfold(n as nat);
            lemma_pow2_unfold((m + 1) as nat);
        }
        let mut vars: Vec<char> = Vec::new();
        let mut k: usize = 0;
        while k < n
            invariant
                0 <= b < n,
                n == self.variables@.len(),
                0 <= k <= n,
                vars@ == if k <= b {
                    self.variables@.take(k as int)
                } else {
                    self.variables@.take(b as int) + self.variables@.subrange(b + 1, k as int)
                },
            decreases n - k,
        {
            if k != b {
                vars.push(self.variables[k]);
            }
            proof {
                let v = self.variables@;
                if k < b {
                    assert(v.take(k + 1) =~= v.take(k as int).push(v[k as int]));
                } else if k == b {
                    assert(v.take(b as int) + v.subrange(b + 1, k + 1) =~= v.take(k as int));
                } else {
                    assert(v.take(b as int) + v.subrange(b + 1, k + 1) =~= (v.take(b as int)
                        + v.subrange(b + 1, k as int)).push(v[k as int]));
                }
            }
            k = k + 1;
        }
        proof {
            let v = self.variables@;
            assert(vars@ =~= v.remove(b as int));
            assert forall|x: int, y: int| 0 <= x < y < vars@.len() implies vars@[x] < vars@[y] by {
                let xx = if x < b { x } else { x + 1 };
                let yy = if y < b { y } else { y + 1 };
                assert(v[xx] < v[yy]);
            }
            assert forall|x: int| 0 <= x < vars@.len() implies is_variable(#[trigger] vars@[x]) by {
                let xx = if x < b { x } else { x + 1 };
                assert(is_variable(v[xx]));
            }
        }
        let mut results: Vec<bool> = Vec::new();
        let mut j: usize = 0;
        while j < half
            invariant
                0 <= b < n <= 26,
                n == self.variables@.len(),
                m == n - 1 - b,
                pw == pow2(m as nat),
                pow2((m + 1) as nat) == 2 * pw,
                half == pow2((n - 1) as nat),
                self.results@.len() == pow2(n as nat),
                half * 2 == self.results@.len(),
                0 <= j <= half,
                results@.len() == j,
                forall|i: int|
                    0 <= i < j ==> #[trigger] results@[i] == self.results@[expand(
                        i as nat,
                        m as nat,
                        value,
                    ) as int],
            decreases half - j,
        {
            proof {
                assert((m + b) as nat == (n - 1) as nat);
                lemma_expand(j as nat, m as nat, b as nat, value);
                assert((m as nat + 1 + b as nat) == n as nat);
                lemma_pow2_pos(m as nat);
                vstd::arithmetic::power2::lemma2_to64();
                if n < 26 {
                    vstd::arithmetic::power2::lemma_pow2_strictly_increases(n as nat, 26);
                }
                let e = expand(j as nat, m as nat, value);
                assert(e < 0x4000000);
                assert(2 * pw == pow2((m + 1) as nat));
                assert((j / pw) * (2 * pw) <= e);
            }
            let i = (j / pw) * (2 * pw) + (if value {
                pw
            } else {
                0
            }) + j % pw;
            results.push(self.results[i]);
            j = j + 1;
        }
        Ok(TruthTable { variables: vars, results })
    }
}

impl BuildError {
    pub open spec fn text(&self) -> Seq<char> {
        "Failed to evaluate permutations"@
    }

    /// The error, in words.
    pub fn message(&self) -> (r: String)
        ensures
            r@ == self.text(),
    {
        String::from_str("Failed to evaluate permutations")
    }
}

impl ReduceError {
    pub open spec fn text(&self) -> Seq<char> {
        match *self {
            ReduceError::MissingVariable(c) => "Variable not in table: "@ + seq![c],
        }
    }

    /// The error, in words.
    pub fn message(&self) -> (r: String)
        ensures
            r@ == self.text(),
    {
        match *self {
            ReduceError::MissingVariable(c) => {
                let mut r = String::from_str("Variable not in table: ");
                push_char(&mut r, c);
                r
            },
        }
    }
}

} // verus!
