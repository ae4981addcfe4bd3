use vstd::arithmetic::div_mod::lemma_div_denominator;
use vstd::arithmetic::power2::{lemma_pow2_pos, lemma_pow2_unfold, pow2};
use vstd::prelude::*;

use crate::is_variable;
use crate::text::{chars_of, string_of};

verus! {

/// The `k`-th letter of the alphabet, counted from zero.
pub open spec fn letter(k: int) -> char {
    ((65 + k) as u8) as char
}

/// The letters among the first `k` of the alphabet that occur in `s`, in order.
pub open spec fn letters_upto(s: Seq<char>, k: int) -> Seq<char>
    decreases k,
{
    if k <= 0 {
        Seq::empty()
    } else {
        let r = letters_upto(s, k - 1);
        if s.contains(letter(k - 1)) {
            r.push(letter(k - 1))
        } else {
            r
        }
    }
}

/// The distinct variables of a formula, in ascending order.
pub open spec fn variables_in(s: Seq<char>) -> Seq<char> {
    letters_upto(s, 26)
}

/// The characters of `v` ascend strictly.
pub open spec fn ascending(v: Seq<char>) -> bool {
    forall|i: int, j: int| 0 <= i < j < v.len() ==> v[i] < v[j]
}

/// Bit `j` of `i`, counted from the least significant.
pub open spec fn bit(i: nat, j: nat) -> bool {
    (i / pow2(j)) % 2 == 1
}

/// In row `i` of a table over `n` variables, the value of the variable at position `b`:
/// the first variable is the most significant bit.
pub open spec fn row_value(i: nat, n: nat, b: int) -> bool {
    bit(i, (n - 1 - b) as nat)
}

pub open spec fn digit(v: bool) -> char {
    if v {
        '1'
    } else {
        '0'
    }
}

/// What a character of the formula becomes in row `i`.
pub open spec fn substitute_char(vars: Seq<char>, i: nat, c: char) -> char {
    if vars.contains(c) {
        digit(row_value(i, vars.len(), vars.index_of(c)))
    } else {
        c
    }
}

/// Row `i` of a formula: each occurrence of a variable replaced by its digit,
/// every other character kept.
pub open spec fn permutation(s: Seq<char>, vars: Seq<char>, i: nat) -> Seq<char> {
    Seq::new(s.len(), |k: int| substitute_char(vars, i, s[k]))
}

/// Row `i` of the formula `s` over its own variables.
pub open spec fn row_of(s: Seq<char>, i: nat) -> Seq<char> {
    permutation(s, variables_in(s), i)
}

proof fn lemma_letter(k: int)
    requires
        0 <= k < 26,
    ensures
        letter(k) as u32 == 65 + k,
        is_variable(letter(k)),
{
}

proof fn lemma_letters_upto(s: Seq<char>, k: int)
    requires
        0 <= k <= 26,
    ensures
        ascending(letters_upto(s, k)),
        forall|c: char|
            letters_upto(s, k).contains(c) <==> (is_variable(c) && (c as u32) < 65 + k
                && s.contains(c)),
        letters_upto(s, k).len() <= k,
        forall|i: int|
            0 <= i < letters_upto(s, k).len() ==> is_variable(#[trigger] letters_upto(s, k)[i])
                && (letters_upto(s, k)[i] as u32) < 65 + k,
    decreases k,
{
    if k > 0 {
        lemma_letters_upto(s, k - 1);
        lemma_letter(k - 1);
        let r = letters_upto(s, k - 1);
        let l = letter(k - 1);
        if s.contains(l) {
            assert forall|c: char| r.push(l).contains(c) <==> (is_variable(c) && (c as u32) < 65
                + k && s.contains(c)) by {
                if r.push(l).contains(c) {
                    let i = choose|i: int| 0 <= i < r.push(l).len() && r.push(l)[i] == c;
                    if i < r.len() {
                        assert(r.contains(c));
                    }
                }
                if is_variable(c) && (c as u32) < 65 + k && s.contains(c) {
                    if (c as u32) < 65 + k - 1 {
                        let i = choose|i: int| 0 <= i < r.len() && r[i] == c;
                        assert(r.push(l)[i] == c);
                    } else {
                        assert(c == l);
                        assert(r.push(l)[r.len() as int] == c);
                    }
                }
            }
            assert forall|i: int, j: int| 0 <= i < j < r.push(l).len() implies r.push(l)[i] < r.push(
                l,
            )[j] by {
                if j == r.len() {
                    assert(r.push(l)[i] == r[i]);
                }
            }
        } else {
            assert forall|c: char| r.contains(c) <==> (is_variable(c) && (c as u32) < 65 + k
                && s.contains(c)) by {
                if is_variable(c) && (c as u32) == 65 + k - 1 {
                    assert(c == l);
                }
            }
        }
    }
}

/// The variables of a formula are its distinct variables, ascending.
pub proof fn lemma_variables_in(s: Seq<char>)
    ensures
        ascending(variables_in(s)),
        forall|c: char|
            #[trigger] variables_in(s).contains(c) <==> (is_variable(c) && s.contains(c)),
        forall|i: int|
            0 <= i < variables_in(s).len() ==> is_variable(#[trigger] variables_in(s)[i]),
        variables_in(s).len() <= 26,
{
    lemma_letters_upto(s, 26);
}

/// Tells whether `v` holds `c`.
pub fn contains_char(v: &Vec<char>, c: char) -> (r: bool)
    ensures
        r == v@.contains(c),
{
    let mut i: usize = 0;
    while i < v.len()
        invariant
            0 <= i <= v@.len(),
            forall|k: int| 0 <= k < i ==> v@[k] != c,
        decreases v.len() - i,
    {
        if v[i] == c {
            return true;
        }
        i = i + 1;
    }
    false
}

/// The distinct variables of `cs`, in ascending order.
pub fn variables_of(cs: &Vec<char>) -> (r: Vec<char>)
    ensures
        r@ == variables_in(cs@),
{
    let mut r: Vec<char> = Vec::new();
    let mut k: u8 = 0;
    while k < 26
        invariant
            0 <= k <= 26,
            r@ == letters_upto(cs@, k as int),
        decreases 26 - k,
    {
        let c = (65 + k) as char;
        if contains_char(cs, c) {
            r.push(c);
        }
        k = k + 1;
    }
    r
}

/// The distinct variables of a formula, in ascending order.
pub fn variables(formula: &str) -> (r: Vec<char>)
    ensures
        r@ == variables_in(formula@),
{
    variables_of(&chars_of(formula))
}

/// Two to the power `n`, the number of rows of a table over `n` variables.
pub fn row_count(n: usize) -> (r: usize)
    requires
        n <= 26,
    ensures
        r as nat == pow2(n as nat),
{
    let mut r: usize = 1;
    let mut j: usize = 0;
    proof {
        assert(pow2(0) == 1) by {
            vstd::arithmetic::power2::lemma2_to64();
        }
    }
    while j < n
        invariant
            0 <= j <= n <= 26,
            r as nat == pow2(j as nat),
        decreases n - j,
    {
        proof {
            lemma_pow2_unfold((j + 1) as nat);
            vstd::arithmetic::power2::lemma_pow2_strictly_increases((j + 1) as nat, 27);
            vstd::arithmetic::power2::lemma2_to64();
        }
        r = r * 2;
        j = j + 1;
    }
    r
}

proof fn lemma_bit_step(i: nat, j: nat)
    ensures
        i / pow2(j) / 2 == i / pow2(j + 1),
{
    lemma_pow2_pos(j);
    lemma_pow2_unfold(j + 1);
    lemma_div_denominator(i as int, pow2(j) as int, 2);
}

/// The digits of row `i` of a table over `n` variables, first variable first.
fn row_digits(i: usize, n: usize) -> (r: Vec<char>)
    ensures
        r@.len() == n,
        forall|b: int| 0 <= b < n ==> r@[b] == digit(row_value(i as nat, n as nat, b)),
{
    let mut r: Vec<char> = Vec::new();
    let mut b: usize = 0;
    while b < n
        invariant
            0 <= b <= n,
            r@.len() == b,
        decreases n - b,
    {
        r.push('0');
        b = b + 1;
    }
    let mut x: usize = i;
    let mut j: usize = 0;
    proof {
        assert(pow2(0) == 1) by {
            vstd::arithmetic::power2::lemma2_to64();
        }
    }
    while j < n
        invariant
            0 <= j <= n,
            r@.len() == n,
            x as nat == i as nat / pow2(j as nat),
            forall|b: int|
                n - j <= b < n ==> r@[b] == digit(row_value(i as nat, n as nat, b)),
        decreases n - j,
    {
        let ghost b = n - 1 - j;
        r.set(n - 1 - j, if x % 2 == 1 {
            '1'
        } else {
            '0'
        });
        proof {
            lemma_bit_step(i as nat, j as nat);
            assert((n - 1 - b) as nat == j as nat);
        }
        x = x / 2;
        j = j + 1;
    }
    r
}

/// Finds the position of `c` in an ascending list.
pub(crate) fn position_of(vars: &Vec<char>, c: char) -> (r: Option<usize>)
    requires
        ascending(vars@),
    ensures
        r is Some <==> vars@.contains(c),
        r is Some ==> r->Some_0 < vars@.len() && r->Some_0 == vars@.index_of(c) && vars@[r->Some_0 as int] == c,
{
    let mut i: usize = 0;
    while i < vars.len()
        invariant
            0 <= i <= vars@.len(),
            ascending(vars@),
            forall|k: int| 0 <= k < i ==> vars@[k] != c,
        decreases vars.len() - i,
    {
        if vars[i] == c {
            proof {
                assert(vars@.contains(c));
                let j = vars@.index_of(c);
                assert(0 <= j < vars@.len() && vars@[j] == c);
                if j < i {
                } else if j > i {
                    assert(vars@[i as int] < vars@[j]);
                }
            }
            return Some(i);
        }
        i = i + 1;
    }
    None
}

/// Row `i` of the formula `cs` over the ascending variables `vars`.
pub fn permutation_at(cs: &Vec<char>, vars: &Vec<char>, i: usize) -> (r: Vec<char>)
    requires
        ascending(vars@),
    ensures
        r@ == permutation(cs@, vars@, i as nat),
{
    let digits = row_digits(i, vars.len());
    let mut r: Vec<char> = Vec::new();
    let mut k: usize = 0;
    while k < cs.len()
        invariant
            0 <= k <= cs@.len(),
            ascending(vars@),
            digits@.len() == vars@.len(),
            forall|b: int|
                0 <= b < vars@.len() ==> digits@[b] == digit(
                    row_value(i as nat, vars@.len(), b),
                ),
            r@ =~= permutation(cs@, vars@, i as nat).take(k as int),
        decreases cs.len() - k,
    {
        let c = cs[k];
        match position_of(vars, c) {
            Some(b) => r.push(digits[b]),
            None => r.push(c),
        }
        k = k + 1;
    }
    r
}

/// The variables of a formula.
pub open spec fn variable_set(s: Seq<char>) -> Set<char> {
    Set::new(|c: char| is_variable(c) && s.contains(c))
}

/// The variable list of a formula is as long as its set of distinct variables, so the
/// formula has two to the power of that many rows.
pub proof fn lemma_row_count(s: Seq<char>)
    ensures
        variable_set(s).finite(),
        variables_in(s).len() == variable_set(s).len(),
{
    lemma_variables_in(s);
    let v = variables_in(s);
    assert(v.no_duplicates()) by {
        assert forall|i: int, j: int| 0 <= i < v.len() && 0 <= j < v.len() && i != j implies v[i]
            != v[j] by {
            if i < j {
                assert(v[i] < v[j]);
            } else {
                assert(v[j] < v[i]);
            }
        }
    }
    v.unique_seq_to_set();
    assert(v.to_set() =~= variable_set(s));
}

/// The variable at position `b` of a formula's list is bit `n - 1 - b` of the row
/// number: in row `i`, every occurrence of it becomes that bit's digit.
pub proof fn lemma_row_char(s: Seq<char>, i: nat, p: int, b: int)
    requires
        0 <= p < s.len(),
        0 <= b < variables_in(s).len(),
        variables_in(s)[b] == s[p],
    ensures
        row_of(s, i).len() == s.len(),
        row_of(s, i)[p] == digit(bit(i, (variables_in(s).len() - 1 - b) as nat)),
{
    lemma_variables_in(s);
    let v = variables_in(s);
    assert(v.contains(s[p]));
    lemma_index_in_ascending(v, b);
}

/// In an ascending list, the position of an element is the one it stands at.
pub proof fn lemma_index_in_ascending(v: Seq<char>, b: int)
    requires
        ascending(v),
        0 <= b < v.len(),
    ensures
        v.index_of(v[b]) == b,
{
    assert(v.contains(v[b]));
    let k = v.index_of(v[b]);
    if k < b {
        assert(v[k] < v[b]);
    } else if k > b {
        assert(v[b] < v[k]);
    }
}

proof fn lemma_skip_contains(a: Seq<char>, c: char)
    requires
        ascending(a),
        a.len() > 0,
    ensures
        a.skip(1).contains(c) <==> (a.contains(c) && c != a[0]),
{
    if a.skip(1).contains(c) {
        let k = choose|k: int| 0 <= k < a.skip(1).len() && a.skip(1)[k] == c;
        assert(a[k + 1] == c);
        assert(a[0] < a[k + 1]);
    }
    if a.contains(c) && c != a[0] {
        let k = choose|k: int| 0 <= k < a.len() && a[k] == c;
        assert(a.skip(1)[k - 1] == c);
    }
}

/// Two ascending lists with the same elements are the same list.
pub proof fn lemma_ascending_unique(a: Seq<char>, b: Seq<char>)
    requires
        ascending(a),
        ascending(b),
        forall|c: char| a.contains(c) <==> b.contains(c),
    ensures
        a == b,
    decreases a.len(),
{
    if a.len() == 0 {
        if b.len() > 0 {
            assert(b.contains(b[0]));
        }
        assert(a =~= b);
    } else {
        assert(a.contains(a[0]));
        assert(b.contains(b[0]));
        let i = choose|i: int| 0 <= i < b.len() && b[i] == a[0];
        let k = choose|k: int| 0 <= k < a.len() && a[k] == b[0];
        if i > 0 {
            assert(b[0] < b[i]);
        }
        if k > 0 {
            assert(a[0] < a[k]);
        }
        let a1 = a.skip(1);
        let b1 = b.skip(1);
        assert forall|c: char| a1.contains(c) <==> b1.contains(c) by {
            lemma_skip_contains(a, c);
            lemma_skip_contains(b, c);
        }
        lemma_ascending_unique(a1, b1);
        assert(a =~= seq![a[0]] + a1);
        assert(b =~= seq![b[0]] + b1);
    }
}

/// `s` with every occurrence of `w` replaced by the digit of `value`.
pub open spec fn fix_variable(s: Seq<char>, w: char, value: bool) -> Seq<char> {
    Seq::new(s.len(), |k: int| if s[k] == w { digit(value) } else { s[k] })
}

/// Fixing a variable of a formula to a digit removes it, and only it, from the
/// formula's variables.
pub proof fn lemma_fixed_variables(s: Seq<char>, b: int, value: bool)
    requires
        0 <= b < variables_in(s).len(),
    ensures
        variables_in(fix_variable(s, variables_in(s)[b], value)) == variables_in(s).remove(b),
{
    let v = variables_in(s);
    let w = v[b];
    let s2 = fix_variable(s, w, value);
    let r = v.remove(b);
    lemma_variables_in(s);
    lemma_variables_in(s2);
    assert forall|x: int, y: int| 0 <= x < y < r.len() implies r[x] < r[y] by {
        let xx = if x < b { x } else { x + 1 };
        let yy = if y < b { y } else { y + 1 };
        assert(v[xx] < v[yy]);
    }
    assert forall|c: char| variables_in(s2).contains(c) <==> r.contains(c) by {
        if r.contains(c) {
            let k = choose|k: int| 0 <= k < r.len() && r[k] == c;
            let kk = if k < b { k } else { k + 1 };
            assert(v[kk] == c);
            assert(v.contains(c));
            if kk < b {
                assert(v[kk] < v[b]);
            } else {
                assert(v[b] < v[kk]);
            }
            assert(s.contains(c));
            let p = choose|p: int| 0 <= p < s.len() && s[p] == c;
            assert(s2[p] == c);
        }
        if variables_in(s2).contains(c) {
            assert(is_variable(c) && s2.contains(c));
            let p = choose|p: int| 0 <= p < s2.len() && s2[p] == c;
            assert(!is_variable(digit(value)));
            assert(s[p] != w);
            assert(s[p] == c);
            assert(v.contains(c));
            let k = choose|k: int| 0 <= k < v.len() && v[k] == c;
            assert(k != b);
            if k < b {
                assert(r[k] == c);
            } else {
                assert(r[k - 1] == c);
            }
        }
    }
    lemma_ascending_unique(variables_in(s2), r);
}

/// A formula without variables has exactly one row: the formula itself.
pub proof fn lemma_no_variables(s: Seq<char>)
    requires
        variables_in(s).len() == 0,
    ensures
        pow2(variables_in(s).len()) == 1,
        row_of(s, 0) == s,
{
    vstd::arithmetic::power2::lemma2_to64();
    assert(row_of(s, 0) =~= s);
}

/// All occurrences of one character become the same character in a row; a variable
/// becomes a digit, any other character stays as it is.
pub proof fn lemma_occurrences_agree(s: Seq<char>, i: nat, k1: int, k2: int)
    requires
        0 <= k1 < s.len(),
        0 <= k2 < s.len(),
        s[k1] == s[k2],
    ensures
        row_of(s, i)[k1] == row_of(s, i)[k2],
        is_variable(s[k1]) ==> (row_of(s, i)[k1] == '0' || row_of(s, i)[k1] == '1'),
        !is_variable(s[k1]) ==> row_of(s, i)[k1] == s[k1],
{
    lemma_variables_in(s);
    assert(s.contains(s[k1]));
}

/// The threshold up to which a formula's rows are produced on the calling thread.
pub const MAX_SEQUENTIAL_VARIABLES: usize = 15;

/// How many producers enumerate a formula with `variable_count` variables: none up to
/// the threshold, above it one for every two variables past the threshold, and at least one.
pub fn calc_thread_count(variable_count: usize) -> (r: usize)
    ensures
        variable_count <= MAX_SEQUENTIAL_VARIABLES ==> r == 0,
        variable_count > MAX_SEQUENTIAL_VARIABLES ==> r == if (variable_count
            - MAX_SEQUENTIAL_VARIABLES) / 2 == 0 {
            1
        } else {
            (variable_count - MAX_SEQUENTIAL_VARIABLES) / 2
        },
{
    if variable_count <= MAX_SEQUENTIAL_VARIABLES {
        0
    } else {
        let c = (variable_count - MAX_SEQUENTIAL_VARIABLES) / 2;
        if c == 0 {
            1
        } else {
            c
        }
    }
}

/// Cuts the rows `0..total` into `count` contiguous ranges of equal size; the last one
/// also takes the remainder.
pub fn chunk_ranges(total: usize, count: usize) -> (r: Vec<(usize, usize)>)
    requires
        count >= 1,
    ensures
        r@.len() == count,
        forall|i: int|
            0 <= i < count ==> (#[trigger] r@[i]).0 == i * (total / count) && r@[i].1 == if i
                == count - 1 {
                total as int
            } else {
                (i + 1) * (total / count)
            },
{
    let step = total / count;
    let mut r: Vec<(usize, usize)> = Vec::new();
    let mut i: usize = 0;
    proof {
        vstd::arithmetic::div_mod::lemma_fundamental_div_mod(total as int, count as int);
        vstd::arithmetic::div_mod::lemma_mod_pos_bound(total as int, count as int);
    }
    while i < count
        invariant
            0 <= i <= count,
            step == total / count,
            step * count <= total,
            r@.len() == i,
            forall|k: int|
                0 <= k < i ==> (#[trigger] r@[k]).0 == k * step && r@[k].1 == if k == count
                    - 1 {
                    total as int
                } else {
                    (k + 1) * step
                },
        decreases count - i,
    {
        assert((i + 1) * step <= count * step) by (nonlinear_arith)
            requires
                i + 1 <= count,
                step >= 0,
        ;
        assert(i * step + step == (i + 1) * step) by (nonlinear_arith);
        assert(count * step == step * count) by (nonlinear_arith);
        let start = i * step;
        let end = if i == count - 1 {
            total
        } else {
            start + step
        };
        r.push((start, end));
        i = i + 1;
    }
    r
}

/// Produces, one by one, the rows `start..end` of a formula.
pub struct SequentialPermutationIter {
    pub variables: Vec<char>,
    formula: Vec<char>,
    permutation: usize,
    end: usize,
}

impl SequentialPermutationIter {
    /// The formula whose rows are produced.
    pub closed spec fn formula(&self) -> Seq<char> {
        self.formula@
    }

    /// The variables of the formula, ascending.
    pub closed spec fn vars(&self) -> Seq<char> {
        self.variables@
    }

    /// The row that comes next.
    pub closed spec fn position(&self) -> nat {
        self.permutation as nat
    }

    /// The row before which production stops.
    pub closed spec fn end(&self) -> nat {
        self.end as nat
    }

    pub open spec fn wf(&self) -> bool {
        &&& self.vars() == variables_in(self.formula())
        &&& self.position() <= self.end() <= pow2(self.vars().len())
    }

    /// An iterator over the rows `start..end` of `formula`, whose variables are `variables`.
    pub fn new(formula: String, variables: Vec<char>, start: usize, end: usize) -> (r: Self)
        requires
            variables@ == variables_in(formula@),
            start <= end <= pow2(variables@.len()),
        ensures
            r.wf(),
            r.formula() == formula@,
            r.vars() == variables@,
            r.position() == start,
            r.end() == end,
    {
        SequentialPermutationIter {
            variables,
            formula: chars_of(formula.as_str()),
            permutation: start,
            end,
        }
    }

    /// The next row, or `None` once the range is done.
    pub fn next(&mut self) -> (r: Option<String>)
        requires
            old(self).wf(),
        ensures
            final(self).wf(),
            final(self).formula() == old(self).formula(),
            final(self).vars() == old(self).vars(),
            final(self).end() == old(self).end(),
            old(self).position() < old(self).end() ==> r is Some && r->Some_0@ == permutation(
                old(self).formula(),
                old(self).vars(),
                old(self).position(),
            ) && final(self).position() == old(self).position() + 1,
            old(self).position() >= old(self).end() ==> r is None && final(self).position()
                == old(self).position(),
    {
        if self.permutation >= self.end {
            return None;
        }
        proof {
            lemma_variables_in(self.formula@);
        }
        let row = permutation_at(&self.formula, &self.variables, self.permutation);
        self.permutation = self.permutation + 1;
        Some(string_of(&row))
    }
}

/// Every row of a formula, in ascending order of row number.
pub fn enumerate(formula: &str) -> (r: Vec<String>)
    ensures
        r@.len() == pow2(variables_in(formula@).len()),
        forall|i: int| 0 <= i < r@.len() ==> (#[trigger] r@[i])@ == row_of(formula@, i as nat),
{
    let vars = variables(formula);
    proof {
        lemma_variables_in(formula@);
    }
    let total = row_count(vars.len());
    let mut iter = SequentialPermutationIter::new(formula.to_string(), vars, 0, total);
    let mut r: Vec<String> = Vec::new();
    while r.len() < total
        invariant
            iter.wf(),
            iter.formula() == formula@,
            iter.vars() == variables_in(formula@),
            iter.end() == total,
            total == pow2(variables_in(formula@).len()),
            iter.position() == r@.len(),
            forall|i: int| 0 <= i < r@.len() ==> (#[trigger] r@[i])@ == row_of(formula@, i as nat),
        decreases total - r@.len(),
    {
        let row = iter.next().unwrap();
        r.push(row);
    }
    r
}

} // verus!
