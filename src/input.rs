use vstd::prelude::*;

use crate::is_variable;
use crate::sanitize::{sanitize_lines, sanitized, string_texts, texts};
use crate::text::{chars_of, push_char, string_of};

verus! {

/// Why an input could not be read.
#[derive(Debug, Clone, Copy, PartialEq, Eq, Structural)]
pub enum InputError {
    MultipleFacts,
    MultipleQueries,
    NoFacts,
    NoQueries,
    InvalidFact(char),
    InvalidQuery(char),
}

/// The rules, facts and queries of an input.
#[derive(Debug, Clone, PartialEq, Eq)]
pub struct Input {
    pub rules: Vec<String>,
    pub facts: String,
    pub queries: String,
}

pub type Sorted = (Seq<Seq<char>>, Option<Seq<char>>, Option<Seq<char>>);

/// Sorts cleaned lines: a line starting with `=` holds the facts, one starting with
/// `?` the queries, any other non-empty line is a rule. Facts or queries given twice
/// are an error.
pub open spec fn sort_lines(ls: Seq<Seq<char>>) -> Result<Sorted, InputError>
    decreases ls.len(),
{
    if ls.len() == 0 {
        Ok((Seq::empty(), None, None))
    } else {
        match sort_lines(ls.drop_last()) {
            Err(e) => Err(e),
            Ok(s) => {
                let l = ls.last();
                if l.len() > 0 && l[0] == '=' {
                    if s.1 is Some {
                        Err(InputError::MultipleFacts)
                    } else {
                        Ok((s.0, Some(l.skip(1)), s.2))
                    }
                } else if l.len() > 0 && l[0] == '?' {
                    if s.2 is Some {
                        Err(InputError::MultipleQueries)
                    } else {
                        Ok((s.0, s.1, Some(l.skip(1))))
                    }
                } else if l.len() > 0 {
                    Ok((s.0.push(l), s.1, s.2))
                } else {
                    Ok(s)
                }
            },
        }
    }
}

/// The first character of `s` that is no variable.
pub open spec fn first_invalid(s: Seq<char>) -> Option<char>
    decreases s.len(),
{
    if s.len() == 0 {
        None
    } else if !is_variable(s[0]) {
        Some(s[0])
    } else {
        first_invalid(s.skip(1))
    }
}

/// `s` with each character kept at its first occurrence only.
pub open spec fn dedup(s: Seq<char>) -> Seq<char>
    decreases s.len(),
{
    if s.len() == 0 {
        s
    } else {
        let r = dedup(s.drop_last());
        if s.drop_last().contains(s.last()) {
            r
        } else {
            r.push(s.last())
        }
    }
}

/// Removing repeats keeps every character of `s` and holds none twice.
pub proof fn lemma_dedup(s: Seq<char>)
    ensures
        forall|c: char| #[trigger] dedup(s).contains(c) <==> s.contains(c),
        dedup(s).no_duplicates(),
    decreases s.len(),
{
    if s.len() > 0 {
        let p = s.drop_last();
        lemma_dedup(p);
        let r = dedup(p);
        assert forall|c: char| #[trigger] dedup(s).contains(c) <==> s.contains(c) by {
            if s.contains(c) {
                let k = choose|k: int| 0 <= k < s.len() && s[k] == c;
                if k < p.len() {
                    assert(p[k] == c);
                    assert(p.contains(c));
                }
            }
            if p.contains(c) {
                let k = choose|k: int| 0 <= k < p.len() && p[k] == c;
                assert(s[k] == c);
            }
            if !p.contains(s.last()) {
                if r.push(s.last()).contains(c) {
                    let k = choose|k: int| 0 <= k < r.push(s.last()).len() && r.push(s.last())[k] == c;
                    if k < r.len() {
                        assert(r[k] == c);
                        assert(r.contains(c));
                    }
                }
                if r.contains(c) {
                    let k = choose|k: int| 0 <= k < r.len() && r[k] == c;
                    assert(r.push(s.last())[k] == c);
                }
                assert(r.push(s.last())[r.len() as int] == s.last());
            }
        }
        if !p.contains(s.last()) {
            assert(!r.contains(s.last()));
            let t = r.push(s.last());
            assert forall|i: int, j: int| 0 <= i < t.len() && 0 <= j < t.len() && i != j implies t[i]
                != t[j] by {
                if i < r.len() && j < r.len() {
                    assert(r[i] != r[j]);
                } else if i < r.len() {
                    assert(r.contains(r[i]));
                } else if j < r.len() {
                    assert(r.contains(r[j]));
                }
            }
        }
    }
}

/// The rules, facts and queries that the lines of an input give.
pub open spec fn parse_input(lines: Seq<Seq<char>>) -> Result<
    (Seq<Seq<char>>, Seq<char>, Seq<char>),
    InputError,
> {
    match sort_lines(sanitized(lines)) {
        Err(e) => Err(e),
        Ok(s) => match s.1 {
            None => Err(InputError::NoFacts),
            Some(f) => if first_invalid(f) is Some {
                Err(InputError::InvalidFact(first_invalid(f)->Some_0))
            } else {
                match s.2 {
                    None => Err(InputError::NoQueries),
                    Some(q) => if first_invalid(q) is Some {
                        Err(InputError::InvalidQuery(first_invalid(q)->Some_0))
                    } else {
                        Ok((s.0, dedup(f), dedup(q)))
                    },
                }
            },
        },
    }
}

proof fn lemma_sort_error_stays(ls: Seq<Seq<char>>, j: int)
    requires
        0 <= j <= ls.len(),
        sort_lines(ls.take(j)) is Err,
    ensures
        sort_lines(ls) == sort_lines(ls.take(j)),
    decreases ls.len() - j,
{
    if j < ls.len() {
        assert(ls.take(j + 1).drop_last() =~= ls.take(j));
        lemma_sort_error_stays(ls, j + 1);
    } else {
        assert(ls.take(j) =~= ls);
    }
}

pub open spec fn opt_view(o: Option<Vec<char>>) -> Option<Seq<char>> {
    match o {
        Some(v) => Some(v@),
        None => None,
    }
}

fn find_invalid(cs: &Vec<char>) -> (r: Option<char>)
    ensures
        r == first_invalid(cs@),
{
    let mut i: usize = 0;
    assert(cs@.skip(0) =~= cs@);
    while i < cs.len()
        invariant
            0 <= i <= cs@.len(),
            first_invalid(cs@) == first_invalid(cs@.skip(i as int)),
        decreases cs.len() - i,
    {
        assert(cs@.skip(i as int)[0] == cs@[i as int]);
        if !crate::is_identifier(cs[i]) {
            return Some(cs[i]);
        }
        assert(cs@.skip(i as int).skip(1) =~= cs@.skip(i + 1));
        i = i + 1;
    }
    None
}

fn dedup_chars(cs: &Vec<char>) -> (r: Vec<char>)
    ensures
        r@ == dedup(cs@),
{
    let mut r: Vec<char> = Vec::new();
    let mut i: usize = 0;
    while i < cs.len()
        invariant
            0 <= i <= cs@.len(),
            r@ == dedup(cs@.take(i as int)),
        decreases cs.len() - i,
    {
        let ghost t = cs@.take(i + 1);
        proof {
            assert(t.drop_last() =~= cs@.take(i as int));
            lemma_dedup(cs@.take(i as int));
        }
        if !crate::permutation::contains_char(&r, cs[i]) {
            r.push(cs[i]);
        }
        i = i + 1;
    }
    proof {
        assert(cs@.take(i as int) =~= cs@);
    }
    r
}

impl Input {
    /// Reads an input from its lines: rules, one line of facts after `=`, one line of
    /// queries after `?`. Facts and queries must be variables; a variable given more
    /// than once counts once, at its first place.
    pub fn from_lines(lines: &[&str]) -> (r: Result<Input, InputError>)
        ensures
            match r {
                Ok(input) => parse_input(texts(lines@)) == Ok::<
                    (Seq<Seq<char>>, Seq<char>, Seq<char>),
                    InputError,
                >((string_texts(input.rules@), input.facts@, input.queries@)),
                Err(e) => parse_input(texts(lines@)) == Err::<
                    (Seq<Seq<char>>, Seq<char>, Seq<char>),
                    InputError,
                >(e),
            },
    {
        let ls = sanitize_lines(lines);
        let ghost lv = string_texts(ls@);
        let mut rules: Vec<String> = Vec::new();
        let mut facts: Option<Vec<char>> = None;
        let mut queries: Option<Vec<char>> = None;
        let mut i: usize = 0;
        proof {
            assert(lv.take(0) =~= Seq::<Seq<char>>::empty());
            assert(string_texts(rules@) =~= Seq::<Seq<char>>::empty());
        }
        while i < ls.len()
            invariant
                0 <= i <= ls@.len(),
                lv == string_texts(ls@),
                lv == sanitized(texts(lines@)),
                sort_lines(lv.take(i as int)) == Ok::<Sorted, InputError>(
                    (string_texts(rules@), opt_view(facts), opt_view(queries)),
                ),
            decreases ls.len() - i,
        {
            let cs = chars_of(ls[i].as_str());
            proof {
                assert(lv.take(i + 1).drop_last() =~= lv.take(i as int));
                assert(lv.take(i + 1).last() == cs@);
            }
            if cs.len() > 0 && cs[0] == '=' {
                if facts.is_some() {
                    proof {
                        lemma_sort_error_stays(lv, i + 1);
                    }
                    return Err(InputError::MultipleFacts);
                }
                let mut rest: Vec<char> = Vec::new();
                let mut k: usize = 1;
                while k < cs.len()
                    invariant
                        1 <= k <= cs@.len(),
                        rest@ == cs@.subrange(1, k as int),
                    decreases cs.len() - k,
                {
                    rest.push(cs[k]);
                    proof {
                        assert(cs@.subrange(1, k + 1) =~= cs@.subrange(1, k as int).push(
                            cs@[k as int],
                        ));
                    }
                    k = k + 1;
                }
                proof {
                    assert(rest@ =~= cs@.skip(1));
                }
                facts = Some(rest);
            } else if cs.len() > 0 && cs[0] == '?' {
                if queries.is_some() {
                    proof {
                        lemma_sort_error_stays(lv, i + 1);
                    }
                    return Err(InputError::MultipleQueries);
                }
                let mut rest: Vec<char> = Vec::new();
                let mut k: usize = 1;
                while k < cs.len()
                    invariant
                        1 <= k <= cs@.len(),
                        rest@ == cs@.subrange(1, k as int),
                    decreases cs.len() - k,
                {
                    rest.push(cs[k]);
                    proof {
                        assert(cs@.subrange(1, k + 1) =~= cs@.subrange(1, k as int).push(
                            cs@[k as int],
                        ));
                    }
                    k = k + 1;
                }
                proof {
                    assert(rest@ =~= cs@.skip(1));
                }
                queries = Some(rest);
            } else if cs.len() > 0 {
                let ghost before = rules@;
                rules.push(ls[i].clone());
                proof {
                    assert(string_texts(rules@) =~= string_texts(before).push(cs@));
                }
            }
            i = i + 1;
        }
        proof {
            assert(lv.take(i as int) =~= lv);
        }
        let f = match facts {
            None => return Err(InputError::NoFacts),
            Some(f) => f,
        };
        match find_invalid(&f) {
            Some(c) => return Err(InputError::InvalidFact(c)),
            None => {},
        }
        let q = match queries {
            None => return Err(InputError::NoQueries),
            Some(q) => q,
        };
        match find_invalid(&q) {
            Some(c) => return Err(InputError::InvalidQuery(c)),
            None => {},
        }
        let facts = string_of(&dedup_chars(&f));
        let queries = string_of(&dedup_chars(&q));
        Ok(Input { rules, facts, queries })
    }
}

impl InputError {
    pub open spec fn text(&self) -> Seq<char> {
        match *self {
            InputError::MultipleFacts => "Multiple facts found in input file"@,
            InputError::MultipleQueries => "Multiple queries found in input file"@,
            InputError::NoFacts => "No facts in input file"@,
            InputError::NoQueries => "No queries in input file"@,
            InputError::InvalidFact(c) => "Invalid identifier in facts: '"@ + seq![c] + "'"@,
            InputError::InvalidQuery(c) => "Invalid identifier in query: '"@ + seq![c] + "'"@,
        }
    }

    /// The error, in words.
    pub fn message(&self) -> (r: String)
        ensures
            r@ == self.text(),
    {
        match *self {
            InputError::MultipleFacts => String::from_str("Multiple facts found in input file"),
            InputError::MultipleQueries => String::from_str(
                "Multiple queries found in input file",
            ),
            InputError::NoFacts => String::from_str("No facts in input file"),
            InputError::NoQueries => String::from_str("No queries in input file"),
            InputError::InvalidFact(c) => {
                let mut r = String::from_str("Invalid identifier in facts: '");
                push_char(&mut r, c);
                r.append("'");
                r
            },
            InputError::InvalidQuery(c) => {
                let mut r = String::from_str("Invalid identifier in query: '");
                push_char(&mut r, c);
                r.append("'");
                r
            },
        }
    }
}

} // verus!
