use vstd::prelude::*;

use crate::text::{chars_of, is_space, is_white_space, string_of};

verus! {

/// The text of a line before its first `#`.
pub open spec fn before_comment(s: Seq<char>) -> Seq<char>
    decreases s.len(),
{
    if s.len() == 0 {
        s
    } else if s[0] == '#' {
        Seq::empty()
    } else {
        seq![s[0]] + before_comment(s.skip(1))
    }
}

/// The characters of `s` that are not white space, in order.
pub open spec fn without_spaces(s: Seq<char>) -> Seq<char>
    decreases s.len(),
{
    if s.len() == 0 {
        s
    } else {
        let r = without_spaces(s.drop_last());
        if is_space(s.last()) {
            r
        } else {
            r.push(s.last())
        }
    }
}

/// A line without its comment and without white space.
pub open spec fn clean(s: Seq<char>) -> Seq<char> {
    without_spaces(before_comment(s))
}

/// The cleaned lines that are not empty, in order; where empty lines stood between
/// two of them, one empty line stands.
pub open spec fn sanitized(ls: Seq<Seq<char>>) -> Seq<Seq<char>>
    decreases ls.len(),
{
    if ls.len() == 0 {
        Seq::empty()
    } else {
        let r = sanitized(ls.drop_last());
        let s = clean(ls.last());
        let prev_empty = ls.len() < 2 || clean(ls[ls.len() - 2]).len() == 0;
        let r2 = if r.len() > 0 && prev_empty && s.len() > 0 {
            r.push(Seq::empty())
        } else {
            r
        };
        if s.len() > 0 {
            r2.push(s)
        } else {
            r2
        }
    }
}

/// The texts of a list of string slices.
pub open spec fn texts(ls: Seq<&str>) -> Seq<Seq<char>> {
    ls.map_values(|l: &str| l@)
}

/// The texts of a list of strings.
pub open spec fn string_texts(ls: Seq<String>) -> Seq<Seq<char>> {
    ls.map_values(|l: String| l@)
}

/// Removes every white space character.
pub fn remove_spaces(line: &str) -> (r: String)
    ensures
        r@ == without_spaces(line@),
{
    let cs = chars_of(line);
    let mut out: Vec<char> = Vec::new();
    let mut i: usize = 0;
    while i < cs.len()
        invariant
            0 <= i <= cs@.len(),
            out@ == without_spaces(cs@.take(i as int)),
        decreases cs.len() - i,
    {
        proof {
            assert(cs@.take(i + 1).drop_last() =~= cs@.take(i as int));
        }
        if !is_white_space(cs[i]) {
            out.push(cs[i]);
        }
        i = i + 1;
    }
    proof {
        assert(cs@.take(i as int) =~= cs@);
    }
    string_of(&out)
}

/// Removes the comment: what follows the first `#`, with the `#`.
pub fn remove_comment(line: &str) -> (r: String)
    ensures
        r@ == before_comment(line@),
{
    let cs = chars_of(line);
    let mut out: Vec<char> = Vec::new();
    let mut i: usize = 0;
    assert(cs@.skip(0) =~= cs@);
    while i < cs.len()
        invariant
            0 <= i <= cs@.len(),
            cs@ == line@,
            out@ == cs@.take(i as int),
            before_comment(cs@) == out@ + before_comment(cs@.skip(i as int)),
        decreases cs.len() - i,
    {
        let ghost rest = cs@.skip(i as int);
        assert(rest[0] == cs@[i as int]);
        if cs[i] == '#' {
            assert(rest.len() > 0);
            assert(before_comment(rest) == Seq::<char>::empty());
            assert(out@ + Seq::<char>::empty() =~= out@);
            return string_of(&out);
        }
        assert(rest.skip(1) =~= cs@.skip(i + 1));
        assert(out@.push(cs@[i as int]) + before_comment(cs@.skip(i + 1)) =~= out@ + (seq![
            cs@[i as int],
        ] + before_comment(rest.skip(1))));
        assert(cs@.take(i + 1) =~= out@.push(cs@[i as int]));
        out.push(cs[i]);
        i = i + 1;
    }
    assert(cs@.skip(i as int) =~= Seq::<char>::empty());
    assert(out@ + Seq::<char>::empty() =~= out@);
    string_of(&out)
}

/// Cleans each line, drops the empty ones, and keeps one empty line where empty
/// lines separated two others.
pub fn sanitize_lines(lines: &[&str]) -> (r: Vec<String>)
    ensures
        string_texts(r@) == sanitized(texts(lines@)),
{
    let ghost ls = texts(lines@);
    let mut result: Vec<String> = Vec::new();
    let mut prev_empty = true;
    let mut i: usize = 0;
    while i < lines.len()
        invariant
            0 <= i <= lines@.len(),
            ls == texts(lines@),
            string_texts(result@) == sanitized(ls.take(i as int)),
            i > 0 ==> prev_empty == (clean(ls[i - 1]).len() == 0),
            i == 0 ==> prev_empty,
        decreases lines.len() - i,
    {
        let line = lines[i];
        let cleaned = remove_spaces(remove_comment(line).as_str());
        proof {
            assert(ls[i as int] == line@);
            assert(ls.take(i + 1).drop_last() =~= ls.take(i as int));
            assert(ls.take(i + 1).last() == ls[i as int]);
            if i > 0 {
                assert(ls.take(i + 1)[i - 1] == ls[i - 1]);
            }
        }
        let empty = cleaned.as_str().is_empty();
        if result.len() > 0 && prev_empty && !empty {
            result.push(String::new());
            proof {
                assert(string_texts(result@) =~= string_texts(result@.drop_last()).push(
                    Seq::empty(),
                ));
            }
        }
        prev_empty = empty;
        if !empty {
            let ghost before = result@;
            result.push(cleaned);
            proof {
                assert(string_texts(result@) =~= string_texts(before).push(result@.last()@));
            }
        }
        i = i + 1;
    }
    proof {
        assert(ls.take(i as int) =~= ls);
    }
    result
}

} // verus!
