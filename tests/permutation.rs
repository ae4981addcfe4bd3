use expert_system::permutation::{
    calc_thread_count, chunk_ranges, enumerate, row_count, variables, SequentialPermutationIter,
};

fn iter_of(formula: &str) -> SequentialPermutationIter {
    let vars = variables(formula);
    let end = row_count(vars.len());
    SequentialPermutationIter::new(formula.to_string(), vars, 0, end)
}

#[test]
fn permutation_iter_empty() {
    let mut iter = iter_of("");
    assert_eq!(Some("".to_string()), iter.next());
    assert_eq!(None, iter.next());
}

#[test]
fn permutation_iter_identifiers() {
    let mut iter = iter_of("! 1 0 , . a z A Z");
    assert_eq!(Some("! 1 0 , . a z 0 0".to_string()), iter.next());
    assert_eq!(Some("! 1 0 , . a z 0 1".to_string()), iter.next());
    assert_eq!(Some("! 1 0 , . a z 1 0".to_string()), iter.next());
    assert_eq!(Some("! 1 0 , . a z 1 1".to_string()), iter.next());
    assert_eq!(None, iter.next());
}

#[test]
fn permutation_iter_order() {
    let mut iter = iter_of("A B C");
    assert_eq!(Some("0 0 0".to_string()), iter.next());
    assert_eq!(Some("0 0 1".to_string()), iter.next());
    assert_eq!(Some("0 1 0".to_string()), iter.next());
    assert_eq!(Some("0 1 1".to_string()), iter.next());
    assert_eq!(Some("1 0 0".to_string()), iter.next());
    assert_eq!(Some("1 0 1".to_string()), iter.next());
    assert_eq!(Some("1 1 0".to_string()), iter.next());
    assert_eq!(Some("1 1 1".to_string()), iter.next());
    assert_eq!(None, iter.next());
}

#[test]
fn permutation_iter_duplicate_identifiers() {
    let mut iter = iter_of("A A B B");
    assert_eq!(Some("0 0 0 0".to_string()), iter.next());
    assert_eq!(Some("0 0 1 1".to_string()), iter.next());
    assert_eq!(Some("1 1 0 0".to_string()), iter.next());
    assert_eq!(Some("1 1 1 1".to_string()), iter.next());
    assert_eq!(None, iter.next());
}

#[test]
fn permutation_iter_with_rule_symbols() {
    let mut iter = iter_of("A + B <=> C");
    assert_eq!(Some("0 + 0 <=> 0".to_string()), iter.next());
    assert_eq!(Some("0 + 0 <=> 1".to_string()), iter.next());
    assert_eq!(Some("0 + 1 <=> 0".to_string()), iter.next());
    assert_eq!(Some("0 + 1 <=> 1".to_string()), iter.next());
    assert_eq!(Some("1 + 0 <=> 0".to_string()), iter.next());
    assert_eq!(Some("1 + 0 <=> 1".to_string()), iter.next());
    assert_eq!(Some("1 + 1 <=> 0".to_string()), iter.next());
    assert_eq!(Some("1 + 1 <=> 1".to_string()), iter.next());
    assert_eq!(None, iter.next());
}

#[test]
fn permutation_iter_respect_white_space() {
    let mut iter = iter_of("\t\n\r A");
    assert_eq!(Some("\t\n\r 0".to_string()), iter.next());
    assert_eq!(Some("\t\n\r 1".to_string()), iter.next());
    assert_eq!(None, iter.next());
}

#[test]
fn mod_empty() {
    let mut iter = iter_of("");
    assert_eq!(Some("".to_string()), iter.next());
    assert_eq!(None, iter.next());
}

#[test]
fn mod_identifiers() {
    let mut iter = iter_of("! 1 0 , . a z A Z");
    assert_eq!(Some("! 1 0 , . a z 0 0".to_string()), iter.next());
    assert_eq!(Some("! 1 0 , . a z 0 1".to_string()), iter.next());
    assert_eq!(Some("! 1 0 , . a z 1 0".to_string()), iter.next());
    assert_eq!(Some("! 1 0 , . a z 1 1".to_string()), iter.next());
    assert_eq!(None, iter.next());
}

#[test]
fn mod_order() {
    let mut iter = iter_of("A B C");
    assert_eq!(Some("0 0 0".to_string()), iter.next());
    assert_eq!(Some("0 0 1".to_string()), iter.next());
    assert_eq!(Some("0 1 0".to_string()), iter.next());
    assert_eq!(Some("0 1 1".to_string()), iter.next());
    assert_eq!(Some("1 0 0".to_string()), iter.next());
    assert_eq!(Some("1 0 1".to_string()), iter.next());
    assert_eq!(Some("1 1 0".to_string()), iter.next());
    assert_eq!(Some("1 1 1".to_string()), iter.next());
    assert_eq!(None, iter.next());
}

#[test]
fn mod_duplicate_identifiers() {
    let mut iter = iter_of("A A B B");
    assert_eq!(Some("0 0 0 0".to_string()), iter.next());
    assert_eq!(Some("0 0 1 1".to_string()), iter.next());
    assert_eq!(Some("1 1 0 0".to_string()), iter.next());
    assert_eq!(Some("1 1 1 1".to_string()), iter.next());
    assert_eq!(None, iter.next());
}

#[test]
fn mod_with_rule_symbols() {
    let mut iter = iter_of("A + B <=> C");
    assert_eq!(Some("0 + 0 <=> 0".to_string()), iter.next());
    assert_eq!(Some("0 + 0 <=> 1".to_string()), iter.next());
    assert_eq!(Some("0 + 1 <=> 0".to_string()), iter.next());
    assert_eq!(Some("0 + 1 <=> 1".to_string()), iter.next());
    assert_eq!(Some("1 + 0 <=> 0".to_string()), iter.next());
    assert_eq!(Some("1 + 0 <=> 1".to_string()), iter.next());
    assert_eq!(Some("1 + 1 <=> 0".to_string()), iter.next());
    assert_eq!(Some("1 + 1 <=> 1".to_string()), iter.next());
    assert_eq!(None, iter.next());
}

#[test]
fn mod_respect_white_space() {
    let mut iter = iter_of("\t\n\r A");
    assert_eq!(Some("\t\n\r 0".to_string()), iter.next());
    assert_eq!(Some("\t\n\r 1".to_string()), iter.next());
    assert_eq!(None, iter.next());
}

#[test]
fn parser_identifiers() {
    let mut iter = iter_of("! 1 0 , . a z A Z");
    assert_eq!(Some("! 1 0 , . a z 0 0".to_string()), iter.next());
    assert_eq!(Some("! 1 0 , . a z 0 1".to_string()), iter.next());
    assert_eq!(Some("! 1 0 , . a z 1 0".to_string()), iter.next());
    assert_eq!(Some("! 1 0 , . a z 1 1".to_string()), iter.next());
    assert_eq!(None, iter.next());
}

#[test]
fn parser_order() {
    let mut iter = iter_of("A B C");
    assert_eq!(Some("0 0 0".to_string()), iter.next());
    assert_eq!(Some("0 0 1".to_string()), iter.next());
    assert_eq!(Some("0 1 0".to_string()), iter.next());
    assert_eq!(Some("0 1 1".to_string()), iter.next());
    assert_eq!(Some("1 0 0".to_string()), iter.next());
    assert_eq!(Some("1 0 1".to_string()), iter.next());
    assert_eq!(Some("1 1 0".to_string()), iter.next());
    assert_eq!(Some("1 1 1".to_string()), iter.next());
    assert_eq!(None, iter.next());
}

#[test]
fn parser_duplicate_identifiers() {
    let mut iter = iter_of("A A B B");
    assert_eq!(Some("0 0 0 0".to_string()), iter.next());
    assert_eq!(Some("0 0 1 1".to_string()), iter.next());
    assert_eq!(Some("1 1 0 0".to_string()), iter.next());
    assert_eq!(Some("1 1 1 1".to_string()), iter.next());
    assert_eq!(None, iter.next());
}

#[test]
fn parser_with_rule_symbols() {
    let mut iter = iter_of("A + B <=> C");
    assert_eq!(Some("0 + 0 <=> 0".to_string()), iter.next());
    assert_eq!(Some("0 + 0 <=> 1".to_string()), iter.next());
    assert_eq!(Some("0 + 1 <=> 0".to_string()), iter.next());
}

#[test]
fn parser_respect_white_space() {
    let mut iter = iter_of("\t\n\r A");
    assert_eq!(Some("\t\n\r 0".to_string()), iter.next());
    assert_eq!(Some("\t\n\r 1".to_string()), iter.next());
    assert_eq!(None, iter.next());
}

#[test]
fn parser_empty() {
    let mut iter = iter_of("");
    assert_eq!(Some("".to_string()), iter.next());
    assert_eq!(None, iter.next());
}

#[test]
fn row_count_is_two_to_the_variables() {
    for formula in ["", "1 => 0", "A => A", "A + B", "A | B ^ C <=> D", "Z + Y + X + W + V"] {
        let n = variables(formula).len();
        assert_eq!(enumerate(formula).len(), 1usize << n);
    }
    assert_eq!(row_count(0), 1);
    assert_eq!(row_count(5), 32);
    assert_eq!(row_count(26), 1 << 26);
}

#[test]
fn no_variables_gives_the_formula_itself() {
    assert_eq!(enumerate("1 + 0 => 1"), vec!["1 + 0 => 1".to_string()]);
}

#[test]
fn variables_are_sorted_and_distinct() {
    assert_eq!(variables("Z + A => Z | M"), vec!['A', 'M', 'Z']);
    assert_eq!(variables("a + b => 1"), Vec::<char>::new());
}

#[test]
fn enumerate_in_bit_order() {
    assert_eq!(
        enumerate("B => A"),
        vec!["0 => 0", "1 => 0", "0 => 1", "1 => 1"]
    );
    assert_eq!(enumerate("A A B B")[2], "1 1 0 0");
}

#[test]
fn partial_range() {
    let vars = variables("A B C");
    let mut iter = SequentialPermutationIter::new("A B C".to_string(), vars, 5, 7);
    assert_eq!(Some("1 0 1".to_string()), iter.next());
    assert_eq!(Some("1 1 0".to_string()), iter.next());
    assert_eq!(None, iter.next());
    assert_eq!(None, iter.next());
}

#[test]
fn thread_counts() {
    assert_eq!(calc_thread_count(0), 0);
    assert_eq!(calc_thread_count(15), 0);
    assert_eq!(calc_thread_count(16), 1);
    assert_eq!(calc_thread_count(18), 1);
    assert_eq!(calc_thread_count(19), 2);
    assert_eq!(calc_thread_count(26), 5);
}

#[test]
fn chunks_cover_the_rows() {
    assert_eq!(chunk_ranges(10, 3), vec![(0, 3), (3, 6), (6, 10)]);
    assert_eq!(chunk_ranges(8, 1), vec![(0, 8)]);
    assert_eq!(chunk_ranges(2, 4), vec![(0, 0), (0, 0), (0, 0), (0, 2)]);
}
