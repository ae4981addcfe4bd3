use expert_system::truth_table::{ReduceError, TruthTable};

#[test]
fn truth_table_simple() {
    let result = TruthTable::from_rule("A => Z").unwrap();
    assert_eq!(result.variables, vec!['A', 'Z']);
    assert_eq!(result.results, vec![true, true, false, true]);
}

#[test]
fn truth_table_error_invalid_rule() {
    let result = TruthTable::from_rule("A = Z");
    assert!(result.is_err());
    assert_eq!(result.unwrap_err().message(), "Failed to evaluate permutations");
}

#[test]
fn parser_simple() {
    let table = TruthTable::from_rule("A => Z").unwrap();
    assert_eq!(table.variables, vec!['A', 'Z']);
    assert_eq!(table.results, vec![true, true, false, true]);
}

#[test]
fn test_valid_rule() {
    let table = TruthTable::from_rule("A + B <=> C").unwrap();
    assert_eq!(table.variables, vec!['A', 'B', 'C']);
    assert_eq!(
        table.results,
        vec![true, false, true, false, true, false, false, true]
    );
}

#[test]
fn build_error_names_the_first_failing_row() {
    let error = TruthTable::from_rule("A => B )").unwrap_err();
    assert_eq!(error.permutation, "0 => 0 )");
    assert_eq!(error.cause.message(), "Found unexpected token: Parenthesis(')')");
}

#[test]
fn empty_table() {
    let table = TruthTable::new();
    assert!(table.variables.is_empty());
    assert!(table.results.is_empty());
    assert!(!table.is_valid());
}

#[test]
fn rule_without_variables() {
    let table = TruthTable::from_rule("1 => 0").unwrap();
    assert!(table.variables.is_empty());
    assert_eq!(table.results, vec![false]);
    assert!(table.is_valid());
}

#[test]
fn reduce_keeps_the_fixed_half() {
    let table = TruthTable::from_rule("A+B<=>C").unwrap();
    let reduced = table.reduce('A', true).unwrap();
    assert_eq!(reduced.variables, vec!['B', 'C']);
    assert_eq!(reduced.results, vec![true, false, false, true]);
    assert_eq!(reduced.results[..], table.results[4..]);

    let low = table.reduce('A', false).unwrap();
    assert_eq!(low.results[..], table.results[..4]);
}

#[test]
fn reduce_on_a_middle_variable() {
    let table = TruthTable::from_rule("A+B<=>C").unwrap();
    let reduced = table.reduce('B', false).unwrap();
    assert_eq!(reduced.variables, vec!['A', 'C']);
    assert_eq!(
        reduced.results,
        vec![table.results[0], table.results[1], table.results[4], table.results[5]]
    );
    let last = table.reduce('C', true).unwrap();
    assert_eq!(last.variables, vec!['A', 'B']);
    assert_eq!(
        last.results,
        vec![table.results[1], table.results[3], table.results[5], table.results[7]]
    );
}

#[test]
fn reduce_missing_variable() {
    let table = TruthTable::from_rule("A => B").unwrap();
    let error = table.reduce('C', true).unwrap_err();
    assert_eq!(error, ReduceError::MissingVariable('C'));
    assert_eq!(error.message(), "Variable not in table: C");
}

#[test]
fn equal_tables() {
    let a = TruthTable::from_rule("A => B").unwrap();
    let b = TruthTable::from_rule("A=>B").unwrap();
    let c = TruthTable::from_rule("A <=> B").unwrap();
    assert!(a.equals(&b));
    assert!(!a.equals(&c));
    assert!(a.duplicate().equals(&a));
}

#[test]
fn tables_compare_by_value() {
    let a = TruthTable::from_rule("A => B").unwrap();
    assert_eq!(a, TruthTable::from_rule("A=>B").unwrap());
    assert_ne!(a, TruthTable::from_rule("A <=> B").unwrap());
}

#[test]
fn fixing_in_the_text_equals_reducing() {
    let table = TruthTable::from_rule("A+B<=>C").unwrap();
    assert_eq!(
        table.reduce('A', true).unwrap(),
        TruthTable::from_rule("1+B<=>C").unwrap()
    );
    assert_eq!(
        table.reduce('B', false).unwrap(),
        TruthTable::from_rule("A+0<=>C").unwrap()
    );
    assert_eq!(
        table.reduce('C', true).unwrap(),
        TruthTable::from_rule("A+B<=>1").unwrap()
    );
}
