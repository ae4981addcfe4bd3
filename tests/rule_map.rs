use expert_system::rule_map::RuleMap;
use expert_system::truth_table::TruthTable;

fn table(variables: Vec<char>) -> TruthTable {
    TruthTable {
        variables,
        results: vec![],
    }
}

fn count(map: &RuleMap, c: char) -> usize {
    map.lookup(c).len()
}

#[test]
fn rule_map_empty() {
    let result = RuleMap::default();
    assert_eq!(result.variable_count(), 0);
}

#[test]
fn from() {
    let result = RuleMap::from_tables(vec![table(vec!['A', 'B']), table(vec!['B', 'C'])]);
    assert_eq!(result.variable_count(), 3);
    assert_eq!(count(&result, 'A'), 1);
    assert_eq!(count(&result, 'B'), 2);
    assert_eq!(count(&result, 'C'), 1);
}

#[test]
fn rule_map_insert() {
    let mut result = RuleMap::default();
    result.insert(table(vec!['A', 'B']));
    assert_eq!(result.variable_count(), 2);
    assert_eq!(count(&result, 'A'), 1);
    assert_eq!(count(&result, 'B'), 1);

    result.insert(table(vec!['B', 'C']));
    assert_eq!(result.variable_count(), 3);
    assert_eq!(count(&result, 'A'), 1);
    assert_eq!(count(&result, 'B'), 2);
    assert_eq!(count(&result, 'C'), 1);
}

#[test]
fn rule_map_insert_vec() {
    let mut result = RuleMap::default();
    result.insert_vec(vec![table(vec!['A', 'B']), table(vec!['B', 'C'])]);
    assert_eq!(result.variable_count(), 3);
    assert_eq!(count(&result, 'A'), 1);
    assert_eq!(count(&result, 'B'), 2);
    assert_eq!(count(&result, 'C'), 1);
}

#[test]
fn from_rule() {
    let result = RuleMap::from_rules(vec!["A => B", "B => C"]).unwrap();
    assert_eq!(result.variable_count(), 3);
    assert_eq!(count(&result, 'A'), 1);
    assert_eq!(count(&result, 'B'), 2);
    assert_eq!(count(&result, 'C'), 1);
}

#[test]
fn insert_rule() {
    let mut result = RuleMap::default();
    result.insert_rule("A => B").unwrap();
    assert_eq!(result.variable_count(), 2);
    assert_eq!(count(&result, 'A'), 1);
    assert_eq!(count(&result, 'B'), 1);

    result.insert_rule("B => C").unwrap();
    assert_eq!(result.variable_count(), 3);
    assert_eq!(count(&result, 'A'), 1);
    assert_eq!(count(&result, 'B'), 2);
    assert_eq!(count(&result, 'C'), 1);
}

#[test]
fn insert_rule_vec() {
    let mut result = RuleMap::default();
    result.insert_rule_vec(vec!["A => B", "B => C"]).unwrap();
    assert_eq!(result.variable_count(), 3);
    assert_eq!(count(&result, 'A'), 1);
    assert_eq!(count(&result, 'B'), 2);
    assert_eq!(count(&result, 'C'), 1);
}

#[test]
fn rule_map_error_invalid_rule() {
    let result = RuleMap::from_rules(vec!["A =>"]);
    assert!(result.is_err());
    assert_eq!(
        result.err().unwrap().message(),
        "Failed to create truth table from: 'A =>'"
    );
}

#[test]
fn parser_insert() {
    let mut map = RuleMap::new();
    map.insert_rule("A => B").unwrap();
    assert_eq!(map.table_count(), 1);
}

#[test]
fn parser_insert_vec() {
    let mut map = RuleMap::new();
    map.insert_rule_vec(vec!["A => B", "C => D"]).unwrap();
    assert_eq!(map.table_count(), 2);
}

#[test]
fn equal_tables_are_held_once() {
    let mut map = RuleMap::new();
    map.insert_rule("A => B").unwrap();
    map.insert_rule("A=>B").unwrap();
    map.insert_rule("A <=> B").unwrap();
    assert_eq!(map.table_count(), 2);
    assert_eq!(map.lookup('A'), vec![0, 1]);
    assert_eq!(map.lookup('B'), vec![0, 1]);
}

#[test]
fn lookup_of_unknown_variable_is_empty() {
    let map = RuleMap::from_rules(vec!["A => B"]).unwrap();
    assert!(map.lookup('Q').is_empty());
    assert!(map.lookup('a').is_empty());
    assert_eq!(map.table(0).variables, vec!['A', 'B']);
}

#[test]
fn failing_batch_keeps_earlier_rules() {
    let mut map = RuleMap::new();
    let error = map.insert_rule_vec(vec!["A => B", "C =", "D => E"]).unwrap_err();
    assert_eq!(error.rule, "C =");
    assert_eq!(map.table_count(), 1);
    assert!(map.lookup('D').is_empty());
}
