use expert_system::resolver::{Outcome, Resolver};
use expert_system::rule_map::RuleMap;

fn resolver(rules: Vec<&str>, facts: &str, queries: &str) -> Resolver {
    let map = RuleMap::from_rules(rules).unwrap();
    Resolver::new(map, facts.chars().collect(), queries.chars().collect())
}

#[test]
fn fact_implies_consequent() {
    let r = resolver(vec!["A => B"], "A", "B");
    assert_eq!(r.solve(), vec![Outcome::True]);
}

#[test]
fn unsupported_antecedent_is_false() {
    let r = resolver(vec!["A => B", "C => D"], "C", "B");
    assert_eq!(r.solve(), vec![Outcome::False]);
    assert_eq!(r.resolve('D'), Outcome::True);
}

#[test]
fn cycle_terminates() {
    let r = resolver(vec!["A => B", "B => A"], "", "A");
    assert_eq!(r.solve(), vec![Outcome::False]);
}

#[test]
fn abstaining_rule_does_not_outvote() {
    let r = resolver(vec!["!A => B", "A => B"], "A", "B");
    assert_eq!(r.solve(), vec![Outcome::True]);
}

#[test]
fn disagreeing_rules_are_undetermined() {
    let r = resolver(vec!["A => B", "A => !B"], "A", "B");
    assert_eq!(r.solve(), vec![Outcome::Undetermined]);
}

#[test]
fn same_query_twice() {
    let r = resolver(vec!["A => B", "B => C", "C => A"], "A", "CC");
    let first = r.resolve('C');
    let second = r.resolve('C');
    assert_eq!(first, second);
    assert_eq!(first, Outcome::True);
    assert_eq!(r.solve(), vec![Outcome::True, Outcome::True]);
}

#[test]
fn facts_are_true_and_unknowns_false() {
    let r = resolver(vec![], "AB", "ABZ");
    assert_eq!(r.solve(), vec![Outcome::True, Outcome::True, Outcome::False]);
}

#[test]
fn chain_of_rules() {
    let r = resolver(vec!["A => B", "B => C"], "A", "CF");
    assert_eq!(r.solve(), vec![Outcome::True, Outcome::False]);
    // B is also in `B => C`, where C, whose only rule is already visited, counts as
    // false and so votes B false against the vote of `A => B`.
    assert_eq!(r.resolve('B'), Outcome::Undetermined);
}

#[test]
fn conjunction_in_antecedent() {
    let r = resolver(vec!["A => B", "B => C", "C + D => E"], "AD", "EC");
    // E is proved through the chain. C also sits in `C + D => E`, where E, whose only
    // rule is already visited, counts as false and so votes C false.
    assert_eq!(r.solve(), vec![Outcome::True, Outcome::Undetermined]);
}

#[test]
fn rule_forcing_false() {
    let r = resolver(vec!["A => !B"], "A", "B");
    assert_eq!(r.resolve('B'), Outcome::False);
}

#[test]
fn undetermined_premise_gives_no_vote() {
    let r = resolver(vec!["A => C", "A => !C", "C => D"], "A", "D");
    assert_eq!(r.resolve('C'), Outcome::Undetermined);
    assert_eq!(r.resolve('D'), Outcome::False);
}
