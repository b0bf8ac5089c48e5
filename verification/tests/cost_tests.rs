use setpack::cost::amortized_cost;
use setpack::engine::singleton_bound;

fn pair(name: &str, reqs: &[&str]) -> (Vec<String>, String) {
    (
        reqs.iter().map(|r| r.to_string()).collect(),
        name.to_string(),
    )
}

#[test]
fn scarcity_costs_are_exact() {
    // x is shared by both items, y is held by one: cost(A) = 1/2, cost(B) = 1/2 + 1
    let pairs = vec![pair("A", &["x"]), pair("B", &["x", "y"])];
    let prep = amortized_cost(&pairs, 2);
    assert_eq!(prep.items.len(), 2);
    assert_eq!(prep.items[0].name, "A");
    assert_eq!(prep.items[0].cost, 500000);
    assert_eq!(prep.items[1].name, "B");
    assert_eq!(prep.items[1].cost, 1500000);
}

#[test]
fn singular_flags_mark_cardinality_one_resources() {
    let pairs = vec![pair("A", &["x"]), pair("B", &["x", "y"])];
    let prep = amortized_cost(&pairs, 2);
    assert!(!prep.items[0].singular);
    assert!(prep.items[1].singular);
}

#[test]
fn order_is_ascending_by_cost() {
    let pairs = vec![
        pair("B", &["x", "y"]),
        pair("A", &["x"]),
        pair("C", &["x", "z"]),
    ];
    let prep = amortized_cost(&pairs, 2);
    for w in prep.order.windows(2) {
        assert!(prep.items[w[0]].cost <= prep.items[w[1]].cost);
    }
    // the cheapest item is the one whose only resource is shared three ways
    assert_eq!(prep.items[prep.order[0]].name, "A");
}

#[test]
fn oversized_pairs_never_become_items() {
    let pairs = vec![pair("A", &["x", "y", "z"]), pair("B", &["w"])];
    let prep = amortized_cost(&pairs, 1);
    assert_eq!(prep.items.len(), 1);
    assert_eq!(prep.items[0].name, "B");
    assert_eq!(prep.domain, vec!["w".to_string()]);
}

#[test]
fn singleton_bound_formula_is_exact() {
    // both resources of B are scarce, so B is singular while A is not
    let pairs = vec![pair("A", &["x"]), pair("B", &["x", "y"])];
    let prep = amortized_cost(&pairs, 2);
    let cands: Vec<usize> = vec![0, 1];
    // one non-singular candidate plus min(singular, budget_left)
    assert_eq!(singleton_bound(&prep.items, &cands, 0), 1);
    assert_eq!(singleton_bound(&prep.items, &cands, 1), 2);
    assert_eq!(singleton_bound(&prep.items, &cands, 5), 2);
}

#[test]
fn singleton_bound_is_admissible_on_a_singular_instance() {
    // three singular items but only one unit of budget: at most one fits,
    // and the bound must not undercount that
    let pairs = vec![pair("A", &["x"]), pair("B", &["y"]), pair("C", &["z"])];
    let prep = amortized_cost(&pairs, 3);
    let cands: Vec<usize> = vec![0, 1, 2];
    let true_max_with_budget_one = 1;
    assert!(singleton_bound(&prep.items, &cands, 1) >= true_max_with_budget_one);
    assert_eq!(singleton_bound(&prep.items, &cands, 1), 1);
    assert_eq!(singleton_bound(&prep.items, &cands, 2), 2);
}
