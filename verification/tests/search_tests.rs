use setpack::engine::search;

fn pair(name: &str, reqs: &[&str]) -> (Vec<String>, String) {
    (
        reqs.iter().map(|r| r.to_string()).collect(),
        name.to_string(),
    )
}

/// The optimal selection size, by exhaustive enumeration of subsets.
fn brute_force_best(pairs: &Vec<(Vec<String>, String)>, budget: usize) -> usize {
    let n = pairs.len();
    assert!(n <= 20);
    let mut best = 0;
    for mask in 0u32..(1u32 << n) {
        let mut union: Vec<String> = Vec::new();
        let mut count = 0;
        for i in 0..n {
            if mask & (1 << i) != 0 {
                count += 1;
                for r in &pairs[i].0 {
                    if !union.contains(r) {
                        union.push(r.clone());
                    }
                }
            }
        }
        if union.len() <= budget && count > best {
            best = count;
        }
    }
    best
}

fn names_of(items: &Vec<setpack::model::Item>) -> Vec<String> {
    let mut names: Vec<String> = items.iter().map(|it| it.name.clone()).collect();
    names.sort();
    names
}

#[test]
fn two_small_items_beat_one_covering_item() {
    // taking the two one-resource items is better than the one item that
    // needs two resources of its own
    let pairs = vec![
        pair("A", &["x"]),
        pair("B", &["y"]),
        pair("C", &["z", "v"]),
    ];
    let result = search(&pairs, 2);
    assert_eq!(result.len(), 2);
    assert_eq!(names_of(&result), vec!["A".to_string(), "B".to_string()]);
}

#[test]
fn overlapping_trio_under_tight_budgets() {
    // with one resource permitted only a single item fits; with two, the
    // shared resources let every item in at once
    let pairs = vec![
        pair("A", &["x"]),
        pair("B", &["y"]),
        pair("C", &["x", "y"]),
    ];
    assert_eq!(search(&pairs, 1).len(), 1);
    assert_eq!(search(&pairs, 2).len(), 3);
}

#[test]
fn two_singles_beat_the_triple() {
    let pairs = vec![
        pair("A", &["x", "y", "z"]),
        pair("B", &["x"]),
        pair("C", &["y"]),
        pair("D", &["z"]),
    ];
    let result = search(&pairs, 2);
    assert_eq!(result.len(), 2);
    for it in &result {
        assert_ne!(it.name, "A");
    }
}

#[test]
fn empty_input_gives_empty_result() {
    let pairs: Vec<(Vec<String>, String)> = Vec::new();
    let result = search(&pairs, 5);
    assert_eq!(result.len(), 0);
}

#[test]
fn oversized_item_is_filtered_out() {
    let pairs = vec![pair("A", &["x", "y", "z"])];
    let result = search(&pairs, 2);
    assert_eq!(result.len(), 0);
}

#[test]
fn zero_budget_admits_only_requirement_free_items() {
    let pairs = vec![pair("A", &[]), pair("B", &["x"])];
    let result = search(&pairs, 0);
    assert_eq!(result.len(), 1);
    assert_eq!(result[0].name, "A");
}

#[test]
fn duplicate_requirements_collapse() {
    // B names the same resource twice; it still fits a budget of one
    let pairs = vec![pair("A", &["x"]), pair("B", &["x", "x"])];
    let result = search(&pairs, 1);
    assert_eq!(result.len(), 2);
}

#[test]
fn returned_union_fits_budget() {
    let pairs = vec![
        pair("A", &["x", "y"]),
        pair("B", &["y", "z"]),
        pair("C", &["z", "w"]),
        pair("D", &["w", "x"]),
    ];
    let budget = 3;
    let result = search(&pairs, budget);
    let mut union: Vec<String> = Vec::new();
    for it in &result {
        'outer: for line in &pairs {
            if line.1 == it.name {
                for r in &line.0 {
                    if !union.contains(r) {
                        union.push(r.clone());
                    }
                }
                break 'outer;
            }
        }
    }
    assert!(union.len() <= budget);
}

#[test]
fn matches_brute_force_on_small_instances() {
    let instances: Vec<(Vec<(Vec<String>, String)>, usize)> = vec![
        (
            vec![pair("A", &["x"]), pair("B", &["y"]), pair("C", &["x", "y"])],
            1,
        ),
        (
            vec![
                pair("A", &["x", "y", "z"]),
                pair("B", &["x"]),
                pair("C", &["y"]),
                pair("D", &["z"]),
            ],
            2,
        ),
        (
            vec![
                pair("gin fizz", &["gin", "lemon", "sugar"]),
                pair("gimlet", &["gin", "lime"]),
                pair("daiquiri", &["rum", "lime", "sugar"]),
                pair("mojito", &["rum", "lime", "mint", "sugar"]),
                pair("martini", &["gin", "vermouth"]),
                pair("manhattan", &["whiskey", "vermouth", "bitters"]),
                pair("sour", &["whiskey", "lemon", "sugar"]),
                pair("cuba libre", &["rum", "cola", "lime"]),
            ],
            5,
        ),
        (
            vec![
                pair("a", &["1", "2"]),
                pair("b", &["2", "3"]),
                pair("c", &["3", "4"]),
                pair("d", &["4", "5"]),
                pair("e", &["5", "1"]),
                pair("f", &["1", "3"]),
                pair("g", &["2", "4"]),
            ],
            4,
        ),
    ];
    for (pairs, budget) in instances {
        let expected = brute_force_best(&pairs, budget);
        let result = search(&pairs, budget);
        assert_eq!(result.len(), expected);
    }
}

#[test]
fn repeated_runs_return_the_same_size() {
    let pairs = vec![
        pair("A", &["x", "y"]),
        pair("B", &["y", "z"]),
        pair("C", &["z", "x"]),
        pair("D", &["w"]),
    ];
    let first = search(&pairs, 3);
    let second = search(&pairs, 3);
    let third = search(&pairs, 3);
    assert_eq!(first.len(), second.len());
    assert_eq!(second.len(), third.len());
}

#[test]
fn larger_budget_never_shrinks_the_selection() {
    let pairs = vec![
        pair("A", &["x"]),
        pair("B", &["y"]),
        pair("C", &["x", "y", "z"]),
        pair("D", &["z", "w"]),
        pair("E", &["v", "w"]),
    ];
    let mut previous = 0;
    for budget in 0..6 {
        let size = search(&pairs, budget).len();
        assert!(size >= previous);
        previous = size;
    }
}
