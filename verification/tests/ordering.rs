use sis_native::ordering::{
    complement, compute_order_cost, extract_dominators, find_best_set_order,
    find_best_set_order_from_sis, find_greedy_set_order, set_is_less_than, OrderingError,
    OrderingOptions, OrderingResult, SetInfo, LARGE_NUMBER,
};

fn info(n_vars: usize, sets: &[&[usize]]) -> SetInfo {
    let sets: Vec<Vec<usize>> = sets.iter().map(|set| set.to_vec()).collect();
    SetInfo::new(n_vars, &sets).unwrap()
}

fn brute_force_best_order(info: &SetInfo) -> OrderingResult {
    let mut remaining = (0..info.n_sets()).collect::<Vec<_>>();
    let mut best = OrderingResult {
        order: Vec::new(),
        cost: LARGE_NUMBER,
    };
    permute(info, &mut Vec::new(), &mut remaining, &mut best);
    best
}

fn permute(
    info: &SetInfo,
    prefix: &mut Vec<usize>,
    remaining: &mut Vec<usize>,
    best: &mut OrderingResult,
) {
    if remaining.is_empty() {
        let cost = compute_order_cost(info, prefix).unwrap();
        if cost < best.cost {
            best.cost = cost;
            best.order = prefix.clone();
        }
        return;
    }

    for index in 0..remaining.len() {
        let next = remaining.remove(index);
        prefix.push(next);
        permute(info, prefix, remaining, best);
        prefix.pop();
        remaining.insert(index, next);
    }
}

#[test]
fn branch_and_bound_matches_bruteforce_for_overlapping_sets() {
    let info = info(5, &[&[0, 1, 4], &[1, 2], &[2, 3], &[0, 3]]);
    let result = find_best_set_order(
        &info,
        OrderingOptions {
            ordering_depth: 4,
            verbose: 0,
        },
    )
    .unwrap();
    let brute_force = brute_force_best_order(&info);

    assert_eq!(result.cost, brute_force.cost);
    assert_eq!(compute_order_cost(&info, &result.order), Ok(result.cost));
    assert_eq!(result.order.len(), info.n_sets());
}

#[test]
fn negative_depth_uses_greedy_ordering() {
    let info = info(5, &[&[0, 1, 2], &[0], &[3, 4]]);
    let result = find_best_set_order(
        &info,
        OrderingOptions {
            ordering_depth: -1,
            verbose: 0,
        },
    )
    .unwrap();

    assert_eq!(result.order, vec![1, 0, 2]);
    assert_eq!(result.cost, 9);
    assert_eq!(result.order, find_greedy_set_order(&info));
}

#[test]
fn depth_zero_follows_the_c_greedy_recursion_path() {
    let info = info(5, &[&[0, 1, 2], &[0], &[3, 4]]);
    let result = find_best_set_order(
        &info,
        OrderingOptions {
            ordering_depth: 0,
            verbose: 0,
        },
    )
    .unwrap();

    assert_eq!(result.order, vec![1, 0, 2]);
    assert_eq!(result.cost, 9);
}

#[test]
fn equivalent_sets_break_ties_by_lowest_index() {
    let info = info(3, &[&[0, 1], &[0, 1], &[0, 1]]);
    let result = find_best_set_order(
        &info,
        OrderingOptions {
            ordering_depth: 3,
            verbose: 0,
        },
    )
    .unwrap();

    assert_eq!(result.order[0], 0);
    assert_eq!(result.cost, brute_force_best_order(&info).cost);
}

#[test]
fn subset_dominator_rule_places_smaller_set_first() {
    let info = info(4, &[&[0], &[0, 1, 2], &[3]]);
    let dominators = extract_dominators(&info, &[false; 3], &complement(4, &[false; 4]));

    assert_eq!(
        dominators
            .iter()
            .map(|dominator| dominator.index)
            .collect::<Vec<_>>(),
        vec![0, 2]
    );
}

#[test]
fn compute_order_cost_rejects_invalid_permutations() {
    let info = info(2, &[&[0], &[1]]);

    assert_eq!(
        compute_order_cost(&info, &[0, 2]),
        Err(OrderingError::InvalidOrderingIndex {
            index: 2,
            n_sets: 2,
        })
    );
    assert_eq!(
        compute_order_cost(&info, &[1, 1]),
        Err(OrderingError::DuplicateOrderingIndex(1))
    );
    assert_eq!(
        compute_order_cost(&info, &[0]),
        Err(OrderingError::IncompleteOrdering {
            expected: 2,
            actual: 1,
        })
    );
}

#[test]
fn validates_set_dimensions() {
    assert_eq!(
        SetInfo::new(2, &[vec![0, 2]]),
        Err(OrderingError::SetVariableOutOfRange {
            set_index: 0,
            variable: 2,
            n_vars: 2,
        })
    );
    assert_eq!(
        SetInfo::new(2, &[]),
        Err(OrderingError::EmptySetCollection)
    );
}

#[test]
fn order_cost_sums_the_running_union_sizes() {
    let info = info(5, &[&[0, 1, 2], &[0], &[3, 4]]);
    assert_eq!(compute_order_cost(&info, &[0, 1, 2]), Ok(3 + 3 + 5));
    assert_eq!(compute_order_cost(&info, &[1, 0, 2]), Ok(1 + 3 + 5));
    assert_eq!(info.n_vars(), 5);
    let sets = info.sets();
    assert_eq!(sets[0].iter().copied().collect::<Vec<_>>(), vec![0, 1, 2]);
    assert_eq!(sets[2].iter().copied().collect::<Vec<_>>(), vec![3, 4]);
}

#[test]
fn set_order_relation_and_errors() {
    let mask = vec![true, true, false];
    assert!(set_is_less_than(&vec![true, false, false], &vec![true, true, false], &mask, 5));
    assert!(!set_is_less_than(&vec![true, true, false], &vec![true, false, false], &mask, -5));
    assert!(set_is_less_than(&vec![true, false, true], &vec![true, false, false], &mask, -1));
    assert!(!set_is_less_than(&vec![true, false, true], &vec![true, false, false], &mask, 1));
    assert_eq!(complement(3, &[true, false]), vec![false, true, true]);
    assert_eq!(
        SetInfo::new(3, &[vec![1], vec![9, 4]]).unwrap_err().message(),
        "set 1 contains variable 4 outside range 0..3"
    );
    assert!(find_best_set_order_from_sis().is_err());
    assert_eq!(OrderingOptions::default(), OrderingOptions { ordering_depth: 2, verbose: 0 });
}
