use sis_native::product::{
    plan_incremental_and_smooth, product_alloc_range_data, product_check_output,
    product_compute_next_states, product_compute_reverse_image, FunctionSupport, LonelySmooth,
    ProductError, ProductOutputCheck, ProductRangeData,
};

fn support(fnid: usize, variables: &[usize]) -> FunctionSupport {
    FunctionSupport::new(fnid, variables)
}

#[test]
fn planner_reports_empty_transition_set() {
    assert_eq!(
        plan_incremental_and_smooth(&[], &[], 3),
        Err(ProductError::EmptyTransitionSet)
    );
}

#[test]
fn planner_rejects_variables_outside_manager_range() {
    assert_eq!(
        plan_incremental_and_smooth(&[support(0, &[0, 3])], &[], 3),
        Err(ProductError::VariableOutOfRange {
            variable: 3,
            n_vars: 3,
        })
    );
    assert_eq!(
        plan_incremental_and_smooth(&[support(0, &[0])], &[4], 3),
        Err(ProductError::VariableOutOfRange {
            variable: 4,
            n_vars: 3,
        })
    );
}

#[test]
fn range_data_validates_and_preserves_product_arrays() {
    let data = product_alloc_range_data(
        support(99, &[0]),
        vec![support(10, &[0, 1])],
        vec![support(0, &[1, 2]), support(1, &[2, 3])],
        &[0, 1],
        &[0, 1],
        &[2, 3],
        4,
    )
    .unwrap();

    assert_eq!(data.init_state, support(99, &[0]));
    assert_eq!(data.external_outputs, vec![support(10, &[0, 1])]);
    assert_eq!(
        data.transition_outputs,
        vec![support(0, &[1, 2]), support(1, &[2, 3])]
    );
    assert_eq!(data.pi_inputs, vec![0, 1]);

    assert_eq!(
        product_alloc_range_data(support(0, &[]), vec![], vec![], &[], &[0], &[1, 2], 3),
        Err(ProductError::StateVariableArityMismatch {
            input_vars: 1,
            output_vars: 2,
        })
    );
}

#[test]
fn next_state_image_substitutes_output_variables_to_input_variables() {
    let data = product_alloc_range_data(
        support(99, &[]),
        vec![],
        vec![support(0, &[0, 2]), support(1, &[2, 3])],
        &[],
        &[0, 1],
        &[2, 3],
        4,
    )
    .unwrap();

    let image = product_compute_next_states(&support(77, &[3]), &data, 4).unwrap();

    assert_eq!(image.support_before_substitution, vec![2, 3]);
    assert_eq!(image.support_after_substitution, vec![0, 1]);
}

#[test]
fn reverse_image_substitutes_input_variables_to_output_variables_before_product() {
    let data = product_alloc_range_data(
        support(99, &[]),
        vec![],
        vec![support(0, &[0, 2]), support(1, &[2, 3])],
        &[],
        &[0, 1],
        &[2, 3],
        4,
    )
    .unwrap();

    let image = product_compute_reverse_image(&support(77, &[0, 1]), &data, 4).unwrap();

    assert!(image.product.initial_function_count >= 3);
    assert!(image
        .support_before_substitution
        .iter()
        .all(|v| [0, 1, 2, 3].contains(v)));
}

#[test]
fn output_check_reports_first_external_output_not_covering_current_set() {
    let data = product_alloc_range_data(
        support(99, &[]),
        vec![support(10, &[0]), support(11, &[0, 1, 2])],
        vec![support(0, &[0])],
        &[],
        &[0],
        &[1],
        3,
    )
    .unwrap();

    assert_eq!(
        product_check_output(&support(77, &[0, 1]), &data),
        ProductOutputCheck {
            ok: false,
            failing_index: Some(0),
        }
    );
    assert_eq!(
        product_check_output(&support(77, &[0]), &data),
        ProductOutputCheck {
            ok: true,
            failing_index: None,
        }
    );
}

#[test]
fn lonely_variables_are_smoothed_before_merging() {
    let plan = plan_incremental_and_smooth(&[support(0, &[0, 1]), support(1, &[1, 2])], &[1], 3)
        .expect("planner should succeed");

    assert_eq!(
        plan.lonely_smoothing,
        vec![
            LonelySmooth {
                fnid: 0,
                variable: 0,
            },
            LonelySmooth {
                fnid: 1,
                variable: 2,
            },
        ]
    );
    assert_eq!(plan.merges.len(), 1);
    assert_eq!(plan.merges[0].smoothed_variables, Vec::<usize>::new());
    assert_eq!(plan.final_support, vec![1]);
}

#[test]
fn merge_smooths_variable_when_two_remaining_functions_share_it() {
    let plan = plan_incremental_and_smooth(
        &[support(0, &[0, 1]), support(1, &[0, 2]), support(2, &[2])],
        &[],
        3,
    )
    .expect("planner should succeed");

    assert_eq!(
        plan.lonely_smoothing,
        vec![LonelySmooth {
            fnid: 0,
            variable: 1,
        }]
    );
    assert_eq!(plan.merges[0].absorbed_fnid, 1);
    assert_eq!(plan.merges[0].target_fnid, 0);
    assert_eq!(plan.merges[0].smoothed_variables, vec![0]);
    assert_eq!(plan.merges[0].moved_variables, vec![2]);
    assert_eq!(plan.final_support, Vec::<usize>::new());
}

#[test]
fn partition_promotion_matches_product_c_binary_tree_mapping() {
    let plan = plan_incremental_and_smooth(
        &[
            support(0, &[0]),
            support(1, &[0]),
            support(2, &[1]),
            support(3, &[1]),
            support(4, &[2]),
        ],
        &[],
        3,
    )
    .expect("planner should succeed");

    assert_eq!(
        plan.merges
            .iter()
            .map(|step| (step.target_partition_before, step.absorbed_partition))
            .collect::<Vec<_>>(),
        vec![(0, 1), (2, 3), (4, 5), (6, 7)]
    );
    assert_eq!(
        plan.merges
            .iter()
            .map(|step| step.target_partition_after)
            .collect::<Vec<_>>(),
        vec![2, 6, 7, 8]
    );
}

#[test]
fn function_support_keeps_a_sorted_set() {
    let f = support(5, &[3, 1, 3, 2]);
    assert_eq!(f.fnid, 5);
    assert_eq!(f.variables, vec![1, 2, 3]);
}

#[test]
fn planner_leaves_only_kept_variables_and_costs_grow_by_count() {
    let plan = plan_incremental_and_smooth(
        &[support(0, &[0, 1, 3]), support(1, &[1, 2]), support(2, &[2, 3])],
        &[3],
        4,
    )
    .unwrap();
    assert_eq!(plan.initial_function_count, 3);
    assert_eq!(plan.merges.len(), 2);
    assert_eq!(plan.lonely_smoothing, vec![LonelySmooth { fnid: 0, variable: 0 }]);
    assert_eq!(plan.merges[0].target_cost_after, 3);
    assert_eq!(plan.final_support, vec![3]);
}

#[test]
fn planner_reports_smallest_kept_variable_out_of_range_first() {
    assert_eq!(
        plan_incremental_and_smooth(&[support(0, &[7])], &[9, 5], 4),
        Err(ProductError::VariableOutOfRange { variable: 5, n_vars: 4 })
    );
}

#[test]
fn next_states_report_state_variable_mismatch() {
    let data = ProductRangeData {
        init_state: support(99, &[]),
        external_outputs: vec![],
        transition_outputs: vec![support(0, &[0, 1])],
        smoothing_inputs: vec![],
        input_vars: vec![0],
        output_vars: vec![1, 2],
        pi_inputs: vec![0],
    };
    assert_eq!(
        product_compute_next_states(&support(7, &[1]), &data, 3),
        Err(ProductError::StateVariableArityMismatch { input_vars: 2, output_vars: 1 })
    );
}

#[test]
fn reverse_image_plans_over_the_substituted_next_set() {
    let data = product_alloc_range_data(
        support(99, &[]),
        vec![],
        vec![support(0, &[0, 2]), support(1, &[2, 3])],
        &[],
        &[0, 1],
        &[2, 3],
        4,
    )
    .unwrap();
    let image = product_compute_reverse_image(&support(77, &[0, 1]), &data, 4).unwrap();
    assert_eq!(image.product.initial_function_count, 3);
    assert_eq!(image.product.merges.len(), 2);
    assert_eq!(image.product.merges[0].moved_variables, vec![3]);
    assert_eq!(image.product.merges[1].smoothed_variables, vec![2, 3]);
    assert_eq!(image.product.final_support, vec![0]);
    assert_eq!(image.support_before_substitution, vec![0]);
    assert_eq!(image.support_after_substitution, vec![0]);
}

#[test]
fn error_messages_name_the_values() {
    assert_eq!(
        ProductError::VariableOutOfRange { variable: 4, n_vars: 3 }.message(),
        "product support variable 4 is outside manager range 0..3"
    );
    assert_eq!(
        ProductError::StateVariableArityMismatch { input_vars: 1, output_vars: 2 }.message(),
        "product state input/output variable counts differ: 1 != 2"
    );
}
