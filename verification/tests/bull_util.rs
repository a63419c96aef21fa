use std::collections::BTreeSet;

use sis_native::bull_util::{
    bull_util_disposition, disjoint_support_functions, input_cofactor, input_cofactor_is_blocked,
    is_sis_bdd_integration_blocked, range_2_compute, BullUtilDisposition, BullUtilError,
    FunctionPartition, SupportSet, TruthTable,
};

fn support(width: usize, variables: &[usize]) -> SupportSet {
    SupportSet::new(width, variables).unwrap()
}

#[test]
fn disjoint_support_functions_merges_overlapping_supports() {
    let partitions = disjoint_support_functions(&[
        support(5, &[0, 2]),
        support(5, &[1]),
        support(5, &[2, 3]),
        support(5, &[4]),
    ])
    .unwrap();

    assert_eq!(
        partitions,
        vec![
            FunctionPartition {
                functions: BTreeSet::from([0, 2])
            },
            FunctionPartition {
                functions: BTreeSet::from([1])
            },
            FunctionPartition {
                functions: BTreeSet::from([3])
            },
        ]
    );
}

#[test]
fn disjoint_support_functions_reports_width_mismatch() {
    let err = disjoint_support_functions(&[support(2, &[0]), support(3, &[1])]).unwrap_err();
    assert_eq!(
        err,
        BullUtilError::SupportWidthMismatch {
            expected: 2,
            actual: 3,
            row: 1,
        }
    );
}

#[test]
fn range_2_compute_ports_equal_case() {
    let x = TruthTable::variable(2, 0).unwrap();
    let y = TruthTable::variable(2, 1).unwrap();
    let result = range_2_compute(
        &FunctionPartition {
            functions: BTreeSet::from([0, 1]),
        },
        &[Some(x.clone()), Some(x.clone())],
        &[x.clone(), y.clone()],
    )
    .unwrap();

    assert_eq!(
        result,
        x.and(&y)
            .unwrap()
            .or(&x.not().and(&y.not()).unwrap())
            .unwrap()
    );
}

#[test]
fn range_2_compute_ports_complement_case() {
    let x = TruthTable::variable(2, 0).unwrap();
    let y = TruthTable::variable(2, 1).unwrap();
    let result = range_2_compute(
        &FunctionPartition {
            functions: BTreeSet::from([0, 1]),
        },
        &[Some(x.clone()), Some(x.not())],
        &[x.clone(), y.clone()],
    )
    .unwrap();

    assert_eq!(
        result,
        x.and(&y.not())
            .unwrap()
            .or(&x.not().and(&y).unwrap())
            .unwrap()
    );
}

#[test]
fn range_2_compute_uses_live_function_indices_like_c_code() {
    let x = TruthTable::variable(2, 0).unwrap();
    let y = TruthTable::variable(2, 1).unwrap();
    let result = range_2_compute(
        &FunctionPartition {
            functions: BTreeSet::from([0, 1]),
        },
        &[None, Some(x.clone()), Some(x.clone())],
        &[TruthTable::constant(2, false), x.clone(), y.clone()],
    )
    .unwrap();

    assert_eq!(
        result,
        x.and(&y)
            .unwrap()
            .or(&x.not().and(&y.not()).unwrap())
            .unwrap()
    );
}

#[test]
fn support_and_table_constructors_check_their_inputs() {
    assert_eq!(
        SupportSet::new(3, &[1, 7, 4]).unwrap_err(),
        BullUtilError::SupportWidthMismatch { expected: 3, actual: 5, row: 0 }
    );
    let s = support(4, &[3, 1]);
    assert!(s.contains(1) && s.contains(3) && !s.contains(0) && !s.contains(9));
    assert_eq!(s.width(), 4);
    assert!(s.intersects(&support(4, &[3])));
    assert!(!s.intersects(&support(4, &[0, 2])));
    assert_eq!(
        TruthTable::new(2, vec![true, false]).unwrap_err(),
        BullUtilError::TruthTableLengthMismatch { expected: 4, actual: 2 }
    );
    assert_eq!(
        TruthTable::variable(2, 2).unwrap_err(),
        BullUtilError::TruthTableVarMismatch { expected: 2, actual: 3 }
    );
    let x = TruthTable::variable(2, 0).unwrap();
    assert_eq!(x, TruthTable::new(2, vec![false, true, false, true]).unwrap());
    assert!(TruthTable::constant(3, true).is_tautology(true));
    assert!(!x.is_tautology(true));
    assert_eq!(
        x.and(&TruthTable::constant(3, true)).unwrap_err(),
        BullUtilError::TruthTableVarMismatch { expected: 2, actual: 3 }
    );
}

#[test]
fn cofactor_tautology_reads_the_condition_onset() {
    let x = TruthTable::variable(2, 0).unwrap();
    let y = TruthTable::variable(2, 1).unwrap();
    let xy = x.and(&y).unwrap();
    assert_eq!(xy.cofactor_tautology(&xy), Ok(Some(true)));
    assert_eq!(xy.cofactor_tautology(&x.not()), Ok(Some(false)));
    assert_eq!(xy.cofactor_tautology(&x), Ok(None));
    assert_eq!(xy.cofactor_tautology(&TruthTable::constant(2, false)), Ok(None));
}

#[test]
fn range_2_compute_errors() {
    let x = TruthTable::variable(2, 0).unwrap();
    let parts = FunctionPartition { functions: BTreeSet::from([0, 1]) };
    assert_eq!(
        range_2_compute(&parts, &[Some(x.clone()), None], &[x.clone()]).unwrap_err(),
        BullUtilError::MissingRangeFunction { selected_count: 1 }
    );
    assert_eq!(
        range_2_compute(&parts, &[Some(x.clone()), Some(x.clone())], &[x.clone()]).unwrap_err(),
        BullUtilError::PiListTooShort { needed_index: 1, actual_len: 1 }
    );
    let err = range_2_compute(
        &parts,
        &[Some(x.clone()), Some(TruthTable::variable(3, 0).unwrap())],
        &[x.clone(), x.clone()],
    )
    .unwrap_err();
    assert_eq!(err, BullUtilError::TruthTableVarMismatch { expected: 3, actual: 2 });
    assert_eq!(err.message(), "truth table has 2 variables; expected 3");
}

#[test]
fn blocked_entry_points_report_their_state() {
    assert_eq!(
        bull_util_disposition(),
        BullUtilDisposition::SupportAndRangeTwoReadyBddIntegrationBlocked
    );
    assert!(is_sis_bdd_integration_blocked());
    assert!(input_cofactor_is_blocked());
    assert_eq!(
        input_cofactor().unwrap_err(),
        BullUtilError::MissingSisDependencies { operation: "input_cofactor" }
    );
    assert_eq!(BullUtilError::EmptySupportList.message(), "support list is empty");
    assert_eq!(disjoint_support_functions(&[]).unwrap_err(), BullUtilError::EmptySupportList);
}
