use sis_native::enumerate::{
    enumerate_sequential_circuit, EnumerateError, EnumerationRequest, PackedStateTable,
    ENUMERATION_UNAVAILABLE, MAX_ELENGTH,
};

#[test]
fn pack_state_matches_c_shashcode_word_order() {
    let table = PackedStateTable::new(5, 4).unwrap();

    assert_eq!(table.pack_state(&[1, 0, 1, 1, 0]).unwrap(), vec![0b1101, 0]);
    assert_eq!(
        table.translate_hashed_code(&[0b1101, 0]).unwrap(),
        vec![1, 0, 1, 1, 0]
    );
}

#[test]
fn pack_state_handles_partial_most_significant_word_first() {
    let table = PackedStateTable::new(10, 4).unwrap();

    let packed = table.pack_state(&[1, 0, 1, 1, 0, 0, 1, 0, 1, 1]).unwrap();

    assert_eq!(packed, vec![0b1101, 0b0100, 0b11]);
    assert_eq!(
        table.translate_hashed_code(&packed).unwrap(),
        vec![1, 0, 1, 1, 0, 0, 1, 0, 1, 1]
    );
}

#[test]
fn hash_code_interns_packed_states_like_st_storelist() {
    let mut table = PackedStateTable::new(4, 4).unwrap();

    let first = table.hash_code(&[1, 0, 0, 1]).unwrap();
    let second = table.hash_code(&[1, 0, 0, 1]).unwrap();
    let third = table.hash_code(&[0, 0, 0, 1]).unwrap();

    assert_eq!(first, second);
    assert_ne!(first, third);
    assert_eq!(table.len(), 2);
    assert!(table.contains_packed(&first));
}

#[test]
fn compare_and_hash_match_c_helpers() {
    let table = PackedStateTable::new(8, 4).unwrap();

    assert_eq!(table.compare_states(&[3, 1], &[3, 2]).unwrap(), -1);
    assert_eq!(table.compare_states(&[9, 2], &[3, 2]).unwrap(), 1);
    assert_eq!(table.compare_states(&[3, 2], &[3, 2]).unwrap(), 0);
    assert_eq!(table.state_hash(&[17, 2], 5).unwrap(), 2);
}

#[test]
fn recursive_enumeration_reports_unported_dependencies() {
    let request = EnumerationRequest {
        latch_count: 2,
        primary_input_count: 1,
        primary_output_count: 1,
        max_depth: MAX_ELENGTH,
    };

    assert_eq!(
        enumerate_sequential_circuit(&request),
        Err(EnumerateError::MissingDependency(ENUMERATION_UNAVAILABLE))
    );
}

#[test]
fn packed_table_rejects_bad_inputs() {
    assert_eq!(PackedStateTable::new(3, 0), Err(EnumerateError::InvalidBitsPerWord(0)));
    assert_eq!(PackedStateTable::new(3, 33), Err(EnumerateError::InvalidBitsPerWord(33)));
    let table = PackedStateTable::new(3, 32).unwrap();
    assert_eq!(table.words_per_state(), 1);
    assert_eq!(
        table.pack_state(&[1, 0]),
        Err(EnumerateError::StateLength { expected: 3, actual: 2 })
    );
    assert_eq!(
        table.pack_state(&[1, 5, 7]),
        Err(EnumerateError::InvalidStateBit { index: 1, value: 5 })
    );
    assert_eq!(
        table.translate_hashed_code(&[]),
        Err(EnumerateError::PackedLength { expected: 1, actual: 0 })
    );
    assert_eq!(table.state_hash(&[1], 0), Err(EnumerateError::ZeroModulus));
    assert_eq!(
        table.compare_states(&[1], &[1, 2]),
        Err(EnumerateError::PackedLength { expected: 1, actual: 2 })
    );
    let request = EnumerationRequest {
        latch_count: 1,
        primary_input_count: 1,
        primary_output_count: 1,
        max_depth: MAX_ELENGTH + 1,
    };
    assert_eq!(
        enumerate_sequential_circuit(&request),
        Err(EnumerateError::DepthLimit { requested: MAX_ELENGTH + 1, max: MAX_ELENGTH })
    );
}

#[test]
fn packed_round_trip_full_words() {
    let table = PackedStateTable::new(33, 32).unwrap();
    let mut state = vec![1u8; 33];
    state[0] = 0;
    let packed = table.pack_state(&state).unwrap();
    assert_eq!(packed, vec![0xffff_fffe, 1]);
    assert_eq!(table.translate_hashed_code(&packed).unwrap(), state);
    let empty = PackedStateTable::new(0, 8).unwrap();
    assert_eq!(empty.pack_state(&[]).unwrap(), Vec::<u32>::new());
    assert!(empty.is_empty());
    assert_eq!(empty.state_hash(&[], 3), Ok(0));
}
