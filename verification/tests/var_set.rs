use sis_native::var_set::VarSet;
use std::cmp::Ordering;

#[test]
fn starts_empty_and_tracks_inserted_members() {
    let mut set = VarSet::new(65);

    assert_eq!(set.len(), 65);
    assert_eq!(set.words().len(), 3);
    assert!(set.has_no_members());

    set.insert(0);
    set.insert(32);
    set.insert(64);

    assert!(set.contains(0));
    assert!(set.contains(32));
    assert!(set.contains(64));
    assert_eq!(set.count(), 3);
    assert_eq!(set.sis_hash(), 3);

    set.remove(32);

    assert!(!set.contains(32));
    assert_eq!(set.count(), 2);
}

#[test]
fn combines_sets_with_same_length() {
    let mut a = VarSet::new(6);
    let mut b = VarSet::new(6);
    a.insert(1);
    a.insert(4);
    b.insert(4);
    b.insert(5);

    let union = a.union(&b);
    let intersection = a.intersect(&b);

    assert_eq!(union.bit_string(), "0 1 0 0 1 1 \n");
    assert_eq!(intersection.bit_string(), "0 0 0 0 1 0 \n");
    assert!(a.overlaps(&b));
}

#[test]
fn complement_masks_unused_tail_bits() {
    let mut set = VarSet::new(33);
    set.insert(32);

    let complement = set.complement();

    assert_eq!(complement.count(), 32);
    assert!(complement.contains(0));
    assert!(!complement.contains(32));
    assert_eq!(complement.words()[1], 0);
}

#[test]
fn detects_full_and_clear_states() {
    let mut set = VarSet::new(3);

    assert!(!set.is_full());

    set.insert(0);
    set.insert(1);
    set.insert(2);

    assert!(set.is_full());

    set.clear();

    assert!(set.has_no_members());
    assert!(!set.is_full());
}

#[test]
fn assignment_and_sis_comparison_match_c_semantics() {
    let mut source = VarSet::new(4);
    let mut target = VarSet::new(4);
    source.insert(2);

    target.assign_from(&source);

    assert_eq!(target, source);
    assert_eq!(target.sis_cmp(&source), 0);

    target.insert(3);

    assert_ne!(target, source);
    assert_eq!(target.sis_cmp(&source), 1);
}

#[test]
fn var_set_complement_counts_add_up_to_length() {
    let mut set = VarSet::new(40);
    set.insert(3);
    set.insert(39);
    let complement = set.complement();
    assert_eq!(set.count() + complement.count(), 40);
    assert_eq!(complement.words(), &[!(1u32 << 3), 0x7f]);
}

#[test]
fn var_set_compare_words_is_lexicographic() {
    let mut a = VarSet::new(40);
    let mut b = VarSet::new(40);
    assert_eq!(a.compare_words(&b), Ordering::Equal);
    a.insert(33);
    b.insert(0);
    assert_eq!(a.compare_words(&b), Ordering::Less);
    assert_eq!(b.compare_words(&a), Ordering::Greater);
    assert_eq!(b.sis_hash(), 1);
    assert_eq!(a.sis_hash(), 2);
}

#[test]
fn var_set_edge_lengths() {
    let empty = VarSet::new(0);
    assert!(empty.is_empty_len());
    assert!(empty.is_full());
    assert_eq!(empty.bit_string(), "\n");
    let full = VarSet::new(32).complement();
    assert_eq!(full.words(), &[u32::MAX]);
    assert!(full.is_full());
    let cloned = full.clone();
    assert_eq!(cloned, full);
}
