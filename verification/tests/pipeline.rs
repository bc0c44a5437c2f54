use plumo_epochs::builder::{
    collect_transitions, epoch_block_numbers, make_transition, order_transitions,
    select_participants, split_genesis, EpochBlock, EpochTransition,
};
use plumo_epochs::errors::PipelineError;

fn transition(index: u16, tag: u8) -> EpochTransition {
    EpochTransition {
        block: EpochBlock {
            index,
            maximum_non_signers: 33,
            new_public_keys: vec![vec![tag]],
        },
        aggregate_signature: vec![tag],
        bitmap: vec![false; 256],
    }
}

#[test]
fn block_numbers_count_and_spacing() {
    let nums = epoch_block_numbers(0, 100, 10);
    assert_eq!(nums.len(), 11); // (100 - 0) / 10 + 1
    assert_eq!(nums[0], 0);
    assert_eq!(nums[10], 100);
    for (i, n) in nums.iter().enumerate() {
        assert_eq!(*n, 10 * i as u64);
    }
}

#[test]
fn block_numbers_partial_last_step() {
    let nums = epoch_block_numbers(10, 47, 12);
    assert_eq!(nums, vec![10, 22, 34, 46]); // (47 - 10) / 12 + 1 = 4
}

#[test]
fn block_numbers_single_epoch() {
    assert_eq!(epoch_block_numbers(5, 5, 3), vec![5]);
}

#[test]
fn block_numbers_epoch_duration() {
    let nums = epoch_block_numbers(25 * 17280, 34 * 17280, 17280);
    assert_eq!(nums.len(), 10);
    for (i, n) in nums.iter().enumerate() {
        assert_eq!(*n, (25 + i as u64) * 17280);
    }
}

#[test]
fn make_transition_unpacks_bitmap() {
    let mut bitmap_bytes = vec![0u8; 32];
    bitmap_bytes[31] = 0x03;
    let t = make_transition(3, 33, vec![vec![1, 2], vec![3]], vec![9], &bitmap_bytes);
    assert_eq!(t.block.index, 3);
    assert_eq!(t.block.maximum_non_signers, 33);
    assert_eq!(t.block.new_public_keys, vec![vec![1, 2], vec![3]]);
    assert_eq!(t.aggregate_signature, vec![9]);
    assert_eq!(t.bitmap.len(), 256);
    assert!(t.bitmap[0]);
    assert!(t.bitmap[1]);
    assert!(!t.bitmap[2]);
}

#[test]
fn order_transitions_restores_step_order() {
    // completion order 2, 0, 1 must come out as 0, 1, 2
    let parts = vec![transition(2, 12), transition(0, 10), transition(1, 11)];
    let ordered = order_transitions(parts).unwrap();
    assert_eq!(ordered.len(), 3);
    for (k, t) in ordered.iter().enumerate() {
        assert_eq!(t.block.index as usize, k);
        assert_eq!(t.aggregate_signature, vec![10 + k as u8]);
    }
}

#[test]
fn order_transitions_rejects_duplicate_index() {
    let parts = vec![transition(0, 1), transition(0, 2)];
    assert!(matches!(
        order_transitions(parts),
        Err(PipelineError::MalformedRecord)
    ));
}

#[test]
fn order_transitions_rejects_out_of_range_index() {
    let parts = vec![transition(0, 1), transition(5, 2)];
    assert!(matches!(
        order_transitions(parts),
        Err(PipelineError::MalformedRecord)
    ));
}

#[test]
fn collect_keeps_order_of_successes() {
    let parts = vec![
        Ok(transition(0, 1)),
        Ok(transition(1, 2)),
        Ok(transition(2, 3)),
    ];
    let all = collect_transitions(parts).unwrap();
    assert_eq!(all.len(), 3);
    for (k, t) in all.iter().enumerate() {
        assert_eq!(t.aggregate_signature, vec![1 + k as u8]);
    }
}

#[test]
fn collect_short_circuits_to_first_error() {
    let parts = vec![
        Ok(transition(0, 1)),
        Err(PipelineError::FetchFailure),
        Err(PipelineError::VerificationFailure),
    ];
    assert!(matches!(
        collect_transitions(parts),
        Err(PipelineError::FetchFailure)
    ));
}

#[test]
fn select_participants_by_set_bits() {
    let keys = vec![vec![1u8], vec![2u8], vec![3u8]];
    let mut bits = vec![true, false, true];
    bits.extend(vec![false; 253]);
    let selected = select_participants(&keys, &bits);
    assert_eq!(selected, vec![vec![1u8], vec![3u8]]);
}

#[test]
fn select_participants_ignores_bits_beyond_key_count() {
    // positions beyond the active validator count are defined to be false
    let keys = vec![vec![1u8]];
    let bits = vec![false, true, true];
    let selected = select_participants(&keys, &bits);
    assert_eq!(selected, Vec::<Vec<u8>>::new());
}

#[test]
fn split_genesis_takes_first_block() {
    let parts = vec![transition(0, 1), transition(1, 2)];
    let (genesis, rest) = split_genesis(parts).unwrap();
    assert_eq!(genesis.index, 0);
    assert_eq!(genesis.new_public_keys, vec![vec![1u8]]);
    assert_eq!(rest.len(), 1);
    assert_eq!(rest[0].block.index, 1);
}

#[test]
fn split_genesis_of_empty_sequence() {
    assert!(split_genesis(Vec::new()).is_none());
}
