use pallet_subspace::epoch::Pallet;
use pallet_subspace::fixed::ONE;

#[test]
fn block_at_registration_is_zero_without_key() {
    let r = Pallet::get_block_at_registration(3, &vec![Some(7), None, Some(9)]);
    assert_eq!(r, vec![7, 0, 9]);
}

#[test]
fn normalized_stake_of_uids() {
    let s = Pallet::get_normalized_stake(&vec![1000, 3000, 6000]);
    assert_eq!(s, vec![429496729, 1288490188, 2576980377]);
    assert_eq!(Pallet::get_normalized_stake(&vec![0, 0]), vec![0, 0]);
    assert_eq!(Pallet::get_normalized_stake(&vec![5]), vec![ONE]);
}

#[test]
fn weights_read_as_sparse_and_dense() {
    let stored = vec![(2, vec![(0, 65535), (1, 0)]), (0, vec![(2, 32768)])];
    assert_eq!(
        Pallet::get_weights_sparse(3, &stored),
        vec![vec![(2, 2147516416)], vec![], vec![(0, ONE), (1, 0)]]
    );
    assert_eq!(
        Pallet::get_weights(3, &stored),
        vec![vec![0, 0, 2147516416], vec![0, 0, 0], vec![ONE, 0, 0]]
    );
    assert_eq!(
        Pallet::get_bonds_sparse(3, &stored),
        Pallet::get_weights_sparse(3, &stored)
    );
    assert_eq!(Pallet::get_bonds(3, &stored), Pallet::get_weights(3, &stored));
}

#[test]
fn dense_read_keeps_last_entry() {
    let stored = vec![(0, vec![(1, 1), (1, 65535)])];
    assert_eq!(Pallet::get_weights(2, &stored), vec![vec![0, ONE], vec![0, 0]]);
}

#[test]
fn empty_rows_of_uids_beyond_the_network_are_read_as_nothing() {
    let stored = vec![(5, vec![]), (0, vec![(1, 65535)]), (70, vec![])];
    assert_eq!(
        Pallet::get_weights_sparse(2, &stored),
        vec![vec![(1, ONE)], vec![]]
    );
    assert_eq!(Pallet::get_weights(2, &stored), vec![vec![0, ONE], vec![0, 0]]);
    assert_eq!(
        Pallet::get_bonds_sparse(2, &stored),
        vec![vec![(1, ONE)], vec![]]
    );
    assert_eq!(Pallet::get_bonds(2, &stored), vec![vec![0, ONE], vec![0, 0]]);
}

#[test]
fn normalized_stake_sums_to_one_up_to_truncation() {
    let s = Pallet::get_normalized_stake(&vec![1000, 3000, 6000]);
    let total: i64 = s.iter().sum();
    assert!(total <= ONE && total >= ONE - 3);
}
