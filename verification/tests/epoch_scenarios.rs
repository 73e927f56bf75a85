use pallet_subspace::epoch::{EpochOutput, NetworkState, Pallet};

fn sample_state() -> NetworkState {
    NetworkState {
        n: 3,
        current_block: 100,
        activity_cutoff: 50,
        bonds_moving_average: 900_000,
        last_update: vec![90, 40, 95],
        registrations: vec![Some(10), Some(20), Some(92)],
        keys: vec![(0, 1000), (1, 3000), (2, 6000)],
        weights: vec![
            (0, vec![(1, 65535), (2, 65535)]),
            (1, vec![(0, 32768)]),
            (2, vec![(0, 16384), (1, 49151), (2, 100)]),
        ],
        bonds: vec![(0, vec![(1, 30000)]), (2, vec![(0, 65535)])],
    }
}

fn total(v: &[u64]) -> u64 {
    v.iter().sum()
}

#[test]
fn epoch_sparse_sample_network() {
    let out: EpochOutput = Pallet::epoch(&sample_state(), 1_000_000_000);
    assert_eq!(out.active, vec![true, false, true]);
    assert_eq!(out.emission, vec![467857306, 392855507, 139287185]);
    assert_eq!(out.ranks, vec![14043, 51491, 0]);
    assert_eq!(out.incentive, vec![14043, 51491, 0]);
    assert_eq!(out.dividends, vec![47278, 0, 18256]);
    assert_eq!(out.pruning_scores, vec![30661, 25745, 9128]);
    assert_eq!(
        out.bonds,
        vec![vec![(1, 60173)], vec![], vec![(0, 65535), (1, 5361)]]
    );
    assert_eq!(
        out.key_emission,
        vec![(0, 467857306), (1, 392855507), (2, 139287185)]
    );
}

#[test]
fn epoch_sparse_bonds_follow_moving_average() {
    // With a bonds moving average of one million, the new bonds are the
    // stored bonds that are not outdated, columns normalized.
    let mut state = sample_state();
    state.bonds_moving_average = 1_000_000;
    let out = Pallet::epoch(&state, 1_000_000_000);
    assert_eq!(out.bonds, vec![vec![(1, 65535)], vec![], vec![(0, 65535)]]);
    // With none, they are the bonds delta, columns normalized.
    state.bonds_moving_average = 0;
    let sparse = Pallet::epoch(&state, 1_000_000_000);
    let dense = Pallet::epoch_dense(&state, 1_000_000_000);
    assert_eq!(sparse.dividends, dense.dividends);
    assert_eq!(sparse.emission, dense.emission);
}

#[test]
fn epoch_dense_sample_network() {
    let out: EpochOutput = Pallet::epoch_dense(&sample_state(), 1_000_000_000);
    assert_eq!(out.active, vec![true, false, true]);
    assert_eq!(out.emission, vec![467857306, 392855507, 139287185]);
    assert_eq!(out.ranks, vec![14043, 51491, 0]);
    assert_eq!(out.incentive, vec![14043, 51491, 0]);
    assert_eq!(out.dividends, vec![47278, 0, 18256]);
    assert_eq!(out.pruning_scores, vec![30661, 25745, 9128]);
    assert_eq!(
        out.bonds,
        vec![
            vec![(0, 0), (1, 60173), (2, 0)],
            vec![(0, 0), (1, 0), (2, 0)],
            vec![(0, 65535), (1, 5361), (2, 0)],
        ]
    );
    assert_eq!(
        out.key_emission,
        vec![(0, 467857306), (1, 392855507), (2, 139287185)]
    );
}

#[test]
fn epoch_emission_never_exceeds_rao_emission() {
    for rao in [0u64, 1, 7, 1_000_000_000, u64::MAX] {
        let sparse = Pallet::epoch(&sample_state(), rao);
        assert!(sparse.emission.iter().map(|e| *e as u128).sum::<u128>() <= rao as u128);
        let dense = Pallet::epoch_dense(&sample_state(), rao);
        assert!(dense.emission.iter().map(|e| *e as u128).sum::<u128>() <= rao as u128);
    }
}

#[test]
fn epoch_without_weights_emits_by_active_stake() {
    let mut state = sample_state();
    state.weights = vec![];
    state.bonds = vec![];
    let out = Pallet::epoch(&state, 1_000_000_000);
    // Uid 1 is inactive: the emission follows the active stake 1000 : 6000.
    assert_eq!(out.emission, vec![142857142, 0, 857142857]);
    assert!(total(&out.emission) <= 1_000_000_000);
    assert_eq!(out.ranks, vec![0, 0, 0]);
    assert_eq!(out.dividends, vec![0, 0, 0]);
}

#[test]
fn epoch_with_everyone_inactive_emits_by_stake() {
    let mut state = sample_state();
    state.weights = vec![];
    state.bonds = vec![];
    state.current_block = 1000;
    let out = Pallet::epoch(&state, 1_000_000_000);
    assert_eq!(out.active, vec![false, false, false]);
    // Stake 1000 : 3000 : 6000.
    assert_eq!(out.emission, vec![99999999, 299999999, 599999999]);
}

#[test]
fn epoch_on_empty_network() {
    let state = NetworkState {
        n: 0,
        current_block: 5,
        activity_cutoff: 1,
        bonds_moving_average: 0,
        last_update: vec![],
        registrations: vec![],
        keys: vec![],
        weights: vec![],
        bonds: vec![],
    };
    let out = Pallet::epoch(&state, 1000);
    assert!(out.emission.is_empty());
    assert!(out.bonds.is_empty());
    assert!(out.key_emission.is_empty());
    let out = Pallet::epoch_dense(&state, 1000);
    assert!(out.emission.is_empty());
    assert!(out.bonds.is_empty());
}

#[test]
fn epoch_inactive_uid_gets_no_active_stake() {
    // Only uid 1 sets a weight, and it is inactive: without active stake
    // behind it, the weight earns nothing and the emission follows the
    // active stake.
    let mut state = sample_state();
    state.weights = vec![(1, vec![(0, 65535)])];
    state.bonds = vec![];
    let out = Pallet::epoch(&state, 1_000_000_000);
    assert_eq!(out.ranks, vec![0, 0, 0]);
    assert_eq!(out.emission[1], 0);
}

#[test]
fn epoch_self_weight_is_ignored() {
    let mut state = sample_state();
    state.weights = vec![(2, vec![(2, 65535)])];
    state.bonds = vec![];
    let out = Pallet::epoch(&state, 1_000_000_000);
    assert_eq!(out.ranks, vec![0, 0, 0]);
    let out = Pallet::epoch_dense(&state, 1_000_000_000);
    assert_eq!(out.ranks, vec![0, 0, 0]);
}

#[test]
fn epoch_outdated_weight_is_ignored() {
    // Uid 0 last set weights at block 90, before uid 2 registered at 92.
    let mut state = sample_state();
    state.weights = vec![(0, vec![(2, 65535)])];
    state.bonds = vec![];
    let out = Pallet::epoch(&state, 1_000_000_000);
    assert_eq!(out.ranks, vec![0, 0, 0]);
    let out = Pallet::epoch_dense(&state, 1_000_000_000);
    assert_eq!(out.ranks, vec![0, 0, 0]);
}

#[test]
fn new_bonds_columns_sum_to_at_most_one() {
    let out = Pallet::epoch(&sample_state(), 1);
    let mut col = [0u32; 3];
    for row in &out.bonds {
        for (j, v) in row {
            col[*j as usize] += *v as u32;
        }
    }
    assert!(col.iter().all(|c| *c <= 65535));
    let out = Pallet::epoch_dense(&sample_state(), 1);
    let mut col = [0u32; 3];
    for row in &out.bonds {
        for (j, v) in row {
            col[*j as usize] += *v as u32;
        }
    }
    assert!(col.iter().all(|c| *c <= 65535));
}

#[test]
fn sparse_and_dense_epochs_agree() {
    let mut states = vec![sample_state()];
    let mut other = sample_state();
    other.current_block = 95;
    other.bonds_moving_average = 250_000;
    other.weights = vec![
        (2, vec![(1, 40000), (0, 20000)]),
        (0, vec![(2, 1), (1, 7)]),
        (1, vec![(2, 65535), (0, 65535)]),
    ];
    other.bonds = vec![(1, vec![(0, 500), (2, 65535)]), (0, vec![(2, 12)])];
    states.push(other);
    for state in states {
        let sparse = Pallet::epoch(&state, 1_000_000_000);
        let dense = Pallet::epoch_dense(&state, 1_000_000_000);
        assert_eq!(sparse.active, dense.active);
        assert_eq!(sparse.ranks, dense.ranks);
        assert_eq!(sparse.incentive, dense.incentive);
        assert_eq!(sparse.dividends, dense.dividends);
        assert_eq!(sparse.pruning_scores, dense.pruning_scores);
        assert_eq!(sparse.emission, dense.emission);
        assert_eq!(sparse.key_emission, dense.key_emission);
        for (i, row) in sparse.bonds.iter().enumerate() {
            let dense_row = &dense.bonds[i];
            for (j, v) in row {
                assert_eq!(dense_row[*j as usize], (*j, *v));
            }
            for (j, v) in dense_row {
                if !row.iter().any(|(c, _)| c == j) {
                    assert_eq!(*v, 0);
                }
            }
        }
    }
}

#[test]
fn key_emission_never_exceeds_rao_emission() {
    for rao in [1u64, 999, 1_000_000_000, u64::MAX] {
        let out = Pallet::epoch(&sample_state(), rao);
        let total: u128 = out.key_emission.iter().map(|(_, e)| *e as u128).sum();
        assert!(total <= rao as u128);
    }
}

#[test]
fn empty_stored_rows_beyond_the_network_are_ignored() {
    let mut state = sample_state();
    state.weights.push((7, vec![]));
    state.bonds.push((9, vec![]));
    let with_empty = Pallet::epoch(&state, 1_000_000_000);
    let without = Pallet::epoch(&sample_state(), 1_000_000_000);
    assert_eq!(with_empty.emission, without.emission);
    assert_eq!(with_empty.bonds, without.bonds);
    let dense = Pallet::epoch_dense(&state, 1_000_000_000);
    assert_eq!(dense.emission, without.emission);
}

#[test]
fn set_aside_weights_change_nothing() {
    // Uid 1 is inactive, uid 2's weight on itself is a self-weight, and
    // uid 0 set weights (block 90) before uid 2 registered (block 92).
    let base = sample_state();
    let mut changed = sample_state();
    changed.weights = vec![
        (0, vec![(1, 65535), (2, 1)]),
        (1, vec![(2, 65535), (0, 3)]),
        (2, vec![(0, 16384), (1, 49151), (2, 65535)]),
    ];
    for dense in [false, true] {
        let run = |s: &NetworkState| {
            if dense {
                Pallet::epoch_dense(s, 1_000_000_000)
            } else {
                Pallet::epoch(s, 1_000_000_000)
            }
        };
        let a = run(&base);
        let b = run(&changed);
        assert_eq!(a.ranks, b.ranks);
        assert_eq!(a.dividends, b.dividends);
        assert_eq!(a.emission, b.emission);
        assert_eq!(a.pruning_scores, b.pruning_scores);
        assert_eq!(a.bonds, b.bonds);
    }
}

#[test]
fn bonds_moving_average_above_one_million() {
    // The new bonds then weigh -1 in the moving average, the stored bonds 2.
    let mut state = sample_state();
    state.bonds_moving_average = 2_000_000;
    let out = Pallet::epoch(&state, 1_000_000_000);
    assert_eq!(out.emission, vec![500000000, 392855507, 107144491]);
    assert_eq!(out.dividends, vec![51491, 0, 14043]);
    assert_eq!(out.bonds, vec![vec![(1, 65535)], vec![], vec![(0, 65535)]]);

    // Without stored bonds every column of the dense moving average is
    // nonpositive, and normalizing gives proportions again.
    state.bonds = vec![];
    let sparse = Pallet::epoch(&state, 1_000_000_000);
    assert_eq!(sparse.emission, vec![214288983, 785711015, 0]);
    assert_eq!(sparse.bonds, vec![vec![], vec![], vec![]]);
    let dense = Pallet::epoch_dense(&state, 1_000_000_000);
    assert_eq!(dense.emission, vec![178573063, 392855507, 428571428]);
    assert_eq!(dense.dividends, vec![9362, 0, 56172]);
    assert_eq!(
        dense.bonds,
        vec![
            vec![(0, 0), (1, 11915), (2, 0)],
            vec![(0, 0), (1, 0), (2, 0)],
            vec![(0, 65535), (1, 53619), (2, 0)],
        ]
    );

    // Without weights and bonds both epochs emit by active stake.
    state.weights = vec![];
    for out in [
        Pallet::epoch(&state, 1_000_000_000),
        Pallet::epoch_dense(&state, 1_000_000_000),
    ] {
        assert_eq!(out.emission, vec![142857142, 0, 857142857]);
    }
}

#[test]
fn scaling_every_stake_changes_nothing() {
    let mut scaled = sample_state();
    scaled.keys = vec![(0, 7000), (1, 21000), (2, 42000)];
    for dense in [false, true] {
        let run = |s: &NetworkState| {
            if dense {
                Pallet::epoch_dense(s, 1_000_000_000)
            } else {
                Pallet::epoch(s, 1_000_000_000)
            }
        };
        let a = run(&sample_state());
        let b = run(&scaled);
        assert_eq!(a.emission, b.emission);
        assert_eq!(a.ranks, b.ranks);
        assert_eq!(a.dividends, b.dividends);
        assert_eq!(a.bonds, b.bonds);
    }
}

#[test]
fn emission_grows_with_the_amount_and_is_nearly_all_handed_out() {
    let small = Pallet::epoch(&sample_state(), 1_000_000_000);
    let large = Pallet::epoch(&sample_state(), 2_000_000_000);
    for i in 0..3 {
        assert!(small.emission[i] <= large.emission[i]);
    }
    assert_eq!(small.pruning_scores, large.pruning_scores);
    // At most n * (1 + rao / 2^32) stays undistributed: here at most 3.
    let handed_out: u64 = small.emission.iter().sum();
    assert!(1_000_000_000 - handed_out <= 3);
}
