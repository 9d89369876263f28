use boostlss::cv::{bootstrap_weights, indicator, kfold_weights, mstop_grid, subsample_weights, tally};
use boostlss::engine::Mstop;
use rand::rngs::StdRng;
use rand::SeedableRng;

#[test]
fn test_kfold_weights() {
    let weights = kfold_weights(10, 2);
    assert_eq!(weights.len(), 2);
    assert_eq!(weights[0].iter().sum::<usize>(), 5);
    assert_eq!(weights[1].iter().sum::<usize>(), 5);
}

#[test]
fn test_make_grid() {
    // log-spaced candidates for three levels up to 10, rounded: 1, 3, 10.
    let grid = mstop_grid(2, 10, &vec![1, 3, 10]);
    assert_eq!(grid.len(), 9);
    assert!(matches!(&grid[0], Mstop::PerParam(v) if v == &vec![1, 1]));
}

#[test]
fn kfold_blocks_are_consecutive_and_larger_first() {
    let w = kfold_weights(7, 3);
    assert_eq!(w[0], vec![0, 0, 0, 1, 1, 1, 1]);
    assert_eq!(w[1], vec![1, 1, 1, 0, 0, 1, 1]);
    assert_eq!(w[2], vec![1, 1, 1, 1, 1, 0, 0]);
    // every observation is held out exactly once
    for j in 0..7 {
        assert_eq!(w.iter().filter(|f| f[j] == 0).count(), 1);
    }
}

#[test]
fn kfold_with_more_folds_than_observations() {
    let w = kfold_weights(2, 3);
    assert_eq!(w, vec![vec![0, 1], vec![1, 0], vec![1, 1]]);
}

#[test]
fn grid_enumerates_first_parameter_fastest() {
    let grid = mstop_grid(2, 10, &vec![1, 3, 10]);
    let configs: Vec<Vec<usize>> = grid
        .iter()
        .map(|m| match m {
            Mstop::PerParam(v) => v.clone(),
            Mstop::Scalar(_) => panic!("per-parameter expected"),
        })
        .collect();
    assert_eq!(configs[1], vec![3, 1]);
    assert_eq!(configs[2], vec![10, 1]);
    assert_eq!(configs[3], vec![1, 3]);
    assert_eq!(configs[8], vec![10, 10]);
}

#[test]
fn grid_clamps_and_drops_repeated_levels() {
    let grid = mstop_grid(1, 5, &vec![0, 1, 1, 4, 9, 12]);
    let levels: Vec<Vec<usize>> = grid
        .iter()
        .map(|m| match m {
            Mstop::PerParam(v) => v.clone(),
            Mstop::Scalar(_) => panic!("per-parameter expected"),
        })
        .collect();
    assert_eq!(levels, vec![vec![1], vec![4], vec![5]]);
}

#[test]
fn grid_is_empty_without_parameters_levels_or_iterations() {
    assert!(mstop_grid(0, 10, &vec![1, 2]).is_empty());
    assert!(mstop_grid(2, 0, &vec![1, 2]).is_empty());
    assert!(mstop_grid(2, 10, &vec![]).is_empty());
}

#[test]
fn bootstrap_weights_are_counts_summing_to_n() {
    let mut rng = StdRng::seed_from_u64(42);
    let w = bootstrap_weights(10, 3, &mut rng);
    assert_eq!(w.len(), 3);
    for v in &w {
        assert_eq!(v.len(), 10);
        assert_eq!(v.iter().sum::<usize>(), 10);
    }
    // a draw is not the identity weighting every time
    assert!(w.iter().any(|v| v.iter().any(|&c| c != 1)));
    assert!(bootstrap_weights(0, 2, &mut rng).iter().all(|v| v.is_empty()));
}

#[test]
fn subsample_weights_mark_exactly_amount_observations() {
    let mut rng = StdRng::seed_from_u64(7);
    let w = subsample_weights(10, 4, 6, &mut rng);
    assert_eq!(w.len(), 4);
    for v in &w {
        assert_eq!(v.len(), 10);
        assert!(v.iter().all(|&x| x <= 1));
        assert_eq!(v.iter().sum::<usize>(), 6);
    }
    let all = subsample_weights(5, 1, 5, &mut rng);
    assert_eq!(all[0], vec![1; 5]);
}

#[test]
fn tally_counts_each_observation() {
    assert_eq!(tally(4, &vec![1, 3, 1, 1, 0]), vec![1, 3, 0, 1]);
    assert_eq!(tally(3, &vec![]), vec![0, 0, 0]);
}

#[test]
fn indicator_marks_picked_observations() {
    assert_eq!(indicator(5, &vec![4, 0, 2]), vec![1, 0, 1, 0, 1]);
    assert_eq!(indicator(2, &vec![]), vec![0, 0]);
}

#[test]
fn grid_holds_every_assignment_of_levels() {
    let grid = mstop_grid(3, 50, &vec![1, 7, 50]);
    assert_eq!(grid.len(), 27);
    let configs: Vec<Vec<usize>> = grid
        .iter()
        .map(|m| match m {
            Mstop::PerParam(v) => v.clone(),
            Mstop::Scalar(_) => panic!("per-parameter expected"),
        })
        .collect();
    for a in [1, 7, 50] {
        for b in [1, 7, 50] {
            for c in [1, 7, 50] {
                assert_eq!(configs.iter().filter(|v| **v == vec![a, b, c]).count(), 1);
            }
        }
    }
}
