use forest_fire::forest::{Forest, IgniteError};
use forest_fire::tree::TreeState;
use rand::SeedableRng;
use rand::rngs::StdRng;

fn ceil_percent(percent: usize, total: usize) -> usize {
    (percent * total + 99) / 100
}

#[test]
fn new_grid_is_all_empty() {
    let f = Forest::new(3, 4);
    assert_eq!(f.size, (3, 4));
    assert_eq!(f.data.len(), 12);
    for cell in f.data.iter() {
        assert_eq!(*cell, TreeState::Empty);
    }
    assert_eq!(f.burned, 0);
    assert_eq!(f.alive, 0);
    assert!(f.trees_last_burned_positions.is_empty());
}

#[test]
fn get_and_set_use_row_major_order() {
    let mut f = Forest::new(2, 3);
    assert_eq!(f.get_index(1, 2), 5);
    f.set(1, 2, TreeState::Alive);
    assert_eq!(f.get(1, 2), TreeState::Alive);
    assert_eq!(f.data[5], TreeState::Alive);
    f.set(1, 2, TreeState::Burned);
    assert_eq!(f.burned, 1);
    f.set(1, 2, TreeState::Empty);
    assert_eq!(f.burned, 0);
}

#[test]
fn exact_count_seeding_hits_target_for_every_seed() {
    for seed in [0u64, 1, 7, 42, 1234] {
        for percent in [0usize, 1, 37, 50, 99, 100] {
            let mut rng = StdRng::seed_from_u64(seed);
            let mut f = Forest::new(7, 9);
            f.create_alive_trees(percent, &mut rng);
            let want = ceil_percent(percent, 63);
            assert_eq!(f.count_alive(), want);
            assert_eq!(f.alive, want);
            assert_eq!(f.burned, 0);
        }
    }
}

#[test]
fn sampled_seeding_hits_target_for_every_seed() {
    for seed in [0u64, 3, 99, 4096] {
        for percent in [0usize, 13, 50, 100] {
            let mut rng = StdRng::seed_from_u64(seed);
            let mut f = Forest::new(8, 5);
            f.create_alive_trees_sampled(percent, &mut rng);
            let want = ceil_percent(percent, 40);
            assert_eq!(f.count_alive(), want);
            assert_eq!(f.burned, 0);
        }
    }
}

#[test]
fn same_seed_reproduces_the_same_forest() {
    let mut rng1 = StdRng::seed_from_u64(11);
    let mut rng2 = StdRng::seed_from_u64(11);
    let mut f1 = Forest::new(5, 5);
    let mut f2 = Forest::new(5, 5);
    f1.create_alive_trees(40, &mut rng1);
    f2.create_alive_trees(40, &mut rng2);
    for i in 0..25 {
        assert_eq!(f1.data[i], f2.data[i]);
    }
}

#[test]
fn fire_on_empty_forest_reports_the_error() {
    let mut rng = StdRng::seed_from_u64(5);
    let mut f = Forest::new(4, 4);
    assert_eq!(f.fire_random_tree(&mut rng), Err(IgniteError::EmptyForest));
    assert_eq!(f.burned, 0);
    assert!(f.trees_last_burned_positions.is_empty());
}

#[test]
fn ignite_at_rejects_a_cell_with_no_living_tree() {
    let mut f = Forest::new(3, 3);
    assert_eq!(f.ignite_at(0, 0), Err(IgniteError::NotAlive));
    assert_eq!(f.burned, 0);
}

#[test]
fn fire_hits_the_only_living_tree() {
    let mut rng = StdRng::seed_from_u64(77);
    let mut f = Forest::new(3, 3);
    f.set(1, 1, TreeState::Alive);
    assert_eq!(f.fire_random_tree(&mut rng), Ok(()));
    assert_eq!(f.get(1, 1), TreeState::Burned);
    assert_eq!(f.burned, 1);
    assert_eq!(f.trees_last_burned_positions, vec![(1, 1)]);
}

#[test]
fn burned_count_never_decreases_across_steps() {
    let mut rng = StdRng::seed_from_u64(9);
    let mut f = Forest::new(6, 6);
    f.create_alive_trees(80, &mut rng);
    f.fire_random_tree(&mut rng).unwrap();
    let mut last = f.burned;
    while !f.trees_last_burned_positions.is_empty() {
        let before: Vec<TreeState> = f.data.clone();
        f.spread_fire();
        assert!(f.burned >= last);
        last = f.burned;
        for i in 0..before.len() {
            if before[i] == TreeState::Burned {
                assert_eq!(f.data[i], TreeState::Burned);
            }
            if before[i] == TreeState::Empty {
                assert_eq!(f.data[i], TreeState::Empty);
            }
        }
    }
}

#[test]
fn corner_fire_stays_inside_the_grid() {
    let mut f = Forest::new(3, 3);
    f.set(0, 0, TreeState::Alive);
    assert_eq!(f.ignite_at(0, 0), Ok(()));
    f.spread_fire();
    f.spread_fire();
    assert_eq!(f.burned, 1);
    for row in 0..3 {
        for col in 0..3 {
            if (row, col) == (0, 0) {
                assert_eq!(f.get(row, col), TreeState::Burned);
            } else {
                assert_eq!(f.get(row, col), TreeState::Empty);
            }
        }
    }
}

#[test]
fn full_grid_burns_down_from_the_center() {
    let mut rng = StdRng::seed_from_u64(2);
    let mut f = Forest::new(3, 3);
    f.create_alive_trees(100, &mut rng);
    assert_eq!(f.count_alive(), 9);
    assert_eq!(f.ignite_at(1, 1), Ok(()));
    let steps = f.propagate();
    assert!(f.trees_last_burned_positions.is_empty());
    assert_eq!(f.burned, 9);
    for row in 0..3 {
        for col in 0..3 {
            assert_eq!(f.get(row, col), TreeState::Burned);
        }
    }
    assert!(steps <= 10);
}

#[test]
fn disconnected_tree_survives_the_fire() {
    let mut f = Forest::new(3, 3);
    f.set(0, 0, TreeState::Alive);
    f.set(2, 2, TreeState::Alive);
    assert_eq!(f.ignite_at(0, 0), Ok(()));
    f.propagate();
    assert_eq!(f.get(0, 0), TreeState::Burned);
    assert_eq!(f.get(2, 2), TreeState::Alive);
    assert_eq!(f.burned, 1);
}

#[test]
fn propagation_terminates_within_the_tree_bound() {
    let mut rng = StdRng::seed_from_u64(31);
    let mut f = Forest::new(5, 5);
    f.create_alive_trees(100, &mut rng);
    f.fire_random_tree(&mut rng).unwrap();
    let alive_before = f.count_alive();
    let steps = f.propagate();
    assert!(f.trees_last_burned_positions.is_empty());
    assert!(steps <= alive_before + 1);
    assert_eq!(f.burned, 25);
}

#[test]
fn winding_corridor_needs_more_steps_than_rows_plus_cols() {
    let mut f = Forest::new(3, 3);
    for (row, col) in [(0, 0), (1, 0), (2, 0), (2, 1), (2, 2), (1, 2), (0, 2)] {
        f.set(row, col, TreeState::Alive);
    }
    assert_eq!(f.ignite_at(0, 0), Ok(()));
    let steps = f.propagate();
    assert_eq!(f.burned, 7);
    assert_eq!(steps, 7);
}
