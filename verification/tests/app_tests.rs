use forest_fire::app::{App, CurrentScreen};
use forest_fire::tree::TreeState;
use rand::SeedableRng;
use rand::rngs::StdRng;

#[test]
fn new_session_shows_the_main_screen_over_an_empty_forest() {
    let app = App::new(60, 4, 5);
    assert!(matches!(app.current_screen, CurrentScreen::Main));
    assert_eq!(app.size, (4, 5));
    assert_eq!(app.percent, 60);
    assert_eq!(app.forest.data.len(), 20);
    for cell in app.forest.data.iter() {
        assert_eq!(*cell, TreeState::Empty);
    }
    assert_eq!(app.forest.burned, 0);
}

#[test]
fn session_runs_a_full_burn() {
    let mut rng = StdRng::seed_from_u64(12);
    let mut app = App::new(100, 3, 3);
    app.create_forest(&mut rng);
    assert_eq!(app.forest.count_alive(), 9);
    app.fire_random_tree(&mut rng).unwrap();
    assert_eq!(app.forest.burned, 1);
    let mut guard = 0;
    while !app.forest.trees_last_burned_positions.is_empty() {
        app.spread_fire();
        guard += 1;
        assert!(guard <= 10);
    }
    assert_eq!(app.forest.burned, 9);
    let rows = app.snapshot();
    assert_eq!(rows.len(), 3);
    for row in rows.iter() {
        assert_eq!(row.len(), 3);
        for tree in row.iter() {
            assert_eq!(tree.state, TreeState::Burned);
        }
    }
}

#[test]
fn snapshot_mirrors_the_grid_cells() {
    let mut app = App::new(0, 2, 2);
    app.forest.set(0, 1, TreeState::Alive);
    let rows = app.snapshot();
    assert_eq!(rows[0][0].state, TreeState::Empty);
    assert_eq!(rows[0][1].state, TreeState::Alive);
    assert_eq!(rows[1][0].state, TreeState::Empty);
    assert_eq!(rows[1][1].state, TreeState::Empty);
}

#[test]
fn spreading_at_a_fixpoint_changes_nothing() {
    let mut rng = StdRng::seed_from_u64(19);
    let mut app = App::new(70, 4, 4);
    app.create_forest(&mut rng);
    app.fire_random_tree(&mut rng).unwrap();
    while !app.forest.trees_last_burned_positions.is_empty() {
        app.spread_fire();
    }
    let cells_before: Vec<TreeState> = app.forest.data.clone();
    let burned_before = app.forest.burned;
    app.spread_fire();
    assert_eq!(app.forest.burned, burned_before);
    assert!(app.forest.trees_last_burned_positions.is_empty());
    for i in 0..cells_before.len() {
        assert_eq!(app.forest.data[i], cells_before[i]);
    }
}
