use bevy_rewind::entity_management::outside_history_window;
use bevy_rewind::RepliconTick;

fn tick(v: u32) -> RepliconTick {
    RepliconTick::new(v)
}

#[test]
fn at_window_edge_is_still_inside() {
    assert!(
        !outside_history_window(tick(100), 10, tick(110)),
        "tick exactly at stamped + history is the last tick still inside the window"
    );
}

#[test]
fn one_past_window_edge_is_outside() {
    assert!(
        outside_history_window(tick(100), 10, tick(111)),
        "the first tick beyond stamped + history is outside the window"
    );
}

#[test]
fn before_window_edge_is_inside() {
    assert!(
        !outside_history_window(tick(100), 10, tick(109)),
        "a tick short of stamped + history is well inside the window"
    );
}

#[test]
fn far_past_window_edge_is_outside() {
    assert!(
        outside_history_window(tick(100), 10, tick(200)),
        "a tick far beyond stamped + history is outside the window"
    );
}

#[test]
fn matches_stamped_plus_history_strictly_less_than_tick() {
    let samples = [0, 1, 2, 9, 10, 11, 500, 4_999, 5_000, 9_999, 10_000];
    for stamped in samples {
        for history in samples {
            for current in (0..=30_000).step_by(7).chain([stamped + history, stamped + history + 1])
            {
                assert_eq!(
                    stamped + history < current,
                    outside_history_window(tick(stamped), history, tick(current)),
                    "stamped={stamped} history={history} tick={current}"
                );
            }
        }
    }
}

#[test]
fn windows_go_round() {
    assert!(!outside_history_window(tick(u32::MAX - 2), 5, tick(2)));
    assert!(outside_history_window(tick(u32::MAX - 2), 5, tick(3)));
}
