use bevy_rewind::confirmations::{confirmed_in, is_known_in};
use bevy_rewind::history::component::HistoryComponent;
use bevy_rewind::history::component_history::ComponentHistory;
use bevy_rewind::history::load::authority_at;
use bevy_rewind::TickData;

use bevy_replicon::client::confirm_history::ConfirmHistory;
use bevy_replicon::client::server_mutate_ticks::ServerMutateTicks;
use bevy_replicon::shared::replicon_tick::RepliconTick;

fn confirm(first: u32, confirmed: &[u32]) -> ConfirmHistory {
    let mut history = ConfirmHistory::new(RepliconTick::new(first));
    for &tick in confirmed {
        history.confirm(RepliconTick::new(tick));
    }
    history
}

fn global(confirmed: &[u32]) -> ServerMutateTicks {
    let mut ticks = ServerMutateTicks::default();
    for &tick in confirmed {
        ticks.confirm(RepliconTick::new(tick), 1);
    }
    ticks
}

#[test]
fn ticks_between_two_are_looked_at() {
    let history = confirm(100, &[104, 110]);
    for start in 95..115 {
        for end in start..115 {
            let expected = [100, 104, 110].iter().any(|t| (start..=end).contains(t));
            assert_eq!(expected, confirmed_in(&history, start, end), "{start} {end}");
        }
    }
}

#[test]
fn all_ticks_that_are_kept_are_looked_at() {
    let history = confirm(100, &[163]);
    assert!(confirmed_in(&history, 100, 163));
    assert!(confirmed_in(&history, 100, 162));
    assert!(confirmed_in(&history, 100, 200));
    assert!(!confirmed_in(&history, 101, 162));

    // Ticks that are not kept any more count as received.
    let history = confirm(164, &[]);
    assert!(confirmed_in(&history, 100, 163));
    assert!(!confirmed_in(&history, 101, 163));
    assert!(confirmed_in(&history, 101, 164));
}

#[test]
fn ticks_for_all_entities_count_too() {
    let history = confirm(100, &[]);
    let ticks = global(&[50, 60]);
    assert!(is_known_in(&history, &ticks, 60, 61));
    assert!(is_known_in(&history, &ticks, 45, 55));
    assert!(is_known_in(&history, &ticks, 99, 100));
    assert!(!is_known_in(&history, &ticks, 61, 70));
    assert!(!is_known_in(&history, &ServerMutateTicks::default(), 60, 61));
}

#[test]
fn authority_is_known_up_to_the_next_record() {
    let component = HistoryComponent::<fn(&u16, &u16) -> bool>::new::<u16>();
    let mut records = ComponentHistory::from_component(&component, 7);
    records.write(10, 1);
    records.write(14, 2);
    let none = ServerMutateTicks::default();

    // Nothing changed from 10 to 13, so a later confirmation tells of 10.
    assert_eq!(TickData::Value(&1), authority_at(&records, &confirm(13, &[]), &none, 10));
    assert_eq!(TickData::Value(&1), authority_at(&records, &confirm(11, &[]), &none, 11));
    assert_eq!(TickData::Missing, authority_at(&records, &confirm(14, &[]), &none, 10));
    assert_eq!(TickData::Missing, authority_at(&records, &confirm(9, &[]), &none, 10));
    assert_eq!(TickData::Value(&2), authority_at(&records, &confirm(20, &[]), &none, 14));
    assert_eq!(TickData::Value(&1), authority_at(&records, &confirm(0, &[]), &global(&[12]), 10));
}
