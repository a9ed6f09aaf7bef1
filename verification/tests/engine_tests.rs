use displayutil::engine::{
    map_store_error, plan_restore, render_saved_message, render_summary, restore_report,
    select_operation, snapshot_arrangement, EngineError, Operation,
};
use displayutil::model::{Arrangement, DisplayLocation, LiveDisplay};
use displayutil::store::{load_arrangement, save_blob, StoreError};

fn arrangement(name: &str, positions: Vec<DisplayLocation>) -> Arrangement {
    Arrangement { name: name.to_string(), positions }
}

fn live(id: u32, x: i32, y: i32) -> LiveDisplay {
    LiveDisplay { id, x, y }
}

#[test]
fn example_scenario_one_moved_one_unchanged_one_unknown() {
    let stored = arrangement(
        "default",
        vec![DisplayLocation::new(1, -1714, -1440), DisplayLocation::new(2, 0, 0)],
    );
    let connected = vec![live(1, 0, 0), live(2, 0, 0), live(3, 500, 0)];
    let plan = plan_restore(&stored, &connected);
    assert_eq!(plan.moves, vec![DisplayLocation::new(1, -1714, -1440)]);
    assert_eq!(plan.unchanged, 1);
    assert_eq!(plan.unknown, 1);
    let report = restore_report(&plan, &vec![true]);
    assert_eq!(report.moved, 1);
    assert_eq!(report.failed, 0);
    assert_eq!(render_summary(&report), "1 moved, 1 unchanged, 1 unknown, 0 failed");
}

#[test]
fn unknown_live_display_is_never_moved() {
    let stored = arrangement("default", vec![DisplayLocation::new(1, 10, 10)]);
    let connected = vec![live(1, 0, 0), live(99, 0, 0)];
    let plan = plan_restore(&stored, &connected);
    assert!(plan.moves.iter().all(|m| m.id != 99));
    assert_eq!(plan.unknown, 1);
}

#[test]
fn disconnected_stored_display_is_silently_ignored() {
    let stored = arrangement(
        "default",
        vec![DisplayLocation::new(1, 10, 10), DisplayLocation::new(42, 5, 5)],
    );
    let connected = vec![live(1, 0, 0)];
    let plan = plan_restore(&stored, &connected);
    assert!(plan.moves.iter().all(|m| m.id != 42));
    assert_eq!(plan.moves.len(), 1);
    assert_eq!(plan.unknown, 0);
    assert_eq!(plan.unchanged, 0);
}

#[test]
fn restore_is_idempotent_after_successful_moves() {
    let stored = arrangement(
        "default",
        vec![DisplayLocation::new(1, -100, 20), DisplayLocation::new(2, 30, 40)],
    );
    let connected = vec![live(1, 0, 0), live(2, 30, 40), live(3, 7, 7)];
    let plan = plan_restore(&stored, &connected);
    assert_eq!(plan.moves.len(), 1);
    // the Display Service performs every planned move
    let mut after: Vec<LiveDisplay> = connected.clone();
    for m in &plan.moves {
        for d in after.iter_mut() {
            if d.id == m.id {
                d.x = m.x;
                d.y = m.y;
            }
        }
    }
    let second = plan_restore(&stored, &after);
    assert!(second.moves.is_empty());
    assert_eq!(second.unchanged, 2);
    assert_eq!(second.unknown, 1);
}

#[test]
fn failed_move_does_not_stop_the_other_display() {
    let stored = arrangement(
        "default",
        vec![DisplayLocation::new(1, 100, 0), DisplayLocation::new(2, 200, 0)],
    );
    let connected = vec![live(1, 0, 0), live(2, 0, 0)];
    let plan = plan_restore(&stored, &connected);
    // both moves are planned before anything is applied
    assert_eq!(
        plan.moves,
        vec![DisplayLocation::new(1, 100, 0), DisplayLocation::new(2, 200, 0)]
    );
    // display 1's move fails; display 2's was still attempted and succeeded
    let report = restore_report(&plan, &vec![false, true]);
    assert_eq!(report.moved, 1);
    assert_eq!(report.failed, 1);
    assert_eq!(render_summary(&report), "1 moved, 0 unchanged, 0 unknown, 1 failed");
}

#[test]
fn snapshot_sorts_by_identifier() {
    let connected = vec![live(30, 1, 2), live(10, -3, 4), live(20, 5, -6)];
    let a = snapshot_arrangement("default", &connected);
    assert_eq!(a.name, "default");
    assert_eq!(
        a.positions,
        vec![
            DisplayLocation::new(10, -3, 4),
            DisplayLocation::new(20, 5, -6),
            DisplayLocation::new(30, 1, 2),
        ]
    );
}

#[test]
fn save_then_restore_moves_nothing() {
    let connected = vec![live(2, 9, -9), live(1, 4, 4)];
    let a = snapshot_arrangement("default", &connected);
    let blob = save_blob(&a);
    let loaded = load_arrangement(Some(blob.as_str()), "default").expect("load must succeed");
    let plan = plan_restore(&loaded, &connected);
    assert!(plan.moves.is_empty());
    assert_eq!(plan.unchanged, 2);
    assert_eq!(plan.unknown, 0);
}

#[test]
fn select_operation_requires_exactly_one_choice() {
    assert_eq!(select_operation(true, false).unwrap(), Operation::Save);
    assert_eq!(select_operation(false, true).unwrap(), Operation::Restore);
    assert_eq!(select_operation(true, true).unwrap_err(), EngineError::InvalidInvocation);
    assert_eq!(select_operation(false, false).unwrap_err(), EngineError::InvalidInvocation);
}

#[test]
fn store_errors_map_to_engine_errors() {
    assert_eq!(map_store_error(StoreError::NotFound), EngineError::ConfigNotFound);
    assert_eq!(map_store_error(StoreError::NameMismatch), EngineError::ConfigNotFound);
    assert_eq!(map_store_error(StoreError::Corrupt), EngineError::ConfigCorrupt);
    assert_eq!(map_store_error(StoreError::WriteFailed), EngineError::PersistFailed);
}

#[test]
fn saved_message_names_the_path() {
    assert_eq!(
        render_saved_message("/home/someone/.displayutil"),
        "Configuration is saved to '/home/someone/.displayutil'"
    );
}

#[test]
fn summary_counts_large_numbers() {
    let stored = arrangement("default", vec![]);
    let connected: Vec<LiveDisplay> = (0..12u32).map(|i| live(i, 0, 0)).collect();
    let plan = plan_restore(&stored, &connected);
    assert_eq!(plan.unknown, 12);
    let report = restore_report(&plan, &Vec::new());
    assert_eq!(render_summary(&report), "0 moved, 0 unchanged, 12 unknown, 0 failed");
}
