use vaporz::actions::{AppAction, AppMode};
use vaporz::artifacts::{removal_outcome, sort_rows, Artifacts, SortColumn};
use vaporz::counter::Counter;
use vaporz::dispatch::App;
use vaporz::errors::Error;
use vaporz::models::{FolderInfo, ProcessStatus};

fn row(id: u128, path: &str, size: Option<u64>, age: Option<u64>) -> FolderInfo {
    let mut f = FolderInfo::with_id(id, path.to_string());
    if let Some(s) = size {
        f.set_size(s);
    }
    if let Some(a) = age {
        f.set_last_modified(a);
    }
    f
}

fn table(rows: Vec<FolderInfo>) -> Artifacts {
    let mut t = Artifacts::new();
    for r in rows {
        assert_eq!(t.perform(AppAction::ArtifactsInsertRow(r)), Some(AppAction::Render));
    }
    t
}

fn ids(t: &Artifacts) -> Vec<u128> {
    t.rows.iter().map(|r| r.id).collect()
}

fn status_of(t: &Artifacts, id: u128) -> ProcessStatus {
    t.rows.iter().find(|r| r.id == id).unwrap().removal_status
}

#[test]
fn new_folder_is_pending_and_unmeasured() {
    let f = FolderInfo::new("/w/proj/target".to_string());
    assert_eq!(f.removal_status, ProcessStatus::Pending);
    assert_eq!(f.size(), None);
    assert_eq!(f.last_modified(), None);
    assert_eq!(f.path_string(), "/w/proj/target");
    let g = FolderInfo::new("/w/proj/target".to_string());
    assert_ne!(f.id, g.id);
    assert_eq!(ProcessStatus::default(), ProcessStatus::Pending);
}

#[test]
fn measurements_are_set_once() {
    let mut f = FolderInfo::with_id(7, "/x".to_string());
    assert_eq!(f.size(), None);
    assert_eq!(f.size(), None);
    assert!(f.set_size(10));
    assert!(!f.set_size(20));
    assert_eq!(f.size(), Some(10));
    assert!(f.set_last_modified(5));
    assert!(!f.set_last_modified(6));
    assert_eq!(f.last_modified(), Some(5));

    let mut t = table(vec![row(1, "/a", None, None), row(2, "/b", Some(3), None)]);
    t.perform(AppAction::ArtifactsSetSize { id: 1, bytes: 100 });
    t.perform(AppAction::ArtifactsSetSize { id: 1, bytes: 200 });
    t.perform(AppAction::ArtifactsSetSize { id: 2, bytes: 300 });
    t.perform(AppAction::ArtifactsSetLastModified { id: 2, secs: 9 });
    t.perform(AppAction::ArtifactsSetLastModified { id: 2, secs: 10 });
    assert_eq!(t.rows[0].size(), Some(100));
    assert_eq!(t.rows[1].size(), Some(3));
    assert_eq!(t.rows[0].last_modified(), None);
    assert_eq!(t.rows[1].last_modified(), Some(9));
}

#[test]
fn removal_success_lifecycle() {
    let mut t = table(vec![row(1, "/a/target", None, None)]);
    assert_eq!(status_of(&t, 1), ProcessStatus::Pending);
    t.perform(AppAction::ArtifactsSelectNextRow);
    assert_eq!(t.selected, Some(0));
    let next = t.perform(AppAction::ArtifactsRemoveRow);
    assert_eq!(
        next,
        Some(AppAction::ArtifactsDeletePath { id: 1, path: "/a/target".to_string() })
    );
    assert_eq!(status_of(&t, 1), ProcessStatus::InProgress);
    let outcome = removal_outcome(1, Ok(()));
    assert_eq!(
        outcome,
        vec![
            AppAction::ArtifactsUpdateStatus { id: 1, status: ProcessStatus::Completed },
            AppAction::Render
        ]
    );
    for a in outcome {
        t.perform(a);
    }
    assert_eq!(status_of(&t, 1), ProcessStatus::Completed);
}

#[test]
fn removal_failure_lifecycle() {
    let mut app = App::new();
    app.handle_action(AppAction::ArtifactsInsertRow(row(4, "/b/node_modules", None, None)));
    app.handle_action(AppAction::ArtifactsSelectPreviousRow);
    assert_eq!(status_of(&app.artifacts, 4), ProcessStatus::Pending);
    let next = app.handle_action(AppAction::ArtifactsRemoveRow);
    assert!(matches!(next, Some(AppAction::ArtifactsDeletePath { id: 4, .. })));
    assert_eq!(status_of(&app.artifacts, 4), ProcessStatus::InProgress);
    let outcome = removal_outcome(4, Err("permission denied".to_string()));
    assert_eq!(outcome.len(), 3);
    let errors: Vec<&AppAction> = outcome.iter().filter(|a| matches!(a, AppAction::Error(_))).collect();
    assert_eq!(
        errors,
        vec![&AppAction::Error("Failed to remove path: permission denied".to_string())]
    );
    for a in outcome {
        app.handle_action(a);
    }
    assert_eq!(status_of(&app.artifacts, 4), ProcessStatus::Failed);
    assert_eq!(
        app.last_error,
        Some("Failed to remove path: permission denied".to_string())
    );
}

#[test]
fn removal_of_non_pending_row_changes_nothing() {
    let mut t = table(vec![row(1, "/a", None, None), row(2, "/b", None, None)]);
    t.perform(AppAction::ArtifactsSelectNextRow);
    t.perform(AppAction::ArtifactsRemoveRow);
    assert_eq!(status_of(&t, 1), ProcessStatus::InProgress);
    // a second request on the same row
    assert_eq!(t.perform(AppAction::ArtifactsRemoveRow), Some(AppAction::Render));
    assert_eq!(status_of(&t, 1), ProcessStatus::InProgress);
    t.perform(AppAction::ArtifactsUpdateStatus { id: 1, status: ProcessStatus::Failed });
    assert_eq!(t.perform(AppAction::ArtifactsRemoveRow), Some(AppAction::Render));
    assert_eq!(status_of(&t, 1), ProcessStatus::Failed);
    // a finished row cannot be finished again
    t.perform(AppAction::ArtifactsUpdateStatus { id: 1, status: ProcessStatus::Completed });
    assert_eq!(status_of(&t, 1), ProcessStatus::Failed);
    // a pending row cannot jump to a terminal state
    t.perform(AppAction::ArtifactsUpdateStatus { id: 2, status: ProcessStatus::Completed });
    assert_eq!(status_of(&t, 2), ProcessStatus::Pending);
    // no selection: nothing happens
    let mut empty = Artifacts::new();
    assert_eq!(empty.perform(AppAction::ArtifactsRemoveRow), Some(AppAction::Render));
    assert!(empty.rows.is_empty());
}

#[test]
fn selection_moves_within_rows() {
    let mut t = table(vec![row(1, "/a", None, None), row(2, "/b", None, None)]);
    t.perform(AppAction::ArtifactsSelectPreviousRow);
    assert_eq!(t.selected, Some(1));
    t.perform(AppAction::ArtifactsSelectNextRow);
    assert_eq!(t.selected, Some(1));
    t.perform(AppAction::ArtifactsSelectPreviousRow);
    t.perform(AppAction::ArtifactsSelectPreviousRow);
    assert_eq!(t.selected, Some(0));
    let mut empty = Artifacts::new();
    empty.perform(AppAction::ArtifactsSelectNextRow);
    assert_eq!(empty.selected, None);
}

#[test]
fn sorting_toggles_direction() {
    let mut t = table(vec![
        row(1, "/b", Some(5), Some(30)),
        row(2, "/a", None, Some(10)),
        row(3, "/c", Some(1), None),
    ]);
    t.perform(AppAction::ArtifactsSortByPath);
    assert_eq!(ids(&t), vec![3, 1, 2]);
    t.perform(AppAction::ArtifactsSortByPath);
    assert_eq!(ids(&t), vec![2, 1, 3]);
    t.perform(AppAction::ArtifactsSortBySize);
    assert_eq!(ids(&t), vec![1, 3, 2]);
    t.perform(AppAction::ArtifactsSortBySize);
    assert_eq!(ids(&t), vec![2, 3, 1]);
    t.perform(AppAction::ArtifactsSortByLastMod);
    assert_eq!(ids(&t), vec![1, 2, 3]);
    t.perform(AppAction::ArtifactsSortByLastMod);
    assert_eq!(ids(&t), vec![3, 2, 1]);
}

#[test]
fn sorting_twice_restores_order() {
    let rows = vec![
        row(1, "/m", Some(2), None),
        row(2, "/a", Some(2), None),
        row(3, "/z", Some(9), None),
        row(4, "/k", None, None),
    ];
    let mut t = table(rows);
    t.perform(AppAction::ArtifactsSortBySize);
    let first = ids(&t);
    assert_eq!(first, vec![3, 1, 2, 4]);
    t.perform(AppAction::ArtifactsSortBySize);
    let second = ids(&t);
    assert_eq!(second, vec![4, 1, 2, 3]);
    t.perform(AppAction::ArtifactsSortBySize);
    assert_eq!(ids(&t), first);
    t.perform(AppAction::ArtifactsSortBySize);
    assert_eq!(ids(&t), second);
}

#[test]
fn sort_rows_keeps_equal_keys_in_order() {
    let rows = vec![row(1, "/x", Some(1), None), row(2, "/y", Some(1), None), row(3, "/z", Some(0), None)];
    let sorted = sort_rows(rows, SortColumn::Size, false);
    assert_eq!(sorted.iter().map(|r| r.id).collect::<Vec<_>>(), vec![3, 1, 2]);
    let empty = sort_rows(Vec::new(), SortColumn::Path, true);
    assert!(empty.is_empty());
}

#[test]
fn every_chain_ends_in_render() {
    let mut app = App::new();
    app.handle_action(AppAction::ArtifactsInsertRow(row(1, "/a", None, None)));
    let starts = vec![
        AppAction::Tick,
        AppAction::SwitchMode(AppMode::Counter),
        AppAction::CounterIncrement,
        AppAction::ArtifactsSortByPath,
        AppAction::ArtifactsSelectNextRow,
        AppAction::ArtifactsRemoveRow,
        AppAction::Error("boom".to_string()),
        AppAction::ArtifactsUpdateStatus { id: 1, status: ProcessStatus::Completed },
    ];
    for start in starts {
        let mut next = app.handle_action(start);
        let mut steps = 0;
        while let Some(a) = next.clone() {
            if a == AppAction::Render {
                break;
            }
            next = app.handle_action(a);
            steps += 1;
            assert!(steps < 3);
        }
        assert_eq!(next, Some(AppAction::Render));
    }
    assert_eq!(app.handle_action(AppAction::Render), None);
    assert_eq!(app.handle_action(AppAction::Quit), None);
    assert!(app.should_quit);
}

#[test]
fn app_routes_actions() {
    let mut app = App::new();
    assert_eq!(app.mode, AppMode::Artifacts);
    assert_eq!(AppMode::default(), AppMode::Artifacts);
    app.handle_action(AppAction::SwitchMode(AppMode::Counter));
    assert_eq!(app.mode, AppMode::Counter);
    app.handle_action(AppAction::CounterIncrement);
    app.handle_action(AppAction::CounterIncrement);
    app.handle_action(AppAction::CounterDecrement);
    assert_eq!(app.counter_1.count, 1);
    assert!(!app.should_quit);
}

#[test]
fn counter_stays_in_range() {
    let mut c = Counter { count: i32::MAX };
    assert_eq!(c.perform(AppAction::CounterIncrement), Some(AppAction::Render));
    assert_eq!(c.count, i32::MAX);
    let mut d = Counter { count: 0 };
    d.decrement();
    assert_eq!(d.count, -1);
    d.increment();
    d.increment();
    assert_eq!(d.count, 1);
    assert_eq!(d.perform(AppAction::Tick), None);
    let mut e = Counter { count: i32::MIN };
    e.perform(AppAction::CounterDecrement);
    assert_eq!(e.count, i32::MIN);
}

#[test]
fn error_messages() {
    assert_eq!(Error::Io("disk".to_string()).message(), "disk");
    assert_eq!(Error::LockError("poisoned".to_string()).message(), "poisoned");
    assert_eq!(Error::Errrr("other".to_string()).message(), "other");
}

#[test]
fn selection_past_the_end_is_harmless() {
    let mut t = table(vec![row(1, "/a", None, None)]);
    t.selected = Some(5);
    assert_eq!(t.perform(AppAction::ArtifactsRemoveRow), Some(AppAction::Render));
    assert_eq!(status_of(&t, 1), ProcessStatus::Pending);
    t.perform(AppAction::ArtifactsSelectNextRow);
    assert_eq!(t.selected, Some(0));
    t.selected = Some(7);
    t.perform(AppAction::ArtifactsSelectPreviousRow);
    assert_eq!(t.selected, Some(0));
}

#[test]
fn only_removal_requests_start_deletions() {
    let mut app = App::new();
    app.handle_action(AppAction::ArtifactsInsertRow(row(1, "/a", None, None)));
    app.handle_action(AppAction::ArtifactsSelectNextRow);
    for a in vec![
        AppAction::Tick,
        AppAction::SwitchMode(AppMode::Counter),
        AppAction::Error("x".to_string()),
        AppAction::CounterIncrement,
        AppAction::CounterDecrement,
        AppAction::ArtifactsDeletePath { id: 1, path: "/a".to_string() },
    ] {
        assert_eq!(app.handle_action(a), Some(AppAction::Render));
    }
    assert_eq!(status_of(&app.artifacts, 1), ProcessStatus::Pending);
}

#[test]
fn public_sorts_toggle_back() {
    let mut t = table(vec![row(1, "/b", Some(1), Some(3)), row(2, "/a", Some(2), Some(3))]);
    t.sort_by_path();
    let once = ids(&t);
    t.sort_by_path();
    t.sort_by_path();
    assert_eq!(ids(&t), once);
    t.sort_by_size();
    assert_eq!(ids(&t), vec![2, 1]);
    t.sort_by_last_modified();
    assert_eq!(ids(&t), vec![2, 1]);
    assert!(t.path_order_descending && t.size_order_descending && t.last_modified_order_descending);
}
