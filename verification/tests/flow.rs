use std::collections::HashMap;
use todoist_nvim::models::{BufferTask, SnapshotTask, SyncOp, SyncSummary, TaskMap};
use todoist_nvim::sync::{
    buffer_is_blank, compute_ops, compute_reorder, finish_sync, move_target, plan_sync, prepare_call,
    rebuild_snapshot, record_outcome, resolve_parent_id, ApiCall, MoveTarget, SyncPlan,
};

fn lines(s: &str) -> Vec<String> {
    s.lines().map(|l| l.to_string()).collect()
}

fn entry(id: &str, content: &str, project_id: &str, checked: bool, order: i64) -> (String, SnapshotTask) {
    (
        id.to_string(),
        SnapshotTask {
            id: id.to_string(),
            content: content.to_string(),
            project_id: project_id.to_string(),
            section_id: None,
            parent_id: None,
            checked,
            child_order: order,
            due: None,
        },
    )
}

fn buffer_task(id: Option<&str>, content: &str, indent: usize, parent: Option<&str>) -> BufferTask {
    BufferTask {
        id: id.map(|s| s.to_string()),
        content: content.to_string(),
        checked: false,
        indent_level: indent,
        project_id: Some("p1".to_string()),
        section_id: None,
        parent_id: parent.map(|s| s.to_string()),
        line_num: 1,
        due: None,
    }
}

#[test]
fn blank_buffer_is_an_error() {
    assert!(buffer_is_blank(&lines("   \n\n\t")));
    assert!(buffer_is_blank(&[]));
    assert!(!buffer_is_blank(&lines("\n x \n")));
    match plan_sync(&lines("  \n \n"), None) {
        Err(e) => assert_eq!(e, "Buffer is empty — nothing to sync"),
        Ok(_) => panic!("a blank buffer must not plan a sync"),
    }
}

#[test]
fn buffer_without_tasks_stops_with_a_warning() {
    match plan_sync(&lines("## Work <!-- project:p1 -->\n\nsome notes"), None) {
        Ok(SyncPlan::NoTasks { summary }) => {
            assert_eq!(
                summary.warnings,
                vec!["No task lines found. Run :TodoistOpen to refresh.".to_string()]
            );
            assert!(summary.errors.is_empty());
            assert_eq!(summary.report(), "Sync complete:\n  WARNING: No task lines found. Run :TodoistOpen to refresh.\n");
        }
        _ => panic!("expected NoTasks"),
    }
}

#[test]
fn unchanged_buffer_plans_nothing() {
    let snap = TaskMap::from_entries(vec![entry("t1", "Task", "p1", false, 0)]);
    match plan_sync(&lines("## Work <!-- project:p1 -->\n- [ ] Task <!-- id:t1 -->"), Some(snap)) {
        Ok(SyncPlan::NoChanges) => {}
        _ => panic!("expected NoChanges"),
    }
}

#[test]
fn missing_snapshot_is_warned_about() {
    match plan_sync(&lines("## Work <!-- project:p1 -->\n- [ ] Task <!-- id:t1 -->"), None) {
        Ok(SyncPlan::Execute { buffer_tasks, snapshot, ops, summary }) => {
            assert_eq!(buffer_tasks.len(), 1);
            assert_eq!(snapshot.len(), 0);
            assert!(ops.is_empty());
            assert_eq!(
                summary.warnings,
                vec![
                    "No snapshot found — run :TodoistOpen first to establish a baseline.".to_string(),
                    "Line 2: 'Task' (id:t1) not in snapshot — skipped".to_string(),
                ]
            );
            assert_eq!(summary.skipped, 1);
        }
        _ => panic!("expected Execute"),
    }
}

#[test]
fn plan_lists_operations_then_the_reorder() {
    let snap = TaskMap::from_entries(vec![
        entry("t1", "One", "p1", false, 1),
        entry("t2", "Two", "p1", false, 2),
        entry("t3", "Gone", "p1", false, 3),
    ]);
    let buf = lines(
        "## Work <!-- project:p1 -->\n\
         - [ ] Two changed <!-- id:t2 -->\n\
         - [ ] One <!-- id:t1 -->\n\
         - [ ] Brand new",
    );
    match plan_sync(&buf, Some(snap)) {
        Ok(SyncPlan::Execute { ops, summary, .. }) => {
            assert!(summary.warnings.is_empty());
            assert_eq!(ops.len(), 4);
            match &ops[0] {
                (0, SyncOp::Update { id, old_content, new_content, .. }) => {
                    assert_eq!(id, "t2");
                    assert_eq!(old_content, "Two");
                    assert_eq!(new_content, "Two changed");
                }
                _ => panic!("expected the update first"),
            }
            assert!(matches!(&ops[1], (2, SyncOp::Create { content, .. }) if content == "Brand new"));
            assert!(matches!(&ops[2], (usize::MAX, SyncOp::Delete { id, .. }) if id == "t3"));
            match &ops[3] {
                (usize::MAX, SyncOp::Reorder { items }) => {
                    assert_eq!(items, &vec![("t2".to_string(), 1), ("t1".to_string(), 2)]);
                }
                _ => panic!("expected the reorder last"),
            }
        }
        _ => panic!("expected Execute"),
    }
}

#[test]
fn calls_for_each_operation() {
    let tasks = vec![buffer_task(Some("t1"), "A", 0, None)];
    let ids: HashMap<usize, String> = HashMap::new();
    let mut s = SyncSummary::default();

    let up = SyncOp::Update {
        id: "t1".to_string(),
        old_content: "old".to_string(),
        new_content: "new".to_string(),
        old_due: None,
        new_due: Some("2026-01-02".to_string()),
    };
    match prepare_call(&up, 0, &tasks, &ids, &mut s) {
        ApiCall::Update { id, content, due } => {
            assert_eq!(id, "t1");
            assert_eq!(content, "new");
            assert_eq!(due.as_deref(), Some("2026-01-02"));
        }
        _ => panic!("expected Update"),
    }
    let done = SyncOp::Complete { id: "t1".to_string(), content: "A".to_string() };
    assert!(matches!(prepare_call(&done, 0, &tasks, &ids, &mut s), ApiCall::Close { id } if id == "t1"));
    let back = SyncOp::Reopen { id: "t1".to_string(), content: "A".to_string() };
    assert!(matches!(prepare_call(&back, 0, &tasks, &ids, &mut s), ApiCall::Reopen { id } if id == "t1"));
    let del = SyncOp::Delete { id: "t9".to_string(), content: "Z".to_string() };
    assert!(matches!(prepare_call(&del, usize::MAX, &tasks, &ids, &mut s), ApiCall::Delete { id } if id == "t9"));
    let re = SyncOp::Reorder { items: vec![("t1".to_string(), 1)] };
    match prepare_call(&re, usize::MAX, &tasks, &ids, &mut s) {
        ApiCall::Reorder { items } => assert_eq!(items, vec![("t1".to_string(), 1)]),
        _ => panic!("expected Reorder"),
    }
    assert!(s.warnings.is_empty());
}

#[test]
fn create_call_takes_the_new_parent_id() {
    let tasks = vec![
        buffer_task(None, "New parent", 0, None),
        buffer_task(None, "New child", 1, None),
    ];
    let mut ids: HashMap<usize, String> = HashMap::new();
    ids.insert(0, "srv1".to_string());
    let mut s = SyncSummary::default();
    let op = SyncOp::Create {
        content: "New child".to_string(),
        project_id: "p1".to_string(),
        section_id: None,
        parent_id: Some("whatever".to_string()),
        due: None,
    };
    match prepare_call(&op, 1, &tasks, &ids, &mut s) {
        ApiCall::Create { content, project_id, parent_id, .. } => {
            assert_eq!(content, "New child");
            assert_eq!(project_id, "p1");
            assert_eq!(parent_id.as_deref(), Some("srv1"));
        }
        _ => panic!("expected Create"),
    }
    assert!(s.warnings.is_empty());
}

#[test]
fn move_call_without_a_parent_warns() {
    let tasks = vec![buffer_task(Some("t1"), "A", 1, Some("ghost"))];
    let ids: HashMap<usize, String> = HashMap::new();
    let mut s = SyncSummary::default();
    let op = SyncOp::Move {
        id: "t1".to_string(),
        content: "A".to_string(),
        project_id: "p2".to_string(),
        section_id: Some("s2".to_string()),
        parent_id: Some("ghost".to_string()),
    };
    match prepare_call(&op, 0, &tasks, &ids, &mut s) {
        ApiCall::Move { id, project_id, section_id, parent_id } => {
            assert_eq!(id, "t1");
            assert_eq!(project_id, "p2");
            assert_eq!(section_id.as_deref(), Some("s2"));
            assert_eq!(parent_id, None);
        }
        _ => panic!("expected Move"),
    }
    assert_eq!(
        s.warnings,
        vec!["Parent task ghost not found — child will be placed at root.".to_string()]
    );
}

#[test]
fn resolve_finds_an_existing_parent() {
    let tasks = vec![
        buffer_task(Some("t1"), "Parent", 0, None),
        buffer_task(None, "Child", 1, Some("t1")),
    ];
    let mut s = SyncSummary::default();
    let r = resolve_parent_id(&Some("t1".to_string()), 1, &tasks, &HashMap::new(), &mut s);
    assert_eq!(r.as_deref(), Some("t1"));
    assert!(s.warnings.is_empty());
    let none = resolve_parent_id(&None, 1, &tasks, &HashMap::new(), &mut s);
    assert_eq!(none, None);
    assert!(s.warnings.is_empty());
}

#[test]
fn outcomes_are_counted() {
    let mut ids: HashMap<usize, String> = HashMap::new();
    let mut s = SyncSummary::default();
    let create = SyncOp::Create {
        content: "New".to_string(),
        project_id: "p1".to_string(),
        section_id: None,
        parent_id: None,
        due: None,
    };
    record_outcome(&create, 3, Ok(Some("n1".to_string())), &mut ids, &mut s);
    assert_eq!(ids.get(&3).map(|s| s.as_str()), Some("n1"));
    assert_eq!(s.created, 1);
    let re = SyncOp::Reorder { items: vec![("a".to_string(), 1), ("b".to_string(), 2)] };
    record_outcome(&re, usize::MAX, Ok(None), &mut ids, &mut s);
    assert_eq!(s.reordered, 2);
    let mv = SyncOp::Move {
        id: "t1".to_string(),
        content: "A".to_string(),
        project_id: "p1".to_string(),
        section_id: None,
        parent_id: None,
    };
    record_outcome(&mv, 0, Ok(None), &mut ids, &mut s);
    assert_eq!(s.moved, 1);
    assert!(s.has_changes());
    assert_eq!(ids.len(), 1);
    assert!(s.errors.is_empty());
}

#[test]
fn failures_are_reported_by_operation() {
    let mut ids: HashMap<usize, String> = HashMap::new();
    let mut s = SyncSummary::default();
    let done = SyncOp::Complete { id: "t1".to_string(), content: "A".to_string() };
    record_outcome(&done, 0, Err("boom".to_string()), &mut ids, &mut s);
    let up = SyncOp::Update {
        id: "t1".to_string(),
        old_content: "old".to_string(),
        new_content: "new".to_string(),
        old_due: None,
        new_due: None,
    };
    record_outcome(&up, 0, Err("e2".to_string()), &mut ids, &mut s);
    let re = SyncOp::Reorder { items: vec![] };
    record_outcome(&re, usize::MAX, Err("e3".to_string()), &mut ids, &mut s);
    assert_eq!(
        s.errors,
        vec![
            "Complete 'A': boom".to_string(),
            "Update 'old' → 'new': e2".to_string(),
            "Reorder: e3".to_string(),
        ]
    );
    assert_eq!(s.completed, 0);
    assert!(!s.has_changes());
    assert_eq!(
        s.report(),
        "Sync complete:\n  ERROR: Complete 'A': boom\n  ERROR: Update 'old' → 'new': e2\n  ERROR: Reorder: e3\n"
    );
}

#[test]
fn finish_saves_only_without_errors() {
    let original = TaskMap::from_entries(vec![entry("t1", "Old", "p1", false, 0)]);
    let tasks = vec![buffer_task(Some("t1"), "New", 0, None)];
    let ids: HashMap<usize, String> = HashMap::new();

    let mut ok = SyncSummary::default();
    let saved = finish_sync(&original, &tasks, &ids, &mut ok).unwrap();
    assert_eq!(saved.get("t1").unwrap().content, "New");
    assert!(ok.warnings.is_empty());

    let mut bad = SyncSummary::default();
    bad.errors.push("x".to_string());
    assert!(finish_sync(&original, &tasks, &ids, &mut bad).is_none());
    assert_eq!(
        bad.warnings,
        vec!["Snapshot not updated due to sync errors; next sync may show phantom changes.".to_string()]
    );
}

#[test]
fn report_lists_counts_in_order() {
    let mut s = SyncSummary::default();
    assert_eq!(s.report(), "No changes detected.\n");
    assert!(!s.has_changes());
    s.created = 2;
    s.deleted = 1;
    s.skipped = 3;
    s.warnings.push("w".to_string());
    assert_eq!(
        s.report(),
        "Sync complete:\n  Created:   2\n  Deleted:   1\n  Skipped:   3\n  WARNING: w\n"
    );
    let mut only_moved = SyncSummary::default();
    only_moved.moved = 1;
    only_moved.reordered = 2;
    assert!(!only_moved.has_changes());
    assert_eq!(only_moved.report(), "No changes detected.\n");
}

#[test]
fn resync_after_a_successful_sync_needs_nothing() {
    let original = TaskMap::from_entries(vec![
        entry("t1", "Keep", "p1", false, 1),
        entry("t2", "Edit me", "p1", false, 2),
        entry("t3", "Drop me", "p1", false, 3),
    ]);
    let mut edited = buffer_task(Some("t2"), "Edited", 0, None);
    edited.due = Some("2026-05-01".to_string());
    let tasks = vec![
        buffer_task(Some("t1"), "Keep", 0, None),
        edited,
        buffer_task(None, "Fresh", 0, None),
    ];
    let mut ids: HashMap<usize, String> = HashMap::new();
    ids.insert(2, "n9".to_string());
    let rebuilt = rebuild_snapshot(&original, &tasks, &ids);
    assert_eq!(rebuilt.len(), 3);
    assert!(rebuilt.get("t3").is_none());
    assert_eq!(rebuilt.get("n9").unwrap().content, "Fresh");

    // The buffer as the next fetch shows it: the created task now carries its id.
    let mut edited_again = buffer_task(Some("t2"), "Edited", 0, None);
    edited_again.due = Some("2026-05-01".to_string());
    let settled = vec![
        buffer_task(Some("t1"), "Keep", 0, None),
        edited_again,
        buffer_task(Some("n9"), "Fresh", 0, None),
    ];
    let mut s = SyncSummary::default();
    let ops = compute_ops(&settled, &rebuilt, &mut s);
    assert!(ops.is_empty());
    assert!(s.warnings.is_empty());
}

#[test]
fn reorder_uses_positions_in_the_buffer() {
    let snap = TaskMap::from_entries(vec![
        entry("a", "A", "p1", false, 1),
        entry("b", "B", "p1", false, 2),
        entry("c", "C", "p1", false, 3),
    ]);
    let tasks = vec![
        buffer_task(Some("c"), "C", 0, None),
        buffer_task(Some("a"), "A", 0, None),
        buffer_task(Some("b"), "B", 0, None),
    ];
    match compute_reorder(&tasks, &snap) {
        Some(SyncOp::Reorder { items }) => assert_eq!(
            items,
            vec![("c".to_string(), 1), ("a".to_string(), 2), ("b".to_string(), 3)]
        ),
        _ => panic!("expected a reorder"),
    }
    // A single task in its group is never reordered.
    let one = vec![buffer_task(Some("b"), "B", 0, None)];
    assert!(compute_reorder(&one, &snap).is_none());
}

#[test]
fn task_map_basics() {
    let mut m = TaskMap::new();
    assert_eq!(m.len(), 0);
    let (k, v) = entry("t1", "One", "p1", false, 0);
    m.insert(k, v);
    let (k2, v2) = entry("t1", "One again", "p1", true, 0);
    m.insert(k2, v2);
    assert_eq!(m.len(), 1);
    assert!(m.contains_key("t1"));
    assert_eq!(m.get("t1").unwrap().content, "One again");
    assert!(m.get("t1").unwrap().checked);
    let (k3, v3) = entry("t2", "Two", "p1", false, 0);
    m.insert(k3, v3);
    assert_eq!(m.position("t2"), Some(1));
    m.remove("t1");
    assert_eq!(m.len(), 1);
    assert!(!m.contains_key("t1"));
    assert_eq!(m.entry(0).0, "t2");
    m.remove("absent");
    assert_eq!(m.len(), 1);
}

#[test]
fn move_goes_to_the_parent_then_section_then_project() {
    let p = "p1".to_string();
    let s = Some("s1".to_string());
    let par = Some("t9".to_string());
    assert!(matches!(move_target(&p, &s, &par), MoveTarget::Parent(x) if x == "t9"));
    assert!(matches!(move_target(&p, &s, &None), MoveTarget::Section(x) if x == "s1"));
    assert!(matches!(move_target(&p, &None, &None), MoveTarget::Project(x) if x == "p1"));
}
