use std::collections::HashMap;
use todoist_nvim::models::{BufferTask, SnapshotTask, SyncOp, SyncSummary, TaskMap};
use todoist_nvim::sync::{compute_ops, compute_reorder, rebuild_snapshot, resolve_parent_id};

fn bt(id: Option<&str>, content: &str, checked: bool) -> BufferTask {
    BufferTask {
        id: id.map(|s| s.to_string()),
        content: content.to_string(),
        checked,
        indent_level: 0,
        project_id: Some("p1".to_string()),
        section_id: None,
        parent_id: None,
        line_num: 1,
        due: None,
    }
}

fn snap(id: &str, content: &str, checked: bool) -> (String, SnapshotTask) {
    (
        id.to_string(),
        SnapshotTask {
            id: id.to_string(),
            content: content.to_string(),
            project_id: "p1".to_string(),
            section_id: None,
            parent_id: None,
            checked,
            child_order: 0,
            due: None,
        },
    )
}

fn snap_map(v: Vec<(&str, &str, bool)>) -> TaskMap {
    TaskMap::from_entries(v.into_iter().map(|(id, c, ch)| snap(id, c, ch)).collect())
}

#[test]
fn detects_complete() {
    let ops = compute_ops(
        &[bt(Some("t1"), "Task", true)],
        &snap_map(vec![("t1", "Task", false)]),
        &mut SyncSummary::default(),
    );
    assert!(matches!(ops[0].1, SyncOp::Complete { .. }));
}

#[test]
fn detects_reopen() {
    let ops = compute_ops(
        &[bt(Some("t1"), "Task", false)],
        &snap_map(vec![("t1", "Task", true)]),
        &mut SyncSummary::default(),
    );
    assert!(matches!(ops[0].1, SyncOp::Reopen { .. }));
}

#[test]
fn detects_create() {
    let ops = compute_ops(
        &[bt(None, "New", false)],
        &snap_map(vec![]),
        &mut SyncSummary::default(),
    );
    assert!(matches!(ops[0].1, SyncOp::Create { .. }));
}

#[test]
fn detects_delete() {
    let ops = compute_ops(
        &[],
        &snap_map(vec![("t1", "Old", false)]),
        &mut SyncSummary::default(),
    );
    assert!(matches!(ops[0].1, SyncOp::Delete { .. }));
}

#[test]
fn detects_update() {
    let ops = compute_ops(
        &[bt(Some("t1"), "New content", false)],
        &snap_map(vec![("t1", "Old content", false)]),
        &mut SyncSummary::default(),
    );
    assert!(matches!(ops[0].1, SyncOp::Update { .. }));
}

#[test]
fn no_op_when_unchanged() {
    let ops = compute_ops(
        &[bt(Some("t1"), "Same", false)],
        &snap_map(vec![("t1", "Same", false)]),
        &mut SyncSummary::default(),
    );
    assert!(ops.is_empty());
}

fn snap_ordered(id: &str, content: &str, child_order: i64) -> (String, SnapshotTask) {
    (
        id.to_string(),
        SnapshotTask {
            id: id.to_string(),
            content: content.to_string(),
            project_id: "p1".to_string(),
            section_id: None,
            parent_id: None,
            checked: false,
            child_order,
            due: None,
        },
    )
}

#[test]
fn detects_reorder() {
    let snap = TaskMap::from_entries(vec![snap_ordered("t1", "Task 1", 1), snap_ordered("t2", "Task 2", 2)]);

    let buf = vec![bt(Some("t2"), "Task 2", false), bt(Some("t1"), "Task 1", false)];

    let result = compute_reorder(&buf, &snap);
    assert!(result.is_some());
    if let Some(SyncOp::Reorder { items }) = result {
        assert_eq!(items.len(), 2);
    }
}

fn bt_with_due(id: Option<&str>, content: &str, due: Option<&str>) -> BufferTask {
    BufferTask {
        id: id.map(|s| s.to_string()),
        content: content.to_string(),
        checked: false,
        indent_level: 0,
        project_id: Some("p1".to_string()),
        section_id: None,
        parent_id: None,
        line_num: 1,
        due: due.map(|s| s.to_string()),
    }
}

fn snap_with_due(id: &str, content: &str, due: Option<&str>) -> (String, SnapshotTask) {
    (
        id.to_string(),
        SnapshotTask {
            id: id.to_string(),
            content: content.to_string(),
            project_id: "p1".to_string(),
            section_id: None,
            parent_id: None,
            checked: false,
            child_order: 0,
            due: due.map(|s| s.to_string()),
        },
    )
}

#[test]
fn detects_date_added() {
    let snap = TaskMap::from_entries(vec![snap_with_due("t1", "Task", None)]);
    let buf = vec![bt_with_due(Some("t1"), "Task", Some("2026-04-20"))];
    let ops = compute_ops(&buf, &snap, &mut SyncSummary::default());
    assert_eq!(ops.len(), 1);
    assert!(matches!(&ops[0].1, SyncOp::Update { new_due, .. } if new_due.as_deref() == Some("2026-04-20")));
}

#[test]
fn detects_date_changed() {
    let snap = TaskMap::from_entries(vec![snap_with_due("t1", "Task", Some("2026-04-20"))]);
    let buf = vec![bt_with_due(Some("t1"), "Task", Some("2026-05-01"))];
    let ops = compute_ops(&buf, &snap, &mut SyncSummary::default());
    assert_eq!(ops.len(), 1);
    assert!(matches!(&ops[0].1, SyncOp::Update { new_due, old_due, .. }
        if new_due.as_deref() == Some("2026-05-01") && old_due.as_deref() == Some("2026-04-20")));
}

#[test]
fn detects_date_removed() {
    let snap = TaskMap::from_entries(vec![snap_with_due("t1", "Task", Some("2026-04-20"))]);
    let buf = vec![bt_with_due(Some("t1"), "Task", None)];
    let ops = compute_ops(&buf, &snap, &mut SyncSummary::default());
    assert_eq!(ops.len(), 1);
    assert!(matches!(&ops[0].1, SyncOp::Update { new_due, .. } if new_due.is_none()));
}

#[test]
fn no_op_when_date_unchanged() {
    let snap = TaskMap::from_entries(vec![snap_with_due("t1", "Task", Some("2026-04-20"))]);
    let buf = vec![bt_with_due(Some("t1"), "Task", Some("2026-04-20"))];
    let ops = compute_ops(&buf, &snap, &mut SyncSummary::default());
    assert!(ops.is_empty());
}

#[test]
fn no_reorder_when_same_order() {
    let snap = TaskMap::from_entries(vec![snap_ordered("t1", "Task 1", 1), snap_ordered("t2", "Task 2", 2)]);

    let buf = vec![bt(Some("t1"), "Task 1", false), bt(Some("t2"), "Task 2", false)];

    let result = compute_reorder(&buf, &snap);
    assert!(result.is_none());
}

#[test]
fn rebuild_snapshot_applies_create() {
    let original = snap_map(vec![]);
    let buf = vec![bt(None, "Brand new", false)];
    let mut id_map = HashMap::new();
    id_map.insert(0usize, "server-99".to_string());
    let result = rebuild_snapshot(&original, &buf, &id_map);
    assert!(result.contains_key("server-99"));
    assert_eq!(result.get("server-99").unwrap().content, "Brand new");
}

#[test]
fn rebuild_snapshot_applies_update() {
    let original = snap_map(vec![("t1", "Old content", false)]);
    let buf = vec![bt(Some("t1"), "New content", false)];
    let result = rebuild_snapshot(&original, &buf, &HashMap::new());
    assert_eq!(result.get("t1").unwrap().content, "New content");
}

#[test]
fn rebuild_snapshot_removes_completed() {
    let original = snap_map(vec![("t1", "Task", false)]);
    let buf = vec![bt(Some("t1"), "Task", true)];
    let result = rebuild_snapshot(&original, &buf, &HashMap::new());
    assert!(!result.contains_key("t1"));
}

#[test]
fn rebuild_snapshot_removes_deleted() {
    let original = snap_map(vec![("t1", "Task A", false), ("t2", "Task B", false)]);
    let buf = vec![bt(Some("t1"), "Task A", false)];
    let result = rebuild_snapshot(&original, &buf, &HashMap::new());
    assert!(result.contains_key("t1"));
    assert!(!result.contains_key("t2"));
}

#[test]
fn rebuild_snapshot_preserves_unchanged() {
    let original = snap_map(vec![("t1", "Same", false)]);
    let buf = vec![bt(Some("t1"), "Same", false)];
    let result = rebuild_snapshot(&original, &buf, &HashMap::new());
    assert_eq!(result.get("t1").unwrap().content, original.get("t1").unwrap().content);
    assert_eq!(result.get("t1").unwrap().checked, original.get("t1").unwrap().checked);
}

fn bt_proj(id: Option<&str>, content: &str, project_id: &str, section_id: Option<&str>, parent_id: Option<&str>) -> BufferTask {
    BufferTask {
        id: id.map(|s| s.to_string()),
        content: content.to_string(),
        checked: false,
        indent_level: 0,
        project_id: Some(project_id.to_string()),
        section_id: section_id.map(|s| s.to_string()),
        parent_id: parent_id.map(|s| s.to_string()),
        line_num: 1,
        due: None,
    }
}

fn snap_proj(id: &str, content: &str, project_id: &str, section_id: Option<&str>, parent_id: Option<&str>) -> (String, SnapshotTask) {
    (
        id.to_string(),
        SnapshotTask {
            id: id.to_string(),
            content: content.to_string(),
            project_id: project_id.to_string(),
            section_id: section_id.map(|s| s.to_string()),
            parent_id: parent_id.map(|s| s.to_string()),
            checked: false,
            child_order: 0,
            due: None,
        },
    )
}

#[test]
fn detects_project_move() {
    let snap = TaskMap::from_entries(vec![snap_proj("t1", "Task", "p1", None, None)]);
    let buf = vec![bt_proj(Some("t1"), "Task", "p2", None, None)];
    let ops = compute_ops(&buf, &snap, &mut SyncSummary::default());
    assert!(ops.iter().any(|(_, op)| matches!(op, SyncOp::Move { project_id, .. } if project_id == "p2")));
}

#[test]
fn detects_section_move() {
    let snap = TaskMap::from_entries(vec![snap_proj("t1", "Task", "p1", None, None)]);
    let buf = vec![bt_proj(Some("t1"), "Task", "p1", Some("s1"), None)];
    let ops = compute_ops(&buf, &snap, &mut SyncSummary::default());
    assert!(ops.iter().any(|(_, op)| matches!(op, SyncOp::Move { section_id, .. } if section_id.as_deref() == Some("s1"))));
}

#[test]
fn detects_parent_move() {
    let snap = TaskMap::from_entries(vec![snap_proj("t1", "Task", "p1", None, None)]);
    let buf = vec![bt_proj(Some("t1"), "Task", "p1", None, Some("t0"))];
    let ops = compute_ops(&buf, &snap, &mut SyncSummary::default());
    assert!(ops.iter().any(|(_, op)| matches!(op, SyncOp::Move { parent_id, .. } if parent_id.as_deref() == Some("t0"))));
}

#[test]
fn no_move_when_unchanged() {
    let snap = TaskMap::from_entries(vec![snap_proj("t1", "Task", "p1", None, None)]);
    let buf = vec![bt_proj(Some("t1"), "Task", "p1", None, None)];
    let ops = compute_ops(&buf, &snap, &mut SyncSummary::default());
    assert!(!ops.iter().any(|(_, op)| matches!(op, SyncOp::Move { .. })));
}

#[test]
fn resolve_parent_id_returns_none_for_dangling() {
    let buf = vec![bt(Some("t1"), "Task", false)];
    let parent_id = Some("pX".to_string());
    let mut summary = SyncSummary::default();
    let result = resolve_parent_id(&parent_id, 1, &buf, &HashMap::new(), &mut summary);
    assert!(result.is_none());
    assert!(!summary.warnings.is_empty());
}

#[test]
fn rebuild_snapshot_applies_move() {
    let original = TaskMap::from_entries(vec![snap_proj("t1", "Task", "p1", None, None)]);
    let buf = vec![bt_proj(Some("t1"), "Task", "p2", None, None)];
    let result = rebuild_snapshot(&original, &buf, &HashMap::new());
    assert_eq!(result.get("t1").unwrap().project_id, "p2");
}
