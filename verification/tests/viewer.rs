use todoist_nvim::models::{Project, Section, Task};
use todoist_nvim::plain::{check_status, http_error_message, output, render, render_task};

fn make_project(id: &str, name: &str, order: i64) -> Project {
    Project {
        id: id.to_string(),
        name: name.to_string(),
        child_order: order,
        inbox_project: false,
    }
}

fn make_section(id: &str, project_id: &str, name: &str, order: i64) -> Section {
    Section {
        id: id.to_string(),
        project_id: project_id.to_string(),
        name: name.to_string(),
        section_order: order,
    }
}

fn make_task(id: &str, content: &str, project_id: &str) -> Task {
    Task {
        id: id.to_string(),
        content: content.to_string(),
        project_id: project_id.to_string(),
        section_id: None,
        parent_id: None,
        child_order: 0,
    }
}

fn make_subtask(id: &str, content: &str, project_id: &str, parent_id: &str) -> Task {
    Task {
        id: id.to_string(),
        content: content.to_string(),
        project_id: project_id.to_string(),
        section_id: None,
        parent_id: Some(parent_id.to_string()),
        child_order: 0,
    }
}

fn make_sectioned_task(id: &str, content: &str, project_id: &str, section_id: &str) -> Task {
    Task {
        id: id.to_string(),
        content: content.to_string(),
        project_id: project_id.to_string(),
        section_id: Some(section_id.to_string()),
        parent_id: None,
        child_order: 0,
    }
}

#[test]
fn render_handles_all_task_list() {
    let out = render(vec![make_project("p1", "Work", 1)], vec![], vec![]);
    assert!(out.is_ok());
}

#[test]
fn unsectioned_tasks_render_directly_under_project() {
    let out = render(
        vec![make_project("p1", "Work", 1)],
        vec![],
        vec![make_task("t1", "Fix bug", "p1")],
    )
    .unwrap();

    assert!(out.contains("# Work"));
    assert!(out.contains("- [ ] Fix bug"));
    assert!(!out.contains("## "));
}

#[test]
fn sectioned_tasks_render_under_h2() {
    let out = render(
        vec![make_project("p1", "Work", 1)],
        vec![make_section("s1", "p1", "Backend", 1)],
        vec![make_sectioned_task("t1", "Fix auth", "p1", "s1")],
    )
    .unwrap();

    assert!(out.contains("# Work"));
    assert!(out.contains("## Backend"));
    assert!(out.contains("- [ ] Fix auth"));
}

#[test]
fn subtasks_are_indented() {
    let out = render(
        vec![make_project("p1", "Work", 1)],
        vec![],
        vec![
            make_task("t1", "Parent task", "p1"),
            make_subtask("t2", "Child task", "p1", "t1"),
        ],
    )
    .unwrap();

    assert!(out.contains("- [ ] Parent task"));
    assert!(out.contains("    - [ ] Child task"));
}

#[test]
fn projects_with_no_tasks_are_omitted() {
    let out = render(
        vec![
            make_project("p1", "Empty Project", 1),
            make_project("p2", "Active Project", 2),
        ],
        vec![],
        vec![make_task("t1", "A task", "p2")],
    )
    .unwrap();

    assert!(!out.contains("# Empty Project"));
    assert!(out.contains("# Active Project"));
}

#[test]
fn section_id_null_treated_as_no_section() {
    let task = Task {
        id: "t1".to_string(),
        content: "Task".to_string(),
        project_id: "p1".to_string(),
        section_id: None,
        parent_id: None,
        child_order: 0,
    };
    assert_eq!(task.section_key(), None);
}

#[test]
fn section_id_empty_string_treated_as_no_section() {
    let task = Task {
        id: "t1".to_string(),
        content: "Task".to_string(),
        project_id: "p1".to_string(),
        section_id: Some("".to_string()),
        parent_id: None,
        child_order: 0,
    };
    assert_eq!(task.section_key(), None);
}

#[test]
fn plain_outline_exact_text() {
    let out = render(
        vec![make_project("p2", "Home", 2), make_project("p1", "Work", 1)],
        vec![
            make_section("s2", "p1", "Later", 2),
            make_section("s1", "p1", "Now", 1),
        ],
        vec![
            make_sectioned_task("t3", "In later", "p1", "s2"),
            make_sectioned_task("t2", "In now", "p1", "s1"),
            make_task("t1", "Loose", "p1"),
            make_subtask("t4", "Sub", "p1", "t1"),
            make_task("t5", "Chores", "p2"),
        ],
    )
    .unwrap();
    assert_eq!(
        out,
        "# Work\n\n- [ ] Loose\n    - [ ] Sub\n\n## Now\n\n- [ ] In now\n\n## Later\n\n- [ ] In later\n\n# Home\n\n- [ ] Chores\n\n"
    );
}

#[test]
fn plain_outline_of_empty_projects_is_a_notice() {
    let out = render(vec![make_project("p1", "Work", 1)], vec![], vec![]).unwrap();
    assert_eq!(out, "# No active tasks\n\nAll projects appear to be empty.\n");
}

#[test]
fn tasks_follow_child_order_and_ties_keep_list_order() {
    let mut a = make_task("a", "A", "p1");
    a.child_order = 2;
    let mut b = make_task("b", "B", "p1");
    b.child_order = 1;
    let mut c = make_task("c", "C", "p1");
    c.child_order = 2;
    let out = render(vec![make_project("p1", "Work", 1)], vec![], vec![a, b, c]).unwrap();
    assert_eq!(out, "# Work\n\n- [ ] B\n- [ ] A\n- [ ] C\n\n");
}

#[test]
fn empty_parent_id_counts_as_top_level() {
    let mut t = make_task("t1", "Top", "p1");
    t.parent_id = Some(String::new());
    assert_eq!(t.parent_key(), None);
    let out = render(vec![make_project("p1", "Work", 1)], vec![], vec![t]).unwrap();
    assert_eq!(out, "# Work\n\n- [ ] Top\n\n");
}

#[test]
fn section_key_and_parent_key_give_the_ids() {
    let mut t = make_sectioned_task("t1", "X", "p1", "s9");
    t.parent_id = Some("t0".to_string());
    assert_eq!(t.section_key(), Some("s9"));
    assert_eq!(t.parent_key(), Some("t0"));
}

#[test]
fn plain_render_task_nests_children() {
    let tasks = vec![make_task("t1", "Top", "p1"), make_subtask("t2", "Kid", "p1", "t1")];
    let mut out = String::new();
    render_task(&mut out, &tasks[0], &tasks, 1);
    assert_eq!(out, "    - [ ] Top\n        - [ ] Kid\n");
}

#[test]
fn viewer_output_without_tasks() {
    let out = output(vec![make_project("p1", "Work", 1)], vec![], vec![]).unwrap();
    assert_eq!(out, "# 🎉 No active tasks\n\nYour Todoist is empty — enjoy the peace!\n");
}

#[test]
fn viewer_error_messages() {
    assert_eq!(
        http_error_message(401, "u"),
        "Todoist API returned 401 Unauthorized.\nCheck that TODOIST_API_TOKEN is valid."
    );
    assert_eq!(
        http_error_message(403, "https://x/projects"),
        "Todoist API returned 403 Forbidden for https://x/projects.\nYour token may lack the required scope (data:read)."
    );
    assert_eq!(
        http_error_message(429, "u"),
        "Todoist API returned 429 Too Many Requests.\nWait a moment and try again."
    );
    assert_eq!(
        http_error_message(502, "u"),
        "Todoist API returned a server error (502) for u.\nTry again in a few minutes."
    );
    assert_eq!(http_error_message(404, "u"), "Todoist API error 404 for u");
    assert_eq!(http_error_message(600, "u"), "Todoist API error 600 for u");
}

#[test]
fn viewer_accepts_only_2xx() {
    assert_eq!(check_status(200, "u"), Ok(()));
    assert_eq!(check_status(299, "u"), Ok(()));
    assert_eq!(
        check_status(300, "u"),
        Err("Todoist API error 300 for u".to_string())
    );
    assert_eq!(
        check_status(401, "u"),
        Err("Todoist API returned 401 Unauthorized.\nCheck that TODOIST_API_TOKEN is valid.".to_string())
    );
}
