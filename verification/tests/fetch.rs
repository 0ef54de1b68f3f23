use todoist_nvim::fetch::{fetch_output, render, render_task, snapshot_tasks};
use todoist_nvim::models::{Project, Section, Snapshot, Task, TaskMap};
use todoist_nvim::parser::parse;

fn project(id: &str, name: &str, order: i64) -> Project {
    Project {
        id: id.to_string(),
        name: name.to_string(),
        child_order: order,
        inbox_project: false,
    }
}

fn section(id: &str, project_id: &str, name: &str, order: i64) -> Section {
    Section {
        id: id.to_string(),
        project_id: project_id.to_string(),
        name: name.to_string(),
        section_order: order,
    }
}

fn task(
    id: &str,
    content: &str,
    project_id: &str,
    section_id: Option<&str>,
    parent_id: Option<&str>,
    order: i64,
) -> Task {
    Task {
        id: id.to_string(),
        content: content.to_string(),
        project_id: project_id.to_string(),
        section_id: section_id.map(|s| s.to_string()),
        parent_id: parent_id.map(|s| s.to_string()),
        child_order: order,
    }
}

#[test]
fn tagged_outline_exact_text() {
    let out = render(
        &[project("p1", "Work", 1)],
        &[section("s1", "p1", "Backend", 1)],
        &[
            task("t1", "Fix auth", "p1", Some("s1"), None, 1),
            task("t2", "Loose end", "p1", None, None, 2),
            task("t3", "Child", "p1", None, Some("t2"), 3),
        ],
    )
    .unwrap();
    assert_eq!(
        out,
        "## Work <!-- project:p1 -->\n\n\
         - [ ] Loose end <!-- id:t2 -->\n\
         \x20   - [ ] Child <!-- id:t3 -->\n\n\
         ### Backend <!-- section:s1 -->\n\n\
         - [ ] Fix auth <!-- id:t1 -->\n\n"
    );
}

#[test]
fn tagged_outline_keeps_the_given_project_order() {
    let out = render(
        &[project("p2", "Second", 2), project("p1", "First", 1)],
        &[],
        &[
            task("a", "A", "p1", None, None, 0),
            task("b", "B", "p2", None, None, 0),
        ],
    )
    .unwrap();
    assert_eq!(
        out,
        "## Second <!-- project:p2 -->\n\n- [ ] B <!-- id:b -->\n\n\
         ## First <!-- project:p1 -->\n\n- [ ] A <!-- id:a -->\n\n"
    );
}

#[test]
fn tagged_outline_without_matching_projects_is_a_notice() {
    let out = render(&[project("p1", "Work", 1)], &[], &[]).unwrap();
    assert_eq!(out, "# No active tasks\n\nAll projects appear to be empty.\n");
}

#[test]
fn empty_sections_are_not_shown() {
    let out = render(
        &[project("p1", "Work", 1)],
        &[section("s1", "p1", "Empty", 1), section("s2", "p1", "Full", 2)],
        &[task("t1", "Only", "p1", Some("s2"), None, 0)],
    )
    .unwrap();
    assert!(!out.contains("Empty"));
    assert!(out.contains("### Full <!-- section:s2 -->"));
    // No unsectioned block: the heading is followed by the section directly.
    assert!(out.starts_with("## Work <!-- project:p1 -->\n\n### Full"));
}

#[test]
fn sections_follow_section_order() {
    let out = render(
        &[project("p1", "Work", 1)],
        &[section("s2", "p1", "Later", 5), section("s1", "p1", "Sooner", 1)],
        &[
            task("t1", "In later", "p1", Some("s2"), None, 0),
            task("t2", "In sooner", "p1", Some("s1"), None, 0),
        ],
    )
    .unwrap();
    let sooner = out.find("### Sooner").unwrap();
    let later = out.find("### Later").unwrap();
    assert!(sooner < later);
}

#[test]
fn fetch_output_without_tasks_is_the_empty_notice() {
    assert_eq!(
        fetch_output(&[project("p1", "Work", 1)], &[], &[]),
        "# 🎉 No active tasks\n\nYour Todoist is empty — enjoy the peace!\n"
    );
}

#[test]
fn fetch_output_sorts_projects_by_child_order() {
    let out = fetch_output(
        &[project("p2", "Second", 2), project("p1", "First", 1)],
        &[],
        &[
            task("a", "A", "p1", None, None, 0),
            task("b", "B", "p2", None, None, 0),
        ],
    );
    assert_eq!(
        out,
        "## First <!-- project:p1 -->\n\n- [ ] A <!-- id:a -->\n\n\
         ## Second <!-- project:p2 -->\n\n- [ ] B <!-- id:b -->\n\n"
    );
}

#[test]
fn render_task_appends_ids_and_nests() {
    let sorted = vec![
        task("t1", "Parent", "p1", None, None, 1),
        task("t2", "Kid", "p1", None, Some("t1"), 2),
        task("t3", "Grandkid", "p1", None, Some("t2"), 3),
    ];
    let mut out = String::from(">");
    render_task(&mut out, &sorted[0], &sorted, 1);
    assert_eq!(
        out,
        ">    - [ ] Parent <!-- id:t1 -->\n\
         \x20       - [ ] Kid <!-- id:t2 -->\n\
         \x20           - [ ] Grandkid <!-- id:t3 -->\n"
    );
}

#[test]
fn snapshot_of_fetched_tasks() {
    let m = snapshot_tasks(&[
        task("t1", "One", "p1", Some("s1"), None, 4),
        task("t2", "Two", "p2", None, Some("t1"), 7),
    ]);
    assert_eq!(m.len(), 2);
    let one = m.get("t1").unwrap();
    assert_eq!(one.id, "t1");
    assert_eq!(one.content, "One");
    assert_eq!(one.project_id, "p1");
    assert_eq!(one.section_id.as_deref(), Some("s1"));
    assert_eq!(one.parent_id, None);
    assert!(!one.checked);
    assert_eq!(one.child_order, 4);
    assert_eq!(one.due, None);
    let two = m.get("t2").unwrap();
    assert_eq!(two.parent_id.as_deref(), Some("t1"));
    assert_eq!(two.child_order, 7);
    assert!(m.get("t3").is_none());
}

#[test]
fn snapshot_keeps_the_last_task_of_an_id() {
    let m = snapshot_tasks(&[
        task("t1", "First", "p1", None, None, 0),
        task("t1", "Second", "p1", None, None, 0),
    ]);
    assert_eq!(m.len(), 1);
    assert_eq!(m.get("t1").unwrap().content, "Second");
}

#[test]
fn snapshot_stamps() {
    let s = Snapshot::stamped(TaskMap::new(), Some(1700000000));
    assert_eq!(s.fetched_at, "1700000000");
    assert_eq!(s.tasks.len(), 0);
    let none = Snapshot::stamped(TaskMap::new(), None);
    assert_eq!(none.fetched_at, "");
    let now = Snapshot::new(TaskMap::new());
    assert!(!now.fetched_at.is_empty());
    assert!(now.fetched_at.chars().all(|c| c.is_ascii_digit()));
}

#[test]
fn rendered_task_line_reads_back() {
    let t = task("abc123", "Write the report", "p1", None, None, 0);
    let mut out = String::new();
    render_task(&mut out, &t, &[], 0);
    let line = out.trim_end_matches('\n').to_string();
    let parsed = parse(&["## Work <!-- project:p1 -->".to_string(), line]);
    assert!(parsed.warnings.is_empty());
    assert_eq!(parsed.tasks.len(), 1);
    let bt = &parsed.tasks[0];
    assert_eq!(bt.id.as_deref(), Some("abc123"));
    assert_eq!(bt.content, "Write the report");
    assert_eq!(bt.indent_level, 0);
    assert_eq!(bt.parent_id, None);
    assert!(!bt.checked);
    assert_eq!(bt.due, None);
    assert_eq!(bt.project_id.as_deref(), Some("p1"));
}

#[test]
fn fetched_page_reads_back() {
    let out = fetch_output(
        &[project("p2", "Home", 2), project("p1", "Work", 1)],
        &[section("s1", "p1", "Backend", 1)],
        &[
            task("t1", "Fix auth", "p1", Some("s1"), None, 1),
            task("t2", "Loose end", "p1", None, None, 2),
            task("t3", "Child", "p1", None, Some("t2"), 3),
            task("t4", "Grandchild", "p1", None, Some("t3"), 4),
            task("t5", "Chores", "p2", None, None, 5),
        ],
    );
    let lines: Vec<String> = out.lines().map(|l| l.to_string()).collect();
    let parsed = parse(&lines);
    assert!(parsed.warnings.is_empty());
    let got: Vec<(String, String, usize, Option<String>, Option<String>, Option<String>)> = parsed
        .tasks
        .iter()
        .map(|t| {
            (
                t.id.clone().unwrap(),
                t.content.clone(),
                t.indent_level,
                t.project_id.clone(),
                t.section_id.clone(),
                t.parent_id.clone(),
            )
        })
        .collect();
    let s = |x: &str| Some(x.to_string());
    assert_eq!(
        got,
        vec![
            ("t2".to_string(), "Loose end".to_string(), 0, s("p1"), None, None),
            ("t3".to_string(), "Child".to_string(), 1, s("p1"), None, s("t2")),
            ("t4".to_string(), "Grandchild".to_string(), 2, s("p1"), None, s("t3")),
            ("t1".to_string(), "Fix auth".to_string(), 0, s("p1"), s("s1"), None),
            ("t5".to_string(), "Chores".to_string(), 0, s("p2"), None, None),
        ]
    );
}

#[test]
fn only_projects_with_top_level_tasks_get_headings() {
    let out = fetch_output(
        &[project("p3", "Third", 3), project("p1", "First", 1), project("p2", "Orphans", 2)],
        &[],
        &[
            task("a", "A", "p1", None, None, 0),
            task("b", "B", "p2", None, Some("zz"), 0),
            task("c", "C", "p3", None, None, 0),
        ],
    );
    let headings: Vec<&str> = out.lines().filter(|l| l.starts_with("## ")).collect();
    assert_eq!(
        headings,
        vec!["## First <!-- project:p1 -->", "## Third <!-- project:p3 -->"]
    );
}
