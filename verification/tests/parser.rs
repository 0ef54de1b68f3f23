use todoist_nvim::parser::{parse, readable, DUE_MARKER};

fn lines(s: &str) -> Vec<String> {
    s.lines().map(|l| l.to_string()).collect()
}

#[test]
fn h2_is_project() {
    let buf = lines("## Work <!-- project:p1 -->\n\n- [ ] Task <!-- id:t1 -->");
    let r = parse(&buf);
    assert_eq!(r.tasks.len(), 1);
    assert_eq!(r.tasks[0].project_id.as_deref(), Some("p1"));
}

#[test]
fn h3_is_section() {
    let buf = lines(
        "## Work <!-- project:p1 -->\n\
         ### Backend <!-- section:s1 -->\n\
         - [ ] Fix bug <!-- id:t1 -->",
    );
    let r = parse(&buf);
    assert_eq!(r.tasks[0].section_id.as_deref(), Some("s1"));
}

#[test]
fn four_space_indent_resolves_parent() {
    let buf = lines("## Work <!-- project:p1 -->\n- [ ] Parent <!-- id:p1 -->\n- [ ] Child <!-- id:c1 -->");
    let r = parse(&buf);
    assert_eq!(r.tasks[1].parent_id, None);

    let buf2 = lines("## Work <!-- project:p1 -->\n- [ ] Parent <!-- id:p1 -->\n    - [ ] Child <!-- id:c1 -->");
    let r2 = parse(&buf2);
    assert_eq!(r2.tasks[1].parent_id.as_deref(), Some("p1"));
}

#[test]
fn checked_task_detected() {
    let buf = lines("## Work <!-- project:p1 -->\n\n- [x] Done <!-- id:t1 -->");
    let r = parse(&buf);
    assert!(r.tasks[0].checked);
}

#[test]
fn new_task_no_id() {
    let buf = lines("## Work <!-- project:p1 -->\n\n- [ ] Brand new task");
    let r = parse(&buf);
    assert_eq!(r.tasks[0].id, None);
}

#[test]
fn section_resets_on_new_project() {
    let buf = lines(
        "## Work <!-- project:p1 -->\n\
         ### Backend <!-- section:s1 -->\n\
         - [ ] A <!-- id:t1 -->\n\
         ## Personal <!-- project:p2 -->\n\
         - [ ] B <!-- id:t2 -->",
    );
    let r = parse(&buf);
    assert_eq!(r.tasks[0].section_id.as_deref(), Some("s1"));
    assert_eq!(r.tasks[1].section_id, None);
}

#[test]
fn h4_subtasks_label_ignored() {
    let buf = lines("## Work <!-- project:p1 -->\n- [ ] Task <!-- id:t1 -->\n#### Subtasks\n    - [ ] Sub <!-- id:s1 -->");
    let r = parse(&buf);
    assert_eq!(r.tasks.len(), 2);
    assert_eq!(r.tasks[1].indent_level, 1);
}

#[test]
fn parses_date_only() {
    let buf = lines("## Work <!-- project:p1 -->\n- [ ] Task due:2026-04-20 <!-- id:t1 -->");
    let r = parse(&buf);
    assert_eq!(r.tasks.len(), 1);
    assert_eq!(r.tasks[0].due.as_deref(), Some("2026-04-20"));
    assert_eq!(r.tasks[0].content, "Task");
}

#[test]
fn parses_datetime() {
    let buf = lines("## Work <!-- project:p1 -->\n- [ ] Task due:2026-04-20 15:30 <!-- id:t1 -->");
    let r = parse(&buf);
    assert_eq!(r.tasks.len(), 1);
    assert_eq!(r.tasks[0].due.as_deref(), Some("2026-04-20 15:30"));
}

#[test]
fn parses_date_with_space_after_marker() {
    let buf = lines("## Work <!-- project:p1 -->\n- [ ] Task due: 2026-04-20 <!-- id:t1 -->");
    let r = parse(&buf);
    assert_eq!(r.tasks[0].due.as_deref(), Some("2026-04-20"));
    assert_eq!(r.tasks[0].content, "Task");
}

#[test]
fn no_date_when_missing() {
    let buf = lines("## Work <!-- project:p1 -->\n- [ ] Task <!-- id:t1 -->");
    let r = parse(&buf);
    assert_eq!(r.tasks.len(), 1);
    assert_eq!(r.tasks[0].due, None);
}

#[test]
fn date_stripped_from_content() {
    let buf = lines("## Work <!-- project:p1 -->\n- [ ] Buy milk due:2026-05-01 <!-- id:t1 -->");
    let r = parse(&buf);
    assert_eq!(r.tasks[0].content, "Buy milk");
    assert!(!r.tasks[0].content.contains("due:"));
}

#[test]
fn unparseable_due_is_kept_in_content_with_a_warning() {
    let buf = lines("## Work <!-- project:p1 -->\n- [ ] Pay due:tomorrow <!-- id:t1 -->");
    let r = parse(&buf);
    assert_eq!(r.tasks[0].content, "Pay due:tomorrow");
    assert_eq!(r.tasks[0].due, None);
    assert_eq!(
        r.warnings,
        vec!["Line 2: 'due:' found but date is unparseable — ignoring due date".to_string()]
    );
    assert_eq!(DUE_MARKER, "due:");
}

#[test]
fn bad_time_after_date_is_unparseable() {
    let buf = lines("## W <!-- project:p -->\n- [ ] A due:2026-04-20 1530 <!-- id:t -->\n- [ ] B due:2026-04-20x <!-- id:u -->");
    let r = parse(&buf);
    assert_eq!(r.tasks[0].due, None);
    assert_eq!(r.tasks[0].content, "A due:2026-04-20 1530");
    assert_eq!(r.tasks[1].due, None);
    assert_eq!(r.warnings.len(), 2);
}

#[test]
fn last_due_marker_counts_and_trailing_blanks_are_fine() {
    let buf = lines("## W <!-- project:p -->\n- [ ] due:x then due:2026-01-02 09:05   <!-- id:t -->");
    let r = parse(&buf);
    assert_eq!(r.tasks[0].due.as_deref(), Some("2026-01-02 09:05"));
    assert_eq!(r.tasks[0].content, "due:x then");
}

#[test]
fn heading_without_ids_warns() {
    let buf = lines("## Work\n### Backend\n- [ ] Lost task");
    let r = parse(&buf);
    assert!(r.tasks.is_empty());
    assert_eq!(
        r.warnings,
        vec![
            "Line 1: H2 has no <!-- project:ID --> — tasks here won't be synced".to_string(),
            "Line 2: H3 has no <!-- section:ID --> — tasks here won't be synced".to_string(),
            "Line 3: task 'Lost task' has no project context — skipped".to_string(),
        ]
    );
}

#[test]
fn empty_task_is_skipped_with_a_warning() {
    let buf = lines("## W <!-- project:p -->\n- [ ]  <!-- id:t -->\n- [X] Done");
    let r = parse(&buf);
    assert_eq!(r.tasks.len(), 1);
    assert!(r.tasks[0].checked);
    assert_eq!(r.warnings, vec!["Line 2: empty task content — skipped".to_string()]);
}

#[test]
fn orphan_subtask_warns_after_line_warnings() {
    let buf = lines("## W <!-- project:p -->\n        - [ ] Deep <!-- id:d -->\n### S\n- [ ] A <!-- id:a -->");
    let r = parse(&buf);
    assert_eq!(r.tasks.len(), 2);
    assert_eq!(r.tasks[0].indent_level, 2);
    assert_eq!(r.tasks[0].parent_id, None);
    assert_eq!(
        r.warnings,
        vec![
            "Line 3: H3 has no <!-- section:ID --> — tasks here won't be synced".to_string(),
            "Line 2: subtask 'Deep' has no resolvable parent — will be a root task".to_string(),
        ]
    );
}

#[test]
fn parent_is_the_closest_shallower_task() {
    let buf = lines(
        "## W <!-- project:p -->\n\
         - [ ] A <!-- id:a -->\n    \
             - [ ] B <!-- id:b -->\n        \
                 - [ ] C <!-- id:c -->\n    \
             - [ ] D <!-- id:d -->\n\
         - [ ] E\n    \
             - [ ] F <!-- id:f -->",
    );
    let r = parse(&buf);
    let parents: Vec<Option<&str>> = r.tasks.iter().map(|t| t.parent_id.as_deref()).collect();
    assert_eq!(parents, vec![None, Some("a"), Some("b"), Some("a"), None, None]);
    assert_eq!(r.tasks[4].id, None);
    assert_eq!(
        r.warnings,
        vec!["Line 7: subtask 'F' has no resolvable parent — will be a root task".to_string()]
    );
}

#[test]
fn comment_value_takes_the_first_word_and_line_numbers() {
    let buf = lines("## Work <!--   project:p1 extra -->\n\n- [ ] T <!-- id:  t1  -->");
    let r = parse(&buf);
    assert_eq!(r.tasks[0].project_id.as_deref(), Some("p1"));
    assert_eq!(r.tasks[0].id.as_deref(), Some("t1"));
    assert_eq!(r.tasks[0].line_num, 3);
}

#[test]
fn tab_indent_is_not_a_level() {
    let buf = lines("## W <!-- project:p -->\n\t- [ ] T <!-- id:t -->");
    let r = parse(&buf);
    assert_eq!(r.tasks.len(), 1);
    assert_eq!(r.tasks[0].indent_level, 0);
}

#[test]
fn readable_lines() {
    assert!(readable("## Work <!-- project:p1 -->"));
    assert!(!readable("## Work <!-->"));
    assert!(!readable("### Section <!--->"));
    assert!(!readable("- [ ] Task <!-->"));
    assert!(!readable("    - [x] Task <!--->"));
    assert!(readable("- [ ] Task <!-- id:1 -->"));
    assert!(readable("#### <!-->"));
    assert!(readable("plain <!-->"));
    assert!(readable("- [ ] <!--> then <!-- id:x -->"));
    assert!(readable(""));
}
