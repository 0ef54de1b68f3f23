use todoist_nvim::api::{
    absorb_page, completed_tasks_url, delete_status_result, format_date, http_err, is_leap,
    status_result, BASE,
};
use todoist_nvim::models::Page;

#[test]
fn format_date_at_the_epoch() {
    assert_eq!(format_date(0), "1970-01-01");
    assert_eq!(format_date(86399), "1970-01-01");
    assert_eq!(format_date(86400), "1970-01-02");
}

#[test]
fn format_date_leap_days() {
    assert_eq!(format_date(951782400), "2000-02-29");
    assert_eq!(format_date(1709164800), "2024-02-29");
    assert_eq!(format_date(1709164800 + 86400), "2024-03-01");
}

#[test]
fn format_date_century_without_leap_day() {
    assert_eq!(format_date(4102444800), "2100-01-01");
    assert_eq!(format_date(4107542400), "2100-03-01");
}

#[test]
fn format_date_year_ends() {
    assert_eq!(format_date(1704067199), "2023-12-31");
    assert_eq!(format_date(1704067200), "2024-01-01");
    assert_eq!(format_date(253402300799), "9999-12-31");
}

#[test]
fn leap_years() {
    assert!(is_leap(2000));
    assert!(!is_leap(1900));
    assert!(is_leap(2024));
    assert!(!is_leap(2023));
}

#[test]
fn completed_url_spans_thirty_days_and_one_more() {
    assert_eq!(
        completed_tasks_url(1_000_000_000),
        format!(
            "{}/tasks/completed/by_completion_date?since=2001-08-10&until=2001-09-10",
            BASE
        )
    );
}

#[test]
fn completed_url_clamps_at_the_epoch() {
    assert_eq!(
        completed_tasks_url(1000),
        "https://api.todoist.com/api/v1/tasks/completed/by_completion_date?since=1970-01-01&until=1970-01-02"
    );
}

#[test]
fn http_error_texts() {
    assert_eq!(
        http_err(401, "tasks"),
        "Todoist API: 401 Unauthorized — check TODOIST_API_TOKEN"
    );
    assert_eq!(http_err(403, "projects"), "Todoist API: 403 Forbidden — projects");
    assert_eq!(http_err(404, "tasks/x"), "Todoist API: 404 Not Found — tasks/x");
    assert_eq!(
        http_err(429, "tasks"),
        "Todoist API: 429 Too Many Requests — wait a moment"
    );
    assert_eq!(http_err(503, "tasks"), "Todoist API: server error 503 — tasks");
    assert_eq!(http_err(500, "a"), "Todoist API: server error 500 — a");
    assert_eq!(http_err(418, "tasks"), "Todoist API: error 418 — tasks");
    assert_eq!(http_err(0, ""), "Todoist API: error 0 — ");
}

#[test]
fn only_2xx_is_success() {
    assert_eq!(status_result(200, "x"), Ok(()));
    assert_eq!(status_result(204, "x"), Ok(()));
    assert_eq!(status_result(299, "x"), Ok(()));
    assert_eq!(
        status_result(301, "x"),
        Err("Todoist API: error 301 — x".to_string())
    );
    assert_eq!(
        status_result(199, "x"),
        Err("Todoist API: error 199 — x".to_string())
    );
    assert_eq!(
        status_result(404, "tasks/1 [POST]"),
        Err("Todoist API: 404 Not Found — tasks/1 [POST]".to_string())
    );
}

#[test]
fn delete_treats_404_as_done() {
    assert_eq!(delete_status_result(204, "tasks/1 [DELETE]"), Ok(()));
    assert_eq!(delete_status_result(404, "tasks/1 [DELETE]"), Ok(()));
    assert_eq!(
        delete_status_result(500, "tasks/1 [DELETE]"),
        Err("Todoist API: server error 500 — tasks/1 [DELETE]".to_string())
    );
}

#[test]
fn pages_accumulate_until_the_cursor_runs_out() {
    let mut items: Vec<u32> = vec![1, 2];
    let next = absorb_page(
        &mut items,
        Page {
            results: vec![3],
            next_cursor: Some("c".to_string()),
        },
    );
    assert_eq!(next.as_deref(), Some("c"));
    let last = absorb_page(
        &mut items,
        Page {
            results: vec![4, 5],
            next_cursor: None,
        },
    );
    assert_eq!(last, None);
    assert_eq!(items, vec![1, 2, 3, 4, 5]);
}
