//! The plain outline (no id comments) of the standalone viewer, and its HTTP error texts.
use crate::models::{Project, Section, Task};
use crate::outline::{
    all_indices, outline, pick, render_outline, sort_by_order, sort_indices, subtree, Style,
};
use crate::text::{dec, push_decimal};
use vstd::prelude::*;
use vstd::string::*;

verus! {

/// Renders the plain outline: projects in display order, their sections and tasks.
pub fn render(projects: Vec<Project>, sections: Vec<Section>, tasks: Vec<Task>) -> (r: Result<
    String,
    String,
>)
    ensures
        r matches Ok(s) && s@ == outline(Style::Plain, sort_by_order(projects@), sections@, tasks@),
{
    let all = all_indices(projects.len());
    assert(pick(projects@, all@) =~= projects@);
    let porder = sort_indices(projects.as_slice(), &all);
    Ok(render_outline(Style::Plain, projects.as_slice(), &porder, sections.as_slice(), tasks.as_slice()))
}

/// Appends `task` at `depth`, then its subtasks among `sorted_tasks` (tasks in display
/// order), four spaces deeper per level.
pub fn render_task(out: &mut String, task: &Task, sorted_tasks: &[Task], depth: usize)
    requires
        depth + sorted_tasks@.len() <= usize::MAX,
    ensures
        final(out)@ == old(out)@ + subtree(
            Style::Plain,
            sorted_tasks@,
            *task,
            depth as nat,
            sorted_tasks@.len() as nat,
        ),
{
    let order = all_indices(sorted_tasks.len());
    assert(pick(sorted_tasks@, order@) =~= sorted_tasks@);
    crate::outline::push_tree(out, Style::Plain, sorted_tasks, &order, task, depth, sorted_tasks.len());
}

pub open spec fn nothing_active_message() -> Seq<char> {
    "# 🎉 No active tasks\n\nYour Todoist is empty — enjoy the peace!\n"@
}

/// What the viewer prints: a notice when there are no active tasks, else the plain outline.
pub fn output(projects: Vec<Project>, sections: Vec<Section>, tasks: Vec<Task>) -> (r: Result<
    String,
    String,
>)
    ensures
        r matches Ok(s) && s@ == if tasks@.len() == 0 {
            nothing_active_message()
        } else {
            outline(Style::Plain, sort_by_order(projects@), sections@, tasks@)
        },
{
    if tasks.len() == 0 {
        return Ok(
            String::from_str("# 🎉 No active tasks\n\nYour Todoist is empty — enjoy the peace!\n"),
        );
    }
    render(projects, sections, tasks)
}

/// The message for a non-2xx response from `url`.
pub open spec fn http_error_message_spec(status: u16, url: Seq<char>) -> Seq<char> {
    if status == 401 {
        "Todoist API returned 401 Unauthorized.\nCheck that TODOIST_API_TOKEN is valid."@
    } else if status == 403 {
        "Todoist API returned 403 Forbidden for "@ + url
            + ".\nYour token may lack the required scope (data:read)."@
    } else if status == 429 {
        "Todoist API returned 429 Too Many Requests.\nWait a moment and try again."@
    } else if 500 <= status <= 599 {
        "Todoist API returned a server error ("@ + dec(status as nat) + ") for "@ + url
            + ".\nTry again in a few minutes."@
    } else {
        "Todoist API error "@ + dec(status as nat) + " for "@ + url
    }
}

/// Builds a human-readable error message for a non-2xx HTTP response.
pub fn http_error_message(status: u16, url: &str) -> (r: String)
    ensures
        r@ == http_error_message_spec(status, url@),
{
    if status == 401 {
        String::from_str("Todoist API returned 401 Unauthorized.\nCheck that TODOIST_API_TOKEN is valid.")
    } else if status == 403 {
        let mut m = String::from_str("Todoist API returned 403 Forbidden for ");
        m.append(url);
        m.append(".\nYour token may lack the required scope (data:read).");
        m
    } else if status == 429 {
        String::from_str("Todoist API returned 429 Too Many Requests.\nWait a moment and try again.")
    } else if 500 <= status && status <= 599 {
        let mut m = String::from_str("Todoist API returned a server error (");
        push_decimal(&mut m, status as u64);
        m.append(") for ");
        m.append(url);
        m.append(".\nTry again in a few minutes.");
        assert(m@ =~= http_error_message_spec(status, url@));
        m
    } else {
        let mut m = String::from_str("Todoist API error ");
        push_decimal(&mut m, status as u64);
        m.append(" for ");
        m.append(url);
        assert(m@ =~= http_error_message_spec(status, url@));
        m
    }
}

/// A 2xx response from `url` is success; any other fails with `http_error_message`.
pub fn check_status(status: u16, url: &str) -> (r: Result<(), String>)
    ensures
        match r {
            Ok(()) => 200 <= status <= 299,
            Err(e) => !(200 <= status <= 299) && e@ == http_error_message_spec(status, url@),
        },
{
    if 200 <= status && status <= 299 {
        Ok(())
    } else {
        Err(http_error_message(status, url))
    }
}

} // verus!
