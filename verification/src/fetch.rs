//! What `fetch` shows and saves: the tagged outline of the active tasks, and the snapshot
//! of those tasks that later syncs diff against.
//!
//! The rendered buffer carries the Todoist ids in HTML comments:
//!
//! ```markdown
//! ## Work <!-- project:6X4Vw2Hfmg73Q2XR -->
//!
//! ### Backend <!-- section:7X4Vw2Hfmg73Q2XR -->
//!
//! - [ ] Fix auth bug <!-- id:8X4Vw2Hfmg73Q2XR -->
//!     - [ ] Write test <!-- id:9X4Vw2Hfmg73Q2XR -->
//! ```
use crate::models::{
    clone_opt, entries_view, last_with_key, lookup, ov, Project, Section, SnapshotTask,
    SnapshotTaskV, Task, TaskMap,
};
use crate::outline::{
    all_indices, outline, pick, render_outline, sort_by_order, sort_indices, subtree, Style,
};
use vstd::prelude::*;
use vstd::string::*;

verus! {

/// Renders projects (in the given order), their sections and tasks as the tagged outline.
pub fn render(projects: &[Project], sections: &[Section], tasks: &[Task]) -> (r: Result<
    String,
    String,
>)
    ensures
        r matches Ok(s) && s@ == outline(Style::Tagged, projects@, sections@, tasks@),
{
    let porder = all_indices(projects.len());
    assert(pick(projects@, porder@) =~= projects@);
    Ok(render_outline(Style::Tagged, projects, &porder, sections, tasks))
}

/// Appends `task` at `depth`, with its `<!-- id:ID -->`, then its subtasks among
/// `sorted_tasks` (tasks in display order), four spaces deeper per level.
pub fn render_task(out: &mut String, task: &Task, sorted_tasks: &[Task], depth: usize)
    requires
        depth + sorted_tasks@.len() <= usize::MAX,
    ensures
        final(out)@ == old(out)@ + subtree(
            Style::Tagged,
            sorted_tasks@,
            *task,
            depth as nat,
            sorted_tasks@.len() as nat,
        ),
{
    let order = all_indices(sorted_tasks.len());
    assert(pick(sorted_tasks@, order@) =~= sorted_tasks@);
    crate::outline::push_tree(out, Style::Tagged, sorted_tasks, &order, task, depth, sorted_tasks.len());
}

/// The snapshot entry of a fetched task: unchecked, no due date.
pub open spec fn snapshot_of(t: Task) -> SnapshotTaskV {
    SnapshotTaskV {
        id: t.id@,
        content: t.content@,
        project_id: t.project_id@,
        section_id: ov(t.section_id),
        parent_id: ov(t.parent_id),
        checked: false,
        child_order: t.child_order,
        due: None,
    }
}

/// The fetched tasks keyed by id (a later task replacing an earlier one with the same id).
pub open spec fn fetched_entries(tasks: Seq<Task>) -> Seq<(Seq<char>, SnapshotTaskV)> {
    tasks.map_values(|t: Task| (t.id@, snapshot_of(t)))
}

/// The snapshot taken at fetch time.
pub fn snapshot_tasks(tasks: &[Task]) -> (m: TaskMap)
    ensures
        forall|k: Seq<char>|
            #![trigger lookup(m@, k)]
            lookup(m@, k) == last_with_key(fetched_entries(tasks@), k),
{
    let mut pairs: Vec<(String, SnapshotTask)> = Vec::new();
    let mut i: usize = 0;
    while i < tasks.len()
        invariant
            i <= tasks@.len(),
            entries_view(pairs@) =~= fetched_entries(tasks@.take(i as int)),
        decreases tasks@.len() - i,
    {
        let t = &tasks[i];
        let entry = SnapshotTask {
            id: t.id.clone(),
            content: t.content.clone(),
            project_id: t.project_id.clone(),
            section_id: clone_opt(&t.section_id),
            parent_id: clone_opt(&t.parent_id),
            checked: false,
            child_order: t.child_order,
            due: None,
        };
        let ghost before = pairs@;
        pairs.push((t.id.clone(), entry));
        assert(entries_view(pairs@) =~= entries_view(before).push((t.id@, snapshot_of(*t))));
        assert(tasks@.take(i + 1) =~= tasks@.take(i as int).push(*t));
        i = i + 1;
    }
    assert(tasks@.take(tasks@.len() as int) =~= tasks@);
    TaskMap::from_entries(pairs)
}

pub open spec fn nothing_active_message() -> Seq<char> {
    "# 🎉 No active tasks\n\nYour Todoist is empty — enjoy the peace!\n"@
}

/// What `fetch` prints: a notice when there are no active tasks, else the tagged outline
/// with projects in display order.
pub open spec fn fetch_text(projects: Seq<Project>, sections: Seq<Section>, tasks: Seq<Task>) -> Seq<
    char,
> {
    if tasks.len() == 0 {
        nothing_active_message()
    } else {
        outline(Style::Tagged, sort_by_order(projects), sections, tasks)
    }
}

/// What `fetch` prints: a notice when there are no active tasks, else the tagged outline
/// with projects in display order.
pub fn fetch_output(projects: &[Project], sections: &[Section], tasks: &[Task]) -> (r: String)
    ensures
        r@ == fetch_text(projects@, sections@, tasks@),
{
    if tasks.len() == 0 {
        return String::from_str("# 🎉 No active tasks\n\nYour Todoist is empty — enjoy the peace!\n");
    }
    let all = all_indices(projects.len());
    assert(pick(projects@, all@) =~= projects@);
    let porder = sort_indices(projects, &all);
    render_outline(Style::Tagged, projects, &porder, sections, tasks)
}

} // verus!
