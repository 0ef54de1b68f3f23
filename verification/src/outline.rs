//! The project → section → task outline, as Markdown.
//!
//! Tasks become `- [ ] ` lines, subtasks indented four spaces per level. In the plain style
//! projects are `# ` headings and their sections `## ` headings. The tagged style, which the
//! buffer reader reads back, uses `## ` and `### ` and appends the Todoist ids as
//! `<!-- project:ID -->`, `<!-- section:ID -->` and `<!-- id:ID -->` comments.
use crate::models::{nonempty_key, ov, Project, Section, Task};
use vstd::prelude::*;
use vstd::string::*;

verus! {

/// Something listed by a display order.
pub trait Ordered {
    spec fn order_key(&self) -> i64;

    fn order(&self) -> (r: i64)
        ensures
            r == self.order_key(),
    ;
}

impl Ordered for Project {
    open spec fn order_key(&self) -> i64 {
        self.child_order
    }

    fn order(&self) -> (r: i64) {
        self.child_order
    }
}

impl Ordered for Section {
    open spec fn order_key(&self) -> i64 {
        self.section_order
    }

    fn order(&self) -> (r: i64) {
        self.section_order
    }
}

impl Ordered for Task {
    open spec fn order_key(&self) -> i64 {
        self.child_order
    }

    fn order(&self) -> (r: i64) {
        self.child_order
    }
}

/// The first index from `i` on whose order exceeds `k` (or `s.len()`).
pub open spec fn first_after<T: Ordered>(s: Seq<T>, k: i64, i: int) -> int
    decreases s.len() - i,
{
    if 0 <= i < s.len() && s[i].order_key() <= k {
        first_after(s, k, i + 1)
    } else {
        i
    }
}

/// `x` placed after every element of the (ordered) `s` that does not come after it.
pub open spec fn insert_in_order<T: Ordered>(s: Seq<T>, x: T) -> Seq<T> {
    s.insert(first_after(s, x.order_key(), 0), x)
}

/// `s` sorted by order, elements of equal order keeping their relative positions
/// (what `sort_by_key` on the order does).
pub open spec fn sort_by_order<T: Ordered>(s: Seq<T>) -> Seq<T>
    decreases s.len(),
{
    if s.len() == 0 {
        s
    } else {
        insert_in_order(sort_by_order(s.drop_last()), s.last())
    }
}

proof fn lemma_first_after_bounds<T: Ordered>(s: Seq<T>, k: i64, i: int)
    requires
        0 <= i <= s.len(),
    ensures
        i <= first_after(s, k, i) <= s.len(),
    decreases s.len() - i,
{
    if i < s.len() && s[i].order_key() <= k {
        lemma_first_after_bounds(s, k, i + 1);
    }
}

pub open spec fn pick<T>(v: Seq<T>, idx: Seq<usize>) -> Seq<T> {
    idx.map_values(|i: usize| v[i as int])
}

/// The positions `sel` of `v`, reordered as sorting those elements by order would.
pub fn sort_indices<T: Ordered>(v: &[T], sel: &Vec<usize>) -> (r: Vec<usize>)
    requires
        forall|i: int| 0 <= i < sel@.len() ==> #[trigger] sel@[i] < v@.len(),
    ensures
        r@.len() == sel@.len(),
        forall|i: int| 0 <= i < r@.len() ==> #[trigger] r@[i] < v@.len(),
        pick(v@, r@) == sort_by_order(pick(v@, sel@)),
{
    let ghost src = pick(v@, sel@);
    let mut r: Vec<usize> = Vec::new();
    let mut k: usize = 0;
    assert(src.take(0) =~= Seq::<T>::empty());
    while k < sel.len()
        invariant
            src == pick(v@, sel@),
            forall|i: int| 0 <= i < sel@.len() ==> #[trigger] sel@[i] < v@.len(),
            k <= sel@.len(),
            r@.len() == k,
            forall|i: int| 0 <= i < r@.len() ==> #[trigger] r@[i] < v@.len(),
            pick(v@, r@) == sort_by_order(src.take(k as int)),
        decreases sel@.len() - k,
    {
        let x = sel[k];
        let key = v[x].order();
        let ghost cur = pick(v@, r@);
        let mut p: usize = 0;
        while p < r.len() && v[r[p]].order() <= key
            invariant
                cur == pick(v@, r@),
                forall|i: int| 0 <= i < r@.len() ==> #[trigger] r@[i] < v@.len(),
                p <= r@.len(),
                first_after(cur, key, 0) == first_after(cur, key, p as int),
            decreases r@.len() - p,
        {
            assert(cur[p as int] == v@[r@[p as int] as int]);
            p = p + 1;
        }
        proof {
            if p < r@.len() {
                assert(cur[p as int] == v@[r@[p as int] as int]);
            }
            lemma_first_after_bounds(cur, key, 0);
        }
        r.insert(p, x);
        proof {
            assert(pick(v@, r@) =~= cur.insert(p as int, v@[x as int]));
            assert(src.take(k + 1).drop_last() =~= src.take(k as int));
            assert(src.take(k + 1).last() == v@[x as int]);
        }
        k = k + 1;
    }
    assert(src.take(sel@.len() as int) =~= src);
    r
}

/// `0, 1, ..., n - 1`.
pub fn all_indices(n: usize) -> (r: Vec<usize>)
    ensures
        r@.len() == n,
        forall|i: int| 0 <= i < n ==> #[trigger] r@[i] == i,
{
    let mut r: Vec<usize> = Vec::new();
    let mut i: usize = 0;
    while i < n
        invariant
            i <= n,
            r@.len() == i,
            forall|j: int| 0 <= j < i ==> #[trigger] r@[j] == j,
        decreases n - i,
    {
        r.push(i);
        i = i + 1;
    }
    r
}

/// Whether to append the Todoist ids as comments.
#[derive(Clone, Copy, PartialEq, Eq, Structural)]
pub enum Style {
    Tagged,
    Plain,
}

/// Four spaces per level.
pub open spec fn indent(d: nat) -> Seq<char> {
    Seq::new(4 * d, |i: int| ' ')
}

pub open spec fn task_line(style: Style, t: Task, d: nat) -> Seq<char> {
    match style {
        Style::Tagged => indent(d) + "- [ ] "@ + t.content@ + " <!-- id:"@ + t.id@ + " -->\n"@,
        Style::Plain => indent(d) + "- [ ] "@ + t.content@ + "\n"@,
    }
}

pub open spec fn project_heading(style: Style, p: Project) -> Seq<char> {
    match style {
        Style::Tagged => "## "@ + p.name@ + " <!-- project:"@ + p.id@ + " -->\n\n"@,
        Style::Plain => "# "@ + p.name@ + "\n\n"@,
    }
}

pub open spec fn section_heading(style: Style, s: Section) -> Seq<char> {
    match style {
        Style::Tagged => "### "@ + s.name@ + " <!-- section:"@ + s.id@ + " -->\n\n"@,
        Style::Plain => "## "@ + s.name@ + "\n\n"@,
    }
}

/// `c` is a subtask of the task with id `id`.
pub open spec fn is_child_of(c: Task, id: Seq<char>) -> bool {
    nonempty_key(ov(c.parent_id)) == Some(id)
}

/// Task `t` at depth `d`, then its subtasks (in `ts` order) one level deeper. `fuel` bounds
/// the nesting: with `ts.len()` of it, any task forest is rendered whole.
pub open spec fn subtree(style: Style, ts: Seq<Task>, t: Task, d: nat, fuel: nat) -> Seq<char>
    decreases fuel, 0int, 0int,
{
    task_line(style, t, d) + if fuel == 0 {
        Seq::empty()
    } else {
        children_block(style, ts, t.id@, d + 1, (fuel - 1) as nat, ts.len() as int)
    }
}

/// The subtrees of the subtasks of `id` among the first `k` tasks of `ts`.
pub open spec fn children_block(
    style: Style,
    ts: Seq<Task>,
    id: Seq<char>,
    d: nat,
    fuel: nat,
    k: int,
) -> Seq<char>
    decreases fuel, 1int, k,
{
    if k <= 0 {
        Seq::empty()
    } else {
        children_block(style, ts, id, d, fuel, k - 1) + if is_child_of(ts[k - 1], id) {
            subtree(style, ts, ts[k - 1], d, fuel)
        } else {
            Seq::empty()
        }
    }
}

/// A top-level task (no parent) of project `pid` in section `sk` (`None`: no section).
pub open spec fn in_group(t: Task, pid: Seq<char>, sk: Option<Seq<char>>) -> bool {
    &&& nonempty_key(ov(t.parent_id)) is None
    &&& t.project_id@ == pid
    &&& nonempty_key(ov(t.section_id)) == sk
}

pub open spec fn has_group(ts: Seq<Task>, pid: Seq<char>, sk: Option<Seq<char>>) -> bool {
    exists|j: int| 0 <= j < ts.len() && in_group(#[trigger] ts[j], pid, sk)
}

/// The project has a top-level task.
pub open spec fn has_project_tasks(ts: Seq<Task>, pid: Seq<char>) -> bool {
    exists|j: int|
        0 <= j < ts.len() && nonempty_key(ov((#[trigger] ts[j]).parent_id)) is None && ts[j].project_id@
            == pid
}

/// The subtrees of the group's tasks among the first `k` of `ts`.
pub open spec fn group_block(
    style: Style,
    ts: Seq<Task>,
    pid: Seq<char>,
    sk: Option<Seq<char>>,
    fuel: nat,
    k: int,
) -> Seq<char>
    decreases k,
{
    if k <= 0 {
        Seq::empty()
    } else {
        group_block(style, ts, pid, sk, fuel, k - 1) + if in_group(ts[k - 1], pid, sk) {
            subtree(style, ts, ts[k - 1], 0, fuel)
        } else {
            Seq::empty()
        }
    }
}

/// The sections of project `pid` among the first `k` sections.
pub open spec fn sections_of(sections: Seq<Section>, pid: Seq<char>, k: int) -> Seq<Section>
    decreases k,
{
    if k <= 0 {
        Seq::empty()
    } else if sections[k - 1].project_id@ == pid {
        sections_of(sections, pid, k - 1).push(sections[k - 1])
    } else {
        sections_of(sections, pid, k - 1)
    }
}

/// The first `k` sections of `secs` that hold top-level tasks of `pid`, each with its tasks.
pub open spec fn sections_block(
    style: Style,
    ts: Seq<Task>,
    secs: Seq<Section>,
    pid: Seq<char>,
    fuel: nat,
    k: int,
) -> Seq<char>
    decreases k,
{
    if k <= 0 {
        Seq::empty()
    } else {
        let s = secs[k - 1];
        sections_block(style, ts, secs, pid, fuel, k - 1) + if has_group(ts, pid, Some(s.id@)) {
            section_heading(style, s) + group_block(style, ts, pid, Some(s.id@), fuel, ts.len() as int)
                + "\n"@
        } else {
            Seq::empty()
        }
    }
}

/// A project with top-level tasks: its heading, its tasks outside sections, then its sections
/// in section order. A project without top-level tasks renders as nothing.
pub open spec fn project_block(
    style: Style,
    ts: Seq<Task>,
    sections: Seq<Section>,
    p: Project,
    fuel: nat,
) -> Seq<char> {
    let pid = p.id@;
    let secs = sort_by_order(sections_of(sections, pid, sections.len() as int));
    if !has_project_tasks(ts, pid) {
        Seq::empty()
    } else {
        project_heading(style, p) + (if has_group(ts, pid, None) {
            group_block(style, ts, pid, None, fuel, ts.len() as int) + "\n"@
        } else {
            Seq::empty()
        }) + sections_block(style, ts, secs, pid, fuel, secs.len() as int)
    }
}

/// The blocks of the first `k` projects.
pub open spec fn outline_body(
    style: Style,
    projects: Seq<Project>,
    sections: Seq<Section>,
    ts: Seq<Task>,
    fuel: nat,
    k: int,
) -> Seq<char>
    decreases k,
{
    if k <= 0 {
        Seq::empty()
    } else {
        outline_body(style, projects, sections, ts, fuel, k - 1) + project_block(
            style,
            ts,
            sections,
            projects[k - 1],
            fuel,
        )
    }
}

pub open spec fn all_empty_message() -> Seq<char> {
    "# No active tasks\n\nAll projects appear to be empty.\n"@
}

/// The outline of `projects` in the given order, their sections and tasks (tasks in display
/// order), or a notice when no project has a task.
pub open spec fn outline(
    style: Style,
    projects: Seq<Project>,
    sections: Seq<Section>,
    tasks: Seq<Task>,
) -> Seq<char> {
    let body = outline_body(
        style,
        projects,
        sections,
        sort_by_order(tasks),
        tasks.len() as nat,
        projects.len() as int,
    );
    if body.len() == 0 {
        all_empty_message()
    } else {
        body
    }
}


pub open spec fn ovr(o: Option<&String>) -> Option<Seq<char>> {
    match o {
        Some(s) => Some(s@),
        None => None,
    }
}

fn push_indent(out: &mut String, d: usize)
    ensures
        final(out)@ == old(out)@ + indent(d as nat),
{
    let mut i: usize = 0;
    while i < d
        invariant
            i <= d,
            out@ =~= old(out)@ + indent(i as nat),
        decreases d - i,
    {
        let four = "    ";
        proof {
            reveal_strlit("    ");
        }
        out.append(four);
        assert(out@ =~= old(out)@ + indent((i + 1) as nat));
        i = i + 1;
    }
}

fn push_task_line(out: &mut String, style: Style, t: &Task, d: usize)
    ensures
        final(out)@ == old(out)@ + task_line(style, *t, d as nat),
{
    push_indent(out, d);
    out.append("- [ ] ");
    out.append(t.content.as_str());
    match style {
        Style::Tagged => {
            out.append(" <!-- id:");
            out.append(t.id.as_str());
            out.append(" -->\n");
        },
        Style::Plain => {
            out.append("\n");
        },
    }
    assert(out@ =~= old(out)@ + task_line(style, *t, d as nat));
}

fn child_of(c: &Task, id: &String) -> (r: bool)
    ensures
        r == is_child_of(*c, id@),
{
    match &c.parent_id {
        Some(p) => !p.as_str().is_empty() && *p == *id,
        None => false,
    }
}

/// Appends task `t` at depth `d` and, `fuel` permitting, its subtasks below it.
pub fn push_tree(
    out: &mut String,
    style: Style,
    tasks: &[Task],
    order: &Vec<usize>,
    t: &Task,
    d: usize,
    fuel: usize,
)
    requires
        forall|i: int| 0 <= i < order@.len() ==> #[trigger] order@[i] < tasks@.len(),
        d + fuel <= usize::MAX,
    ensures
        final(out)@ == old(out)@ + subtree(style, pick(tasks@, order@), *t, d as nat, fuel as nat),
    decreases fuel,
{
    let ghost ts = pick(tasks@, order@);
    push_task_line(out, style, t, d);
    if fuel == 0 {
        assert(out@ =~= old(out)@ + subtree(style, ts, *t, d as nat, fuel as nat));
        return ;
    }
    let ghost line_end = out@;
    let mut k: usize = 0;
    while k < order.len()
        invariant
            ts == pick(tasks@, order@),
            forall|i: int| 0 <= i < order@.len() ==> #[trigger] order@[i] < tasks@.len(),
            d + fuel <= usize::MAX,
            fuel > 0,
            k <= order@.len(),
            out@ == line_end + children_block(
                style,
                ts,
                t.id@,
                (d + 1) as nat,
                (fuel - 1) as nat,
                k as int,
            ),
        decreases order@.len() - k,
    {
        let c = &tasks[order[k]];
        assert(*c == ts[k as int]);
        let ghost before = out@;
        if child_of(c, &t.id) {
            push_tree(out, style, tasks, order, c, d + 1, fuel - 1);
        }
        assert(out@ =~= line_end + children_block(
            style,
            ts,
            t.id@,
            (d + 1) as nat,
            (fuel - 1) as nat,
            k + 1,
        ));
        k = k + 1;
    }
    assert(out@ =~= old(out)@ + subtree(style, ts, *t, d as nat, fuel as nat));
}

fn task_in_group(t: &Task, pid: &String, sk: Option<&String>) -> (r: bool)
    ensures
        r == in_group(*t, pid@, ovr(sk)),
{
    let top = match &t.parent_id {
        Some(p) => p.as_str().is_empty(),
        None => true,
    };
    let same_section = match (&t.section_id, sk) {
        (Some(a), Some(b)) => !a.as_str().is_empty() && *a == *b,
        (Some(a), None) => a.as_str().is_empty(),
        (None, Some(_)) => false,
        (None, None) => true,
    };
    top && t.project_id == *pid && same_section
}

fn group_exists(tasks: &[Task], order: &Vec<usize>, pid: &String, sk: Option<&String>) -> (r: bool)
    requires
        forall|i: int| 0 <= i < order@.len() ==> #[trigger] order@[i] < tasks@.len(),
    ensures
        r == has_group(pick(tasks@, order@), pid@, ovr(sk)),
{
    let ghost ts = pick(tasks@, order@);
    let mut k: usize = 0;
    while k < order.len()
        invariant
            ts == pick(tasks@, order@),
            forall|i: int| 0 <= i < order@.len() ==> #[trigger] order@[i] < tasks@.len(),
            k <= order@.len(),
            forall|j: int| 0 <= j < k ==> !in_group(#[trigger] ts[j], pid@, ovr(sk)),
        decreases order@.len() - k,
    {
        assert(tasks@[order@[k as int] as int] == ts[k as int]);
        if task_in_group(&tasks[order[k]], pid, sk) {
            return true;
        }
        k = k + 1;
    }
    false
}

fn project_has_tasks(tasks: &[Task], order: &Vec<usize>, pid: &String) -> (r: bool)
    requires
        forall|i: int| 0 <= i < order@.len() ==> #[trigger] order@[i] < tasks@.len(),
    ensures
        r == has_project_tasks(pick(tasks@, order@), pid@),
{
    let ghost ts = pick(tasks@, order@);
    let mut k: usize = 0;
    while k < order.len()
        invariant
            ts == pick(tasks@, order@),
            forall|i: int| 0 <= i < order@.len() ==> #[trigger] order@[i] < tasks@.len(),
            k <= order@.len(),
            forall|j: int|
                0 <= j < k ==> !(nonempty_key(ov((#[trigger] ts[j]).parent_id)) is None
                    && ts[j].project_id@ == pid@),
        decreases order@.len() - k,
    {
        let t = &tasks[order[k]];
        assert(*t == ts[k as int]);
        let top = match &t.parent_id {
            Some(p) => p.as_str().is_empty(),
            None => true,
        };
        if top && t.project_id == *pid {
            return true;
        }
        k = k + 1;
    }
    false
}

fn push_group(
    out: &mut String,
    style: Style,
    tasks: &[Task],
    order: &Vec<usize>,
    pid: &String,
    sk: Option<&String>,
)
    requires
        forall|i: int| 0 <= i < order@.len() ==> #[trigger] order@[i] < tasks@.len(),
        order@.len() == tasks@.len(),
    ensures
        final(out)@ == old(out)@ + group_block(
            style,
            pick(tasks@, order@),
            pid@,
            ovr(sk),
            tasks@.len() as nat,
            tasks@.len() as int,
        ),
{
    let ghost ts = pick(tasks@, order@);
    let n = tasks.len();
    let mut k: usize = 0;
    while k < order.len()
        invariant
            ts == pick(tasks@, order@),
            forall|i: int| 0 <= i < order@.len() ==> #[trigger] order@[i] < tasks@.len(),
            order@.len() == n,
            n == tasks@.len(),
            k <= n,
            out@ == old(out)@ + group_block(style, ts, pid@, ovr(sk), n as nat, k as int),
        decreases n - k,
    {
        let t = &tasks[order[k]];
        assert(*t == ts[k as int]);
        if task_in_group(t, pid, sk) {
            push_tree(out, style, tasks, order, t, 0, n);
        }
        assert(out@ =~= old(out)@ + group_block(style, ts, pid@, ovr(sk), n as nat, k + 1));
        k = k + 1;
    }
}

/// Positions of the sections of project `pid`, in list order.
fn sections_for(sections: &[Section], pid: &String) -> (r: Vec<usize>)
    ensures
        forall|i: int| 0 <= i < r@.len() ==> #[trigger] r@[i] < sections@.len(),
        pick(sections@, r@) == sections_of(sections@, pid@, sections@.len() as int),
{
    let mut r: Vec<usize> = Vec::new();
    let mut k: usize = 0;
    while k < sections.len()
        invariant
            k <= sections@.len(),
            forall|i: int| 0 <= i < r@.len() ==> #[trigger] r@[i] < sections@.len(),
            pick(sections@, r@) == sections_of(sections@, pid@, k as int),
        decreases sections@.len() - k,
    {
        if sections[k].project_id == *pid {
            let ghost before = r@;
            r.push(k);
            assert(pick(sections@, r@) =~= pick(sections@, before).push(sections@[k as int]));
        }
        k = k + 1;
    }
    r
}

fn push_project(
    out: &mut String,
    style: Style,
    p: &Project,
    sections: &[Section],
    tasks: &[Task],
    order: &Vec<usize>,
)
    requires
        forall|i: int| 0 <= i < order@.len() ==> #[trigger] order@[i] < tasks@.len(),
        order@.len() == tasks@.len(),
    ensures
        final(out)@ == old(out)@ + project_block(
            style,
            pick(tasks@, order@),
            sections@,
            *p,
            tasks@.len() as nat,
        ),
{
    let ghost ts = pick(tasks@, order@);
    let ghost fuel = tasks@.len() as nat;
    let pid = &p.id;
    if !project_has_tasks(tasks, order, pid) {
        assert(out@ =~= old(out)@ + project_block(style, ts, sections@, *p, fuel));
        return ;
    }
    match style {
        Style::Tagged => {
            out.append("## ");
            out.append(p.name.as_str());
            out.append(" <!-- project:");
            out.append(p.id.as_str());
            out.append(" -->\n\n");
        },
        Style::Plain => {
            out.append("# ");
            out.append(p.name.as_str());
            out.append("\n\n");
        },
    }
    let ghost after_heading = out@;
    assert(after_heading =~= old(out)@ + project_heading(style, *p));
    if group_exists(tasks, order, pid, None) {
        push_group(out, style, tasks, order, pid, None);
        out.append("\n");
    }
    let ghost after_loose = out@;
    let sel = sections_for(sections, pid);
    let secs = sort_indices(sections, &sel);
    let ghost sv = pick(sections@, secs@);
    let mut k: usize = 0;
    while k < secs.len()
        invariant
            ts == pick(tasks@, order@),
            sv == pick(sections@, secs@),
            fuel == tasks@.len() as nat,
            forall|i: int| 0 <= i < order@.len() ==> #[trigger] order@[i] < tasks@.len(),
            forall|i: int| 0 <= i < secs@.len() ==> #[trigger] secs@[i] < sections@.len(),
            order@.len() == tasks@.len(),
            k <= secs@.len(),
            out@ == after_loose + sections_block(style, ts, sv, pid@, fuel, k as int),
        decreases secs@.len() - k,
    {
        let s = &sections[secs[k]];
        assert(*s == sv[k as int]);
        let ghost before = out@;
        if group_exists(tasks, order, pid, Some(&s.id)) {
            match style {
                Style::Tagged => {
                    out.append("### ");
                    out.append(s.name.as_str());
                    out.append(" <!-- section:");
                    out.append(s.id.as_str());
                    out.append(" -->\n\n");
                },
                Style::Plain => {
                    out.append("## ");
                    out.append(s.name.as_str());
                    out.append("\n\n");
                },
            }
            assert(out@ =~= before + section_heading(style, *s));
            let ghost mid = out@;
            push_group(out, style, tasks, order, pid, Some(&s.id));
            let ghost g = out@;
            assert(ts.len() == tasks@.len());
            assert(g == mid + group_block(style, ts, pid@, Some(s.id@), fuel, ts.len() as int));
            out.append("\n");
            assert(out@ =~= before + (section_heading(style, *s) + group_block(
                style,
                ts,
                pid@,
                Some(s.id@),
                fuel,
                ts.len() as int,
            ) + "\n"@));
        }
        assert(out@ =~= after_loose + sections_block(style, ts, sv, pid@, fuel, k + 1));
        k = k + 1;
    }
    assert(out@ =~= old(out)@ + project_block(style, ts, sections@, *p, fuel));
}

/// The outline of the projects at positions `porder` (in that order), with their sections
/// and tasks.
pub fn render_outline(
    style: Style,
    projects: &[Project],
    porder: &Vec<usize>,
    sections: &[Section],
    tasks: &[Task],
) -> (r: String)
    requires
        forall|i: int| 0 <= i < porder@.len() ==> #[trigger] porder@[i] < projects@.len(),
    ensures
        r@ == outline(style, pick(projects@, porder@), sections@, tasks@),
{
    let all = all_indices(tasks.len());
    assert(pick(tasks@, all@) =~= tasks@);
    let order = sort_indices(tasks, &all);
    let ghost ts = pick(tasks@, order@);
    let ghost ps = pick(projects@, porder@);
    let mut out = String::new();
    let mut k: usize = 0;
    while k < porder.len()
        invariant
            ts == pick(tasks@, order@),
            ps == pick(projects@, porder@),
            ts == sort_by_order(tasks@),
            forall|i: int| 0 <= i < order@.len() ==> #[trigger] order@[i] < tasks@.len(),
            forall|i: int| 0 <= i < porder@.len() ==> #[trigger] porder@[i] < projects@.len(),
            order@.len() == tasks@.len(),
            k <= porder@.len(),
            out@ == outline_body(style, ps, sections@, ts, tasks@.len() as nat, k as int),
        decreases porder@.len() - k,
    {
        let p = &projects[porder[k]];
        assert(*p == ps[k as int]);
        push_project(&mut out, style, p, sections, tasks, &order);
        k = k + 1;
    }
    if out.as_str().is_empty() {
        let msg = String::from_str("# No active tasks\n\nAll projects appear to be empty.\n");
        return msg;
    }
    out
}


/// No element comes before one of smaller order.
pub open spec fn in_order<T: Ordered>(s: Seq<T>) -> bool {
    forall|i: int, j: int| 0 <= i < j < s.len() ==> #[trigger] s[i].order_key() <= #[trigger] s[j].order_key()
}

proof fn lemma_first_after_split<T: Ordered>(s: Seq<T>, k: i64, i: int)
    requires
        0 <= i <= s.len(),
        forall|m: int| 0 <= m < i ==> #[trigger] s[m].order_key() <= k,
    ensures
        forall|m: int| 0 <= m < first_after(s, k, i) ==> #[trigger] s[m].order_key() <= k,
        first_after(s, k, i) < s.len() ==> s[first_after(s, k, i)].order_key() > k,
        i <= first_after(s, k, i) <= s.len(),
    decreases s.len() - i,
{
    if i < s.len() && s[i].order_key() <= k {
        lemma_first_after_split(s, k, i + 1);
    }
}

/// Sorting by order leaves a sequence that is already in order as it is.
pub proof fn law_sort_keeps_ordered<T: Ordered>(s: Seq<T>)
    requires
        in_order(s),
    ensures
        sort_by_order(s) == s,
    decreases s.len(),
{
    if s.len() > 0 {
        let d = s.drop_last();
        let x = s.last();
        assert forall|i: int, j: int| 0 <= i < j < d.len() implies #[trigger] d[i].order_key()
            <= #[trigger] d[j].order_key() by {
            assert(d[i] == s[i] && d[j] == s[j]);
        }
        law_sort_keeps_ordered(d);
        assert forall|m: int| 0 <= m < d.len() implies #[trigger] d[m].order_key() <= x.order_key() by {
            assert(d[m] == s[m]);
        }
        lemma_first_after_split(d, x.order_key(), 0);
        assert(d.insert(d.len() as int, x) =~= s);
    }
}

/// Every element of the sorted sequence is an element of the unsorted one.
pub proof fn lemma_sort_members<T: Ordered>(s: Seq<T>)
    ensures
        forall|i: int|
            0 <= i < sort_by_order(s).len() ==> exists|j: int|
                0 <= j < s.len() && s[j] == #[trigger] sort_by_order(s)[i],
    decreases s.len(),
{
    if s.len() > 0 {
        let d = s.drop_last();
        let x = s.last();
        lemma_sort_members(d);
        law_sorted_in_order(d);
        let r = sort_by_order(d);
        let p = first_after(r, x.order_key(), 0);
        lemma_first_after_bounds(r, x.order_key(), 0);
        let out = r.insert(p, x);
        assert(sort_by_order(s) == out);
        assert forall|i: int| 0 <= i < out.len() implies exists|j: int|
            0 <= j < s.len() && s[j] == #[trigger] out[i] by {
            if i < p {
                assert(out[i] == r[i]);
                let j = choose|j: int| 0 <= j < d.len() && d[j] == r[i];
                assert(s[j] == d[j]);
            } else if i == p {
                assert(s[s.len() - 1] == out[i]);
            } else {
                assert(out[i] == r[i - 1]);
                let j = choose|j: int| 0 <= j < d.len() && d[j] == r[i - 1];
                assert(s[j] == d[j]);
            }
        }
    }
}

/// Sorting by order puts the elements in order, and keeps their number.
pub proof fn law_sorted_in_order<T: Ordered>(s: Seq<T>)
    ensures
        in_order(sort_by_order(s)),
        sort_by_order(s).len() == s.len(),
    decreases s.len(),
{
    if s.len() > 0 {
        let r = sort_by_order(s.drop_last());
        law_sorted_in_order(s.drop_last());
        let x = s.last();
        let k = x.order_key();
        lemma_first_after_split(r, k, 0);
        let p = first_after(r, k, 0);
        let out = r.insert(p, x);
        assert forall|i: int, j: int| 0 <= i < j < out.len() implies #[trigger] out[i].order_key()
            <= #[trigger] out[j].order_key() by {
            if j < p {
                assert(out[i] == r[i] && out[j] == r[j]);
            } else if j == p {
                assert(out[i] == r[i]);
            } else if i < p {
                assert(out[i] == r[i] && out[j] == r[j - 1]);
                if i < j - 1 {
                    assert(r[i].order_key() <= r[j - 1].order_key());
                }
            } else if i == p {
                assert(out[j] == r[j - 1]);
                assert(r[p].order_key() <= r[j - 1].order_key() || p == j - 1);
            } else {
                assert(out[i] == r[i - 1] && out[j] == r[j - 1]);
            }
        }
    }
}

} // verus!
