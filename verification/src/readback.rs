//! Reading a fetched page back: the tagged outline that `fetch` prints, split into its lines,
//! is what the buffer reader reads, and it gives back every rendered task with its id,
//! content, depth, project, section and parent.

use crate::fetch::{fetch_text, nothing_active_message};
use crate::models::{BufferTaskV, Project, Section, Task};
use crate::outline::{
    all_empty_message, children_block, group_block, has_group, has_project_tasks, in_group,
    is_child_of, lemma_sort_members, outline_body, project_block, project_heading,
    indent, section_heading, sections_block, sections_of, sort_by_order, subtree, task_line, Style,
};
use crate::parser::{
    close_pat, due_pat, comment_closes_after, comment_value_spec, first_token, h2_pat, h3_pat, h4_pat,
    is_h2_line, is_h3_line, is_task_line, last_at_most, law_rendered_task_line_reads_back,
    line_readable, nonws_run_from, open_pat, parent_of, parsed_tasks, project_key, read_back,
    rendered_line, scan_line, scan_lines, section_key, Scan,
};
use crate::text::{
    contains, find, find_from, is_ws, lemma_find_from_at, lemma_not_contains,
    lemma_trim_unchanged, occurs_at, starts_with, trim, trim_start, ws_back_from, ws_run_from,
};
use vstd::prelude::*;
use vstd::string::*;

verus! {

/// A heading line: `pre`, the name, then `<!-- KEY ID -->`.
pub open spec fn hline(pre: Seq<char>, name: Seq<char>, key: Seq<char>, id: Seq<char>) -> Seq<
    char,
> {
    pre + name + seq![' ', '<', '!', '-', '-', ' '] + key + id + seq![' ', '-', '-', '>']
}

/// A name and an id that a heading carries through the reader: the name holds no `<!--` and
/// no line break, the id is one word without `-->`.
pub open spec fn heading_ok(name: Seq<char>, id: Seq<char>) -> bool {
    &&& !contains(name, open_pat())
    &&& no_break(name)
    &&& id.len() > 0
    &&& forall|i: int| 0 <= i < id.len() ==> !is_ws(#[trigger] id[i])
    &&& !contains(id, close_pat())
}

proof fn lemma_one_word(id: Seq<char>, i: int)
    requires
        0 <= i <= id.len(),
        forall|k: int| 0 <= k < id.len() ==> !is_ws(#[trigger] id[k]),
    ensures
        nonws_run_from(id, i) == id.len(),
    decreases id.len() - i,
{
    if i < id.len() {
        lemma_one_word(id, i + 1);
    }
}

proof fn lemma_hline_chars(pre: Seq<char>, name: Seq<char>, key: Seq<char>, id: Seq<char>)
    ensures
        ({
            let line = hline(pre, name, key, id);
            let pl = pre.len() as int;
            let a = pl + name.len();
            let kl = key.len() as int;
            let e = a + 7 + kl + id.len();
            &&& line.len() == e + 3
            &&& forall|k: int| 0 <= k < pl ==> #[trigger] line[k] == pre[k]
            &&& forall|k: int| 0 <= k < name.len() ==> #[trigger] line[pl + k] == name[k]
            &&& line[a] == ' ' && line[a + 1] == '<' && line[a + 2] == '!' && line[a + 3] == '-'
            &&& line[a + 4] == '-' && line[a + 5] == ' '
            &&& forall|k: int| 0 <= k < kl ==> #[trigger] line[a + 6 + k] == key[k]
            &&& forall|k: int| 0 <= k < id.len() ==> #[trigger] line[a + 6 + kl + k] == id[k]
            &&& line[e - 1] == ' ' && line[e] == '-' && line[e + 1] == '-' && line[e + 2] == '>'
        }),
{
}

proof fn lemma_heading_kind(pre: Seq<char>, name: Seq<char>, key: Seq<char>, id: Seq<char>)
    requires
        pre == h2_pat() || pre == h3_pat(),
    ensures
        ({
            let line = hline(pre, name, key, id);
            &&& pre == h2_pat() ==> is_h2_line(line) && !is_h3_line(line)
            &&& pre == h3_pat() ==> !is_h2_line(line) && is_h3_line(line)
            &&& !starts_with(line, h4_pat())
        }),
{
    let line = hline(pre, name, key, id);
    lemma_hline_chars(pre, name, key, id);
    assert(line[0] == pre[0] && line[1] == pre[1] && line[2] == pre[2]);
    if pre == h3_pat() {
        assert(line[3] == pre[3]);
        assert(line.subrange(0, 4) =~= h3_pat());
    } else {
        assert(line.subrange(0, 3) =~= h2_pat());
    }
    assert(!occurs_at(line, h4_pat(), 0)) by {
        if occurs_at(line, h4_pat(), 0) {
            assert(line.subrange(0, 5)[2] == line[2]);
            assert(line.subrange(0, 5)[3] == line[3]);
        }
    }
    assert(pre == h2_pat() ==> !occurs_at(line, h3_pat(), 0)) by {
        if pre == h2_pat() && occurs_at(line, h3_pat(), 0) {
            assert(line.subrange(0, 4)[2] == line[2]);
        }
    }
    assert(pre == h3_pat() ==> !occurs_at(line, h2_pat(), 0)) by {
        if pre == h3_pat() && occurs_at(line, h2_pat(), 0) {
            assert(line.subrange(0, 3)[2] == line[2]);
        }
    }
}

proof fn lemma_heading_open(pre: Seq<char>, name: Seq<char>, key: Seq<char>, id: Seq<char>)
    requires
        pre == h2_pat() || pre == h3_pat(),
        !contains(name, open_pat()),
    ensures
        find(hline(pre, name, key, id), open_pat()) == Some(pre.len() + name.len() + 1int),
{
    let line = hline(pre, name, key, id);
    lemma_hline_chars(pre, name, key, id);
    let pl = pre.len() as int;
    let a = pl + name.len();
    let st = a + 1;
    assert(line.subrange(st, st + 4) =~= open_pat());
    assert forall|j: int| 0 <= j < st implies !occurs_at(line, open_pat(), j) by {
        if occurs_at(line, open_pat(), j) {
            let w = line.subrange(j, j + 4);
            assert(w[0] == line[j]);
            if j < pl {
                assert(line[j] == pre[j]);
            } else if j + 4 <= a {
                assert(name.subrange(j - pl, j - pl + 4) =~= w);
                lemma_not_contains(name, open_pat(), j - pl);
            } else {
                assert(line[a] == w[a - j]);
            }
        }
    }
    lemma_find_from_at(line, open_pat(), 0, st);
}

proof fn lemma_heading_close(pre: Seq<char>, name: Seq<char>, key: Seq<char>, id: Seq<char>)
    requires
        key == project_key() || key == section_key(),
        !contains(id, close_pat()),
    ensures
        find_from(hline(pre, name, key, id), close_pat(), pre.len() + name.len() + 1int) == Some(
            pre.len() + name.len() + 7int + key.len() + id.len(),
        ),
{
    let line = hline(pre, name, key, id);
    lemma_hline_chars(pre, name, key, id);
    let pl = pre.len() as int;
    let a = pl + name.len();
    let kl = key.len() as int;
    let il = id.len() as int;
    let st = a + 1;
    let e = a + 7 + kl + il;
    assert(forall|k: int| 0 <= k < kl ==> #[trigger] key[k] != '-');
    assert(line.subrange(e, e + 3) =~= close_pat());
    assert forall|j: int| st <= j < e implies !occurs_at(line, close_pat(), j) by {
        if occurs_at(line, close_pat(), j) {
            let w = line.subrange(j, j + 3);
            assert(w[0] == line[j] && w[1] == line[j + 1] && w[2] == line[j + 2]);
            if j <= a + 5 {
            } else if j < a + 6 + kl {
                assert(line[j] == key[j - a - 6]);
            } else if j + 3 <= a + 6 + kl + il {
                assert(id.subrange(j - a - 6 - kl, j - a - 3 - kl) =~= w);
                lemma_not_contains(id, close_pat(), j - a - 6 - kl);
            } else {
                assert(line[e - 1] == w[e - 1 - j]);
            }
        }
    }
    lemma_find_from_at(line, close_pat(), st, e);
}

proof fn lemma_heading_value(key: Seq<char>, id: Seq<char>)
    requires
        key == project_key() || key == section_key(),
        id.len() > 0,
        forall|i: int| 0 <= i < id.len() ==> !is_ws(#[trigger] id[i]),
    ensures
        ({
            let ki = key + id;
            &&& trim(seq![' '] + ki + seq![' ']) == ki
            &&& starts_with(ki, key)
            &&& first_token(trim(ki.skip(key.len() as int))) == Some(id)
        }),
{
    let kl = key.len() as int;
    let il = id.len() as int;
    let ki = key + id;
    assert(ki[0] == key[0]);
    assert(ki.last() == id[il - 1]);
    assert(!is_ws(id[il - 1]));
    lemma_trim_unchanged(ki);
    let tb = seq![' '] + ki + seq![' '];
    assert(tb[1] == ki[0]);
    assert(ws_run_from(tb, 1) == 1);
    assert(ws_run_from(tb, 0) == 1);
    assert(trim_start(tb) =~= ki + seq![' ']);
    let ts1 = ki + seq![' '];
    assert(ts1[ts1.len() - 2] == ki.last());
    assert(ws_back_from(ts1, ts1.len() - 1) == ts1.len() - 1);
    assert(ws_back_from(ts1, ts1.len() as int) == ts1.len() - 1);
    assert(ts1.take(ts1.len() - 1) =~= ki);
    assert(ki.subrange(0, kl) =~= key);
    assert(ki.skip(kl) =~= id);
    lemma_trim_unchanged(id);
    assert(ws_run_from(id, 0) == 0);
    lemma_one_word(id, 0);
    assert(id.subrange(0, il) =~= id);
}

proof fn lemma_heading(pre: Seq<char>, name: Seq<char>, key: Seq<char>, id: Seq<char>)
    requires
        pre == h2_pat() || pre == h3_pat(),
        key == project_key() || key == section_key(),
        heading_ok(name, id),
    ensures
        ({
            let line = hline(pre, name, key, id);
            &&& comment_closes_after(line, find(line, open_pat()))
            &&& comment_value_spec(line, key) == Some(id)
            &&& pre == h2_pat() ==> is_h2_line(line) && !is_h3_line(line)
            &&& pre == h3_pat() ==> !is_h2_line(line) && is_h3_line(line)
            &&& !starts_with(line, h4_pat())
        }),
{
    let line = hline(pre, name, key, id);
    lemma_heading_kind(pre, name, key, id);
    lemma_heading_open(pre, name, key, id);
    lemma_heading_close(pre, name, key, id);
    lemma_heading_value(key, id);
    let st = pre.len() + name.len() + 1int;
    let e = pre.len() + name.len() + 7int + key.len() + id.len();
    assert(line.subrange(st + 4, e) =~= seq![' '] + (key + id) + seq![' ']);
}


// ─── The lines of the fetched page ───────────────────────────────────────────────────────

/// Lines put back together, each ended by a line break.
pub open spec fn joined(ls: Seq<Seq<char>>) -> Seq<char>
    decreases ls.len(),
{
    if ls.len() == 0 {
        Seq::empty()
    } else {
        joined(ls.drop_last()) + ls.last() + seq!['\n']
    }
}

/// The heading line of a project in the tagged outline.
pub open spec fn project_line(p: Project) -> Seq<char> {
    hline(h2_pat(), p.name@, project_key(), p.id@)
}

/// The heading line of a section in the tagged outline.
pub open spec fn section_line(s: Section) -> Seq<char> {
    hline(h3_pat(), s.name@, section_key(), s.id@)
}

/// The lines of `subtree(Style::Tagged, ..)`.
pub open spec fn subtree_lines(ts: Seq<Task>, t: Task, d: nat, fuel: nat) -> Seq<Seq<char>>
    decreases fuel, 0int, 0int,
{
    seq![rendered_line(t, d)] + if fuel == 0 {
        Seq::empty()
    } else {
        children_lines(ts, t.id@, d + 1, (fuel - 1) as nat, ts.len() as int)
    }
}

/// The lines of `children_block(Style::Tagged, ..)`.
pub open spec fn children_lines(ts: Seq<Task>, id: Seq<char>, d: nat, fuel: nat, k: int) -> Seq<
    Seq<char>,
>
    decreases fuel, 1int, k,
{
    if k <= 0 {
        Seq::empty()
    } else {
        children_lines(ts, id, d, fuel, k - 1) + if is_child_of(ts[k - 1], id) {
            subtree_lines(ts, ts[k - 1], d, fuel)
        } else {
            Seq::empty()
        }
    }
}

/// The lines of `group_block(Style::Tagged, ..)`.
pub open spec fn group_lines(
    ts: Seq<Task>,
    pid: Seq<char>,
    sk: Option<Seq<char>>,
    fuel: nat,
    k: int,
) -> Seq<Seq<char>>
    decreases k,
{
    if k <= 0 {
        Seq::empty()
    } else {
        group_lines(ts, pid, sk, fuel, k - 1) + if in_group(ts[k - 1], pid, sk) {
            subtree_lines(ts, ts[k - 1], 0, fuel)
        } else {
            Seq::empty()
        }
    }
}

/// The lines of `sections_block(Style::Tagged, ..)`.
pub open spec fn sections_lines(
    ts: Seq<Task>,
    secs: Seq<Section>,
    pid: Seq<char>,
    fuel: nat,
    k: int,
) -> Seq<Seq<char>>
    decreases k,
{
    if k <= 0 {
        Seq::empty()
    } else {
        let s = secs[k - 1];
        sections_lines(ts, secs, pid, fuel, k - 1) + if has_group(ts, pid, Some(s.id@)) {
            seq![section_line(s), Seq::empty()] + group_lines(
                ts,
                pid,
                Some(s.id@),
                fuel,
                ts.len() as int,
            ) + seq![Seq::empty()]
        } else {
            Seq::empty()
        }
    }
}

/// The lines of `project_block(Style::Tagged, ..)`.
pub open spec fn project_lines(ts: Seq<Task>, sections: Seq<Section>, p: Project, fuel: nat) -> Seq<
    Seq<char>,
> {
    let pid = p.id@;
    let secs = sort_by_order(sections_of(sections, pid, sections.len() as int));
    if !has_project_tasks(ts, pid) {
        Seq::empty()
    } else {
        seq![project_line(p), Seq::empty()] + (if has_group(ts, pid, None) {
            group_lines(ts, pid, None, fuel, ts.len() as int) + seq![Seq::empty()]
        } else {
            Seq::empty()
        }) + sections_lines(ts, secs, pid, fuel, secs.len() as int)
    }
}

/// The lines of `outline_body(Style::Tagged, ..)`.
pub open spec fn body_lines(
    projects: Seq<Project>,
    sections: Seq<Section>,
    ts: Seq<Task>,
    fuel: nat,
    k: int,
) -> Seq<Seq<char>>
    decreases k,
{
    if k <= 0 {
        Seq::empty()
    } else {
        body_lines(projects, sections, ts, fuel, k - 1) + project_lines(
            ts,
            sections,
            projects[k - 1],
            fuel,
        )
    }
}

/// The lines of what `fetch` prints.
pub open spec fn fetch_lines(projects: Seq<Project>, sections: Seq<Section>, tasks: Seq<Task>) -> Seq<
    Seq<char>,
> {
    if tasks.len() == 0 {
        seq!["# 🎉 No active tasks"@, Seq::empty(), "Your Todoist is empty — enjoy the peace!"@]
    } else {
        let body = body_lines(
            sort_by_order(projects),
            sections,
            sort_by_order(tasks),
            tasks.len() as nat,
            projects.len() as int,
        );
        if body.len() == 0 {
            seq!["# No active tasks"@, Seq::empty(), "All projects appear to be empty."@]
        } else {
            body
        }
    }
}

// ─── The tasks read back ─────────────────────────────────────────────────────────────────

/// How the reader gives back task `t` rendered at depth `d` under project `pid`, section
/// `sk` and parent `parent` (line numbers left out).
pub open spec fn entry(
    t: Task,
    d: nat,
    pid: Seq<char>,
    sk: Option<Seq<char>>,
    parent: Option<Seq<char>>,
) -> BufferTaskV {
    BufferTaskV {
        id: Some(t.id@),
        content: t.content@,
        checked: false,
        indent_level: d,
        project_id: Some(pid),
        section_id: sk,
        parent_id: parent,
        line_num: 0,
        due: None,
    }
}

pub open spec fn subtree_tasks(
    ts: Seq<Task>,
    t: Task,
    d: nat,
    fuel: nat,
    pid: Seq<char>,
    sk: Option<Seq<char>>,
    parent: Option<Seq<char>>,
) -> Seq<BufferTaskV>
    decreases fuel, 0int, 0int,
{
    seq![entry(t, d, pid, sk, parent)] + if fuel == 0 {
        Seq::empty()
    } else {
        children_tasks(ts, t.id@, d + 1, (fuel - 1) as nat, ts.len() as int, pid, sk)
    }
}

pub open spec fn children_tasks(
    ts: Seq<Task>,
    id: Seq<char>,
    d: nat,
    fuel: nat,
    k: int,
    pid: Seq<char>,
    sk: Option<Seq<char>>,
) -> Seq<BufferTaskV>
    decreases fuel, 1int, k,
{
    if k <= 0 {
        Seq::empty()
    } else {
        children_tasks(ts, id, d, fuel, k - 1, pid, sk) + if is_child_of(ts[k - 1], id) {
            subtree_tasks(ts, ts[k - 1], d, fuel, pid, sk, Some(id))
        } else {
            Seq::empty()
        }
    }
}

pub open spec fn group_tasks(
    ts: Seq<Task>,
    pid: Seq<char>,
    sk: Option<Seq<char>>,
    fuel: nat,
    k: int,
) -> Seq<BufferTaskV>
    decreases k,
{
    if k <= 0 {
        Seq::empty()
    } else {
        group_tasks(ts, pid, sk, fuel, k - 1) + if in_group(ts[k - 1], pid, sk) {
            subtree_tasks(ts, ts[k - 1], 0, fuel, pid, sk, None)
        } else {
            Seq::empty()
        }
    }
}

pub open spec fn sections_tasks(
    ts: Seq<Task>,
    secs: Seq<Section>,
    pid: Seq<char>,
    fuel: nat,
    k: int,
) -> Seq<BufferTaskV>
    decreases k,
{
    if k <= 0 {
        Seq::empty()
    } else {
        let s = secs[k - 1];
        sections_tasks(ts, secs, pid, fuel, k - 1) + if has_group(ts, pid, Some(s.id@)) {
            group_tasks(ts, pid, Some(s.id@), fuel, ts.len() as int)
        } else {
            Seq::empty()
        }
    }
}

pub open spec fn project_tasks(ts: Seq<Task>, sections: Seq<Section>, p: Project, fuel: nat) -> Seq<
    BufferTaskV,
> {
    let pid = p.id@;
    let secs = sort_by_order(sections_of(sections, pid, sections.len() as int));
    if !has_project_tasks(ts, pid) {
        Seq::empty()
    } else {
        (if has_group(ts, pid, None) {
            group_tasks(ts, pid, None, fuel, ts.len() as int)
        } else {
            Seq::empty()
        }) + sections_tasks(ts, secs, pid, fuel, secs.len() as int)
    }
}

pub open spec fn body_tasks(
    projects: Seq<Project>,
    sections: Seq<Section>,
    ts: Seq<Task>,
    fuel: nat,
    k: int,
) -> Seq<BufferTaskV>
    decreases k,
{
    if k <= 0 {
        Seq::empty()
    } else {
        body_tasks(projects, sections, ts, fuel, k - 1) + project_tasks(
            ts,
            sections,
            projects[k - 1],
            fuel,
        )
    }
}

/// The tasks of the page `fetch` prints, in page order: for each project in display order,
/// its tasks outside sections, then each section's, every task followed by its subtasks.
pub open spec fn fetched_tasks(projects: Seq<Project>, sections: Seq<Section>, tasks: Seq<Task>) -> Seq<
    BufferTaskV,
> {
    if tasks.len() == 0 {
        Seq::empty()
    } else {
        body_tasks(
            sort_by_order(projects),
            sections,
            sort_by_order(tasks),
            tasks.len() as nat,
            projects.len() as int,
        )
    }
}

// ─── Scanning a run of lines ─────────────────────────────────────────────────────────────

/// The scan from `st` over `ls`, numbered from `n0`.
pub open spec fn scan_from(st: Scan, ls: Seq<Seq<char>>, n0: nat) -> Scan
    decreases ls.len(),
{
    if ls.len() == 0 {
        st
    } else {
        scan_line(scan_from(st, ls.drop_last(), n0), ls.last(), (n0 + ls.len() - 1) as nat)
    }
}

/// A task without its parent and line number.
pub open spec fn bare(t: BufferTaskV) -> BufferTaskV {
    BufferTaskV { parent_id: None, line_num: 0, ..t }
}

pub open spec fn bares(s: Seq<BufferTaskV>) -> Seq<BufferTaskV> {
    s.map_values(|t: BufferTaskV| bare(t))
}

/// Scanning from `st` to `r` added the tasks `e` (parents and line numbers aside).
pub open spec fn adds(st: Scan, r: Scan, e: Seq<BufferTaskV>) -> bool {
    bares(r.tasks) == bares(st.tasks) + bares(e)
}

/// `s` holds no line break.
pub open spec fn no_break(s: Seq<char>) -> bool {
    forall|i: int| 0 <= i < s.len() ==> s[i] != '\n'
}

/// Each line holds no line break, and the reader can read it.
pub open spec fn readable_lines(ls: Seq<Seq<char>>) -> bool {
    forall|i: int| 0 <= i < ls.len() ==> line_readable(#[trigger] ls[i]) && no_break(ls[i])
}

proof fn lemma_joined_add(a: Seq<Seq<char>>, b: Seq<Seq<char>>)
    ensures
        joined(a + b) == joined(a) + joined(b),
    decreases b.len(),
{
    if b.len() == 0 {
        assert(a + b =~= a);
        assert(joined(b) =~= Seq::<char>::empty());
        assert(joined(a) + joined(b) =~= joined(a));
    } else {
        lemma_joined_add(a, b.drop_last());
        assert((a + b).drop_last() =~= a + b.drop_last());
        assert((a + b).last() == b.last());
        assert(joined(a + b) =~= joined(a) + joined(b));
    }
}

proof fn lemma_scan_split(st: Scan, a: Seq<Seq<char>>, b: Seq<Seq<char>>, n0: nat)
    ensures
        scan_from(st, a + b, n0) == scan_from(scan_from(st, a, n0), b, n0 + a.len()),
    decreases b.len(),
{
    if b.len() == 0 {
        assert(a + b =~= a);
    } else {
        lemma_scan_split(st, a, b.drop_last(), n0);
        assert((a + b).drop_last() =~= a + b.drop_last());
        assert((a + b).last() == b.last());
    }
}

proof fn lemma_scan_lines_from(lines: Seq<Seq<char>>, k: int)
    requires
        0 <= k <= lines.len(),
    ensures
        scan_lines(lines, k) == scan_from(
            Scan { project: None, section: None, tasks: Seq::empty(), warnings: Seq::empty() },
            lines.take(k),
            1,
        ),
    decreases k,
{
    if k > 0 {
        lemma_scan_lines_from(lines, k - 1);
        assert(lines.take(k).drop_last() =~= lines.take(k - 1));
        assert(lines.take(k).last() == lines[k - 1]);
    }
}

proof fn lemma_adds_then(st: Scan, r1: Scan, r2: Scan, e1: Seq<BufferTaskV>, e2: Seq<BufferTaskV>)
    requires
        adds(st, r1, e1),
        adds(r1, r2, e2),
    ensures
        adds(st, r2, e1 + e2),
{
    assert(bares(e1 + e2) =~= bares(e1) + bares(e2));
    assert(bares(st.tasks) + bares(e1) + bares(e2) =~= bares(st.tasks) + (bares(e1) + bares(e2)));
}

proof fn lemma_adds_none(st: Scan)
    ensures
        adds(st, st, Seq::empty()),
{
    assert(bares(Seq::<BufferTaskV>::empty()) =~= Seq::<BufferTaskV>::empty());
    assert(bares(st.tasks) + Seq::<BufferTaskV>::empty() =~= bares(st.tasks));
}

proof fn lemma_readable_add(a: Seq<Seq<char>>, b: Seq<Seq<char>>)
    requires
        readable_lines(a),
        readable_lines(b),
    ensures
        readable_lines(a + b),
{
    assert forall|i: int| 0 <= i < (a + b).len() implies line_readable(#[trigger] (a + b)[i])
        && no_break((a + b)[i]) by {
        if i < a.len() {
            assert((a + b)[i] == a[i]);
        } else {
            assert((a + b)[i] == b[i - a.len()]);
        }
    }
}


/// A task that the reader gives back as rendered: content and id without whitespace at their
/// ends or line breaks, no `due:` in the content, no comment marker in the id.
pub open spec fn task_ok(t: Task) -> bool {
    &&& t.content@.len() > 0
    &&& !is_ws(t.content@[0])
    &&& !is_ws(t.content@.last())
    &&& !contains(t.content@, due_pat())
    &&& t.id@.len() == 0 || (!is_ws(t.id@[0]) && !is_ws(t.id@.last()))
    &&& !contains(t.id@, open_pat())
    &&& !contains(t.id@, close_pat())
    &&& no_break(t.content@)
    &&& no_break(t.id@)
}

pub open spec fn tasks_ok(ts: Seq<Task>) -> bool {
    forall|i: int| 0 <= i < ts.len() ==> task_ok(#[trigger] ts[i])
}

proof fn lemma_no_break_add(a: Seq<char>, b: Seq<char>)
    requires
        no_break(a),
        no_break(b),
    ensures
        no_break(a + b),
{
    assert forall|i: int| 0 <= i < (a + b).len() implies (a + b)[i] != '\n' by {
        if i < a.len() {
            assert((a + b)[i] == a[i]);
        } else {
            assert((a + b)[i] == b[i - a.len()]);
        }
    }
}

proof fn lemma_rendered_no_break(t: Task, d: nat)
    requires
        no_break(t.content@),
        no_break(t.id@),
    ensures
        no_break(rendered_line(t, d)),
{
    reveal_strlit("- [ ] ");
    reveal_strlit(" <!-- id:");
    reveal_strlit(" -->\n");
    let bx = crate::parser::box_pat(' ');
    let op = crate::parser::id_open();
    let cl = crate::parser::id_close();
    assert(rendered_line(t, d) =~= indent(d) + bx + t.content@ + op + t.id@ + cl);
    assert(no_break(indent(d)));
    assert(no_break(bx));
    assert(no_break(op));
    assert(no_break(cl));
    lemma_no_break_add(indent(d), bx);
    lemma_no_break_add(indent(d) + bx, t.content@);
    lemma_no_break_add(indent(d) + bx + t.content@, op);
    lemma_no_break_add(indent(d) + bx + t.content@ + op, t.id@);
    lemma_no_break_add(indent(d) + bx + t.content@ + op + t.id@, cl);
}

proof fn lemma_hline_no_break(pre: Seq<char>, name: Seq<char>, key: Seq<char>, id: Seq<char>)
    requires
        pre == h2_pat() || pre == h3_pat(),
        key == project_key() || key == section_key(),
        no_break(name),
        forall|i: int| 0 <= i < id.len() ==> !is_ws(#[trigger] id[i]),
    ensures
        no_break(hline(pre, name, key, id)),
{
    let m = seq![' ', '<', '!', '-', '-', ' '];
    let e = seq![' ', '-', '-', '>'];
    assert(no_break(pre));
    assert(no_break(m));
    assert(no_break(key));
    assert(no_break(id)) by {
        assert forall|i: int| 0 <= i < id.len() implies id[i] != '\n' by {
            assert(!is_ws(id[i]));
        }
    }
    assert(no_break(e));
    lemma_no_break_add(pre, name);
    lemma_no_break_add(pre + name, m);
    lemma_no_break_add(pre + name + m, key);
    lemma_no_break_add(pre + name + m + key, id);
    lemma_no_break_add(pre + name + m + key + id, e);
}

proof fn lemma_one_line(st: Scan, l: Seq<char>, n0: nat)
    ensures
        scan_from(st, seq![l], n0) == scan_line(st, l, n0),
{
    assert(seq![l].drop_last() =~= Seq::<Seq<char>>::empty());
    assert(scan_from(st, Seq::<Seq<char>>::empty(), n0) == st);
    assert(seq![l].last() == l);
    assert(seq![l].len() == 1);
}

proof fn lemma_task_scan(
    st: Scan,
    t: Task,
    d: nat,
    n: nat,
    pid: Seq<char>,
    sk: Option<Seq<char>>,
    parent: Option<Seq<char>>,
)
    requires
        st.project == Some(pid),
        st.section == sk,
        task_ok(t),
    ensures
        ({
            let r = scan_from(st, seq![rendered_line(t, d)], n);
            &&& r.project == st.project && r.section == st.section
            &&& adds(st, r, seq![entry(t, d, pid, sk, parent)])
            &&& readable_lines(seq![rendered_line(t, d)])
        }),
{
    lemma_one_line(st, rendered_line(t, d), n);
    law_rendered_task_line_reads_back(st, t, d, n);
    lemma_rendered_no_break(t, d);
    let r = scan_line(st, rendered_line(t, d), n);
    assert(bare(read_back(st, t, d, n)) == bare(entry(t, d, pid, sk, parent)));
    assert(bares(r.tasks) =~= bares(st.tasks) + bares(seq![entry(t, d, pid, sk, parent)]));
    assert(seq![rendered_line(t, d)][0] == rendered_line(t, d));
}

proof fn lemma_plain_line(st: Scan, l: Seq<char>, n: nat)
    requires
        l.len() == 0 || (l[0] != '#' && l[0] != '-' && !is_ws(l[0])),
        no_break(l),
    ensures
        scan_from(st, seq![l], n) == st,
        readable_lines(seq![l]),
{
    lemma_one_line(st, l, n);
    assert(!occurs_at(l, h2_pat(), 0)) by {
        if occurs_at(l, h2_pat(), 0) {
            assert(l.subrange(0, 3)[0] == l[0]);
        }
    }
    assert(!occurs_at(l, h3_pat(), 0)) by {
        if occurs_at(l, h3_pat(), 0) {
            assert(l.subrange(0, 4)[0] == l[0]);
        }
    }
    assert(!occurs_at(l, h4_pat(), 0)) by {
        if occurs_at(l, h4_pat(), 0) {
            assert(l.subrange(0, 5)[0] == l[0]);
        }
    }
    assert(ws_run_from(l, 0) == 0);
    assert(l.skip(0) =~= l);
    let t = trim_start(l);
    assert(!occurs_at(t, crate::parser::box_pat(' '), 0)) by {
        if occurs_at(t, crate::parser::box_pat(' '), 0) {
            assert(t.subrange(0, 6)[0] == t[0]);
        }
    }
    assert(!occurs_at(t, crate::parser::box_pat('x'), 0)) by {
        if occurs_at(t, crate::parser::box_pat('x'), 0) {
            assert(t.subrange(0, 6)[0] == t[0]);
        }
    }
    assert(!occurs_at(t, crate::parser::box_pat('X'), 0)) by {
        if occurs_at(t, crate::parser::box_pat('X'), 0) {
            assert(t.subrange(0, 6)[0] == t[0]);
        }
    }
    assert(!is_task_line(l));
    assert(seq![l][0] == l);
}

proof fn lemma_project_scan(st: Scan, p: Project, n: nat)
    requires
        heading_ok(p.name@, p.id@),
    ensures
        scan_from(st, seq![project_line(p)], n) == (Scan {
            project: Some(p.id@),
            section: None,
            ..st
        }),
        readable_lines(seq![project_line(p)]),
{
    lemma_one_line(st, project_line(p), n);
    lemma_heading(h2_pat(), p.name@, project_key(), p.id@);
    lemma_hline_no_break(h2_pat(), p.name@, project_key(), p.id@);
    assert(seq![project_line(p)][0] == project_line(p));
}

proof fn lemma_section_scan(st: Scan, s: Section, n: nat)
    requires
        heading_ok(s.name@, s.id@),
    ensures
        scan_from(st, seq![section_line(s)], n) == (Scan { section: Some(s.id@), ..st }),
        readable_lines(seq![section_line(s)]),
{
    lemma_one_line(st, section_line(s), n);
    lemma_heading(h3_pat(), s.name@, section_key(), s.id@);
    lemma_hline_no_break(h3_pat(), s.name@, section_key(), s.id@);
    assert(seq![section_line(s)][0] == section_line(s));
}


proof fn lemma_subtree_scan(
    ts: Seq<Task>,
    t: Task,
    d: nat,
    fuel: nat,
    pid: Seq<char>,
    sk: Option<Seq<char>>,
    parent: Option<Seq<char>>,
    st: Scan,
    n0: nat,
)
    requires
        tasks_ok(ts),
        task_ok(t),
        st.project == Some(pid),
        st.section == sk,
    ensures
        ({
            let ls = subtree_lines(ts, t, d, fuel);
            let r = scan_from(st, ls, n0);
            &&& r.project == st.project && r.section == st.section
            &&& adds(st, r, subtree_tasks(ts, t, d, fuel, pid, sk, parent))
            &&& readable_lines(ls)
        }),
    decreases fuel, 0int, 0int,
{
    let head = seq![rendered_line(t, d)];
    let rest = if fuel == 0 {
        Seq::empty()
    } else {
        children_lines(ts, t.id@, d + 1, (fuel - 1) as nat, ts.len() as int)
    };
    let rest_tasks = if fuel == 0 {
        Seq::empty()
    } else {
        children_tasks(ts, t.id@, d + 1, (fuel - 1) as nat, ts.len() as int, pid, sk)
    };
    lemma_scan_split(st, head, rest, n0);
    lemma_task_scan(st, t, d, n0, pid, sk, parent);
    let r1 = scan_from(st, head, n0);
    if fuel == 0 {
        assert(scan_from(r1, rest, n0 + 1) == r1);
        lemma_adds_none(r1);
        assert(readable_lines(rest));
    } else {
        lemma_children_scan(ts, t.id@, d + 1, (fuel - 1) as nat, ts.len() as int, pid, sk, r1, n0 + 1);
    }
    lemma_adds_then(st, r1, scan_from(r1, rest, n0 + 1), seq![entry(t, d, pid, sk, parent)], rest_tasks);
    lemma_readable_add(head, rest);
}

proof fn lemma_children_scan(
    ts: Seq<Task>,
    id: Seq<char>,
    d: nat,
    fuel: nat,
    k: int,
    pid: Seq<char>,
    sk: Option<Seq<char>>,
    st: Scan,
    n0: nat,
)
    requires
        tasks_ok(ts),
        k <= ts.len(),
        st.project == Some(pid),
        st.section == sk,
    ensures
        ({
            let ls = children_lines(ts, id, d, fuel, k);
            let r = scan_from(st, ls, n0);
            &&& r.project == st.project && r.section == st.section
            &&& adds(st, r, children_tasks(ts, id, d, fuel, k, pid, sk))
            &&& readable_lines(ls)
        }),
    decreases fuel, 1int, k,
{
    if k <= 0 {
        lemma_adds_none(st);
    } else {
        let prev = children_lines(ts, id, d, fuel, k - 1);
        let sub = if is_child_of(ts[k - 1], id) {
            subtree_lines(ts, ts[k - 1], d, fuel)
        } else {
            Seq::empty()
        };
        let sub_tasks = if is_child_of(ts[k - 1], id) {
            subtree_tasks(ts, ts[k - 1], d, fuel, pid, sk, Some(id))
        } else {
            Seq::empty()
        };
        lemma_children_scan(ts, id, d, fuel, k - 1, pid, sk, st, n0);
        lemma_scan_split(st, prev, sub, n0);
        let r1 = scan_from(st, prev, n0);
        if is_child_of(ts[k - 1], id) {
            assert(task_ok(ts[k - 1]));
            lemma_subtree_scan(ts, ts[k - 1], d, fuel, pid, sk, Some(id), r1, n0 + prev.len());
        } else {
            lemma_adds_none(r1);
        }
        lemma_adds_then(st, r1, scan_from(r1, sub, n0 + prev.len()), children_tasks(ts, id, d, fuel, k - 1, pid, sk), sub_tasks);
        lemma_readable_add(prev, sub);
    }
}

proof fn lemma_group_scan(
    ts: Seq<Task>,
    pid: Seq<char>,
    sk: Option<Seq<char>>,
    fuel: nat,
    k: int,
    st: Scan,
    n0: nat,
)
    requires
        tasks_ok(ts),
        k <= ts.len(),
        st.project == Some(pid),
        st.section == sk,
    ensures
        ({
            let ls = group_lines(ts, pid, sk, fuel, k);
            let r = scan_from(st, ls, n0);
            &&& r.project == st.project && r.section == st.section
            &&& adds(st, r, group_tasks(ts, pid, sk, fuel, k))
            &&& readable_lines(ls)
        }),
    decreases k,
{
    if k <= 0 {
        lemma_adds_none(st);
    } else {
        let prev = group_lines(ts, pid, sk, fuel, k - 1);
        let sub = if in_group(ts[k - 1], pid, sk) {
            subtree_lines(ts, ts[k - 1], 0, fuel)
        } else {
            Seq::empty()
        };
        let sub_tasks = if in_group(ts[k - 1], pid, sk) {
            subtree_tasks(ts, ts[k - 1], 0, fuel, pid, sk, None)
        } else {
            Seq::empty()
        };
        lemma_group_scan(ts, pid, sk, fuel, k - 1, st, n0);
        lemma_scan_split(st, prev, sub, n0);
        let r1 = scan_from(st, prev, n0);
        if in_group(ts[k - 1], pid, sk) {
            assert(task_ok(ts[k - 1]));
            lemma_subtree_scan(ts, ts[k - 1], 0, fuel, pid, sk, None, r1, n0 + prev.len());
        } else {
            lemma_adds_none(r1);
        }
        lemma_adds_then(st, r1, scan_from(r1, sub, n0 + prev.len()), group_tasks(ts, pid, sk, fuel, k - 1), sub_tasks);
        lemma_readable_add(prev, sub);
    }
}


pub open spec fn sections_ok(ss: Seq<Section>) -> bool {
    forall|i: int| 0 <= i < ss.len() ==> heading_ok((#[trigger] ss[i]).name@, ss[i].id@)
}

pub open spec fn projects_ok(ps: Seq<Project>) -> bool {
    forall|i: int| 0 <= i < ps.len() ==> heading_ok((#[trigger] ps[i]).name@, ps[i].id@)
}

proof fn lemma_sections_of_ok(sections: Seq<Section>, pid: Seq<char>, k: int)
    requires
        sections_ok(sections),
        k <= sections.len(),
    ensures
        sections_ok(sections_of(sections, pid, k)),
    decreases k,
{
    if k > 0 {
        lemma_sections_of_ok(sections, pid, k - 1);
        let prev = sections_of(sections, pid, k - 1);
        if sections[k - 1].project_id@ == pid {
            assert(heading_ok(sections[k - 1].name@, sections[k - 1].id@));
            assert forall|i: int| 0 <= i < prev.push(sections[k - 1]).len() implies heading_ok(
                (#[trigger] prev.push(sections[k - 1])[i]).name@,
                prev.push(sections[k - 1])[i].id@,
            ) by {
                if i < prev.len() {
                    assert(prev.push(sections[k - 1])[i] == prev[i]);
                }
            }
        }
    }
}

proof fn lemma_sorted_sections_ok(sections: Seq<Section>, pid: Seq<char>)
    requires
        sections_ok(sections),
    ensures
        sections_ok(sort_by_order(sections_of(sections, pid, sections.len() as int))),
{
    let so = sections_of(sections, pid, sections.len() as int);
    lemma_sections_of_ok(sections, pid, sections.len() as int);
    lemma_sort_members(so);
    assert forall|i: int| 0 <= i < sort_by_order(so).len() implies heading_ok(
        (#[trigger] sort_by_order(so)[i]).name@,
        sort_by_order(so)[i].id@,
    ) by {
        let j = choose|j: int| 0 <= j < so.len() && so[j] == sort_by_order(so)[i];
    }
}

proof fn lemma_section_block_scan(ts: Seq<Task>, s: Section, pid: Seq<char>, fuel: nat, st: Scan, n0: nat)
    requires
        tasks_ok(ts),
        heading_ok(s.name@, s.id@),
        st.project == Some(pid),
    ensures
        ({
            let g = group_lines(ts, pid, Some(s.id@), fuel, ts.len() as int);
            let ls = seq![section_line(s), Seq::empty()] + g + seq![Seq::empty()];
            let r = scan_from(st, ls, n0);
            &&& r.project == st.project
            &&& adds(st, r, group_tasks(ts, pid, Some(s.id@), fuel, ts.len() as int))
            &&& readable_lines(ls)
        }),
{
    let sk = Some(s.id@);
    let head = seq![section_line(s)];
    let blank: Seq<Seq<char>> = seq![Seq::empty()];
    let g = group_lines(ts, pid, sk, fuel, ts.len() as int);
    let gt = group_tasks(ts, pid, sk, fuel, ts.len() as int);
    assert(seq![section_line(s), Seq::empty()] + g + seq![Seq::empty()] =~= head + blank + g + blank);
    lemma_scan_split(st, head + blank + g, blank, n0);
    lemma_scan_split(st, head + blank, g, n0);
    lemma_scan_split(st, head, blank, n0);
    lemma_section_scan(st, s, n0);
    let r1 = scan_from(st, head, n0);
    lemma_plain_line(r1, Seq::empty(), n0 + 1);
    lemma_group_scan(ts, pid, sk, fuel, ts.len() as int, r1, n0 + 2);
    let r3 = scan_from(r1, g, n0 + 2);
    lemma_plain_line(r3, Seq::empty(), n0 + 2 + g.len());
    lemma_adds_none(st);
    assert(adds(st, r1, Seq::empty()));
    lemma_adds_then(st, r1, r3, Seq::empty(), gt);
    assert(Seq::<BufferTaskV>::empty() + gt =~= gt);
    lemma_readable_add(head, blank);
    lemma_readable_add(head + blank, g);
    lemma_readable_add(head + blank + g, blank);
}

proof fn lemma_sections_scan(
    ts: Seq<Task>,
    secs: Seq<Section>,
    pid: Seq<char>,
    fuel: nat,
    k: int,
    st: Scan,
    n0: nat,
)
    requires
        tasks_ok(ts),
        sections_ok(secs),
        k <= secs.len(),
        st.project == Some(pid),
    ensures
        ({
            let ls = sections_lines(ts, secs, pid, fuel, k);
            let r = scan_from(st, ls, n0);
            &&& r.project == st.project
            &&& adds(st, r, sections_tasks(ts, secs, pid, fuel, k))
            &&& readable_lines(ls)
        }),
    decreases k,
{
    if k <= 0 {
        lemma_adds_none(st);
    } else {
        let s = secs[k - 1];
        let sk = Some(s.id@);
        let prev = sections_lines(ts, secs, pid, fuel, k - 1);
        lemma_sections_scan(ts, secs, pid, fuel, k - 1, st, n0);
        let r1 = scan_from(st, prev, n0);
        if has_group(ts, pid, sk) {
            assert(heading_ok(s.name@, s.id@));
            let g = group_lines(ts, pid, sk, fuel, ts.len() as int);
            let sub = seq![section_line(s), Seq::empty()] + g + seq![Seq::empty()];
            lemma_section_block_scan(ts, s, pid, fuel, r1, n0 + prev.len());
            lemma_scan_split(st, prev, sub, n0);
            lemma_adds_then(st, r1, scan_from(r1, sub, n0 + prev.len()), sections_tasks(ts, secs, pid, fuel, k - 1), group_tasks(ts, pid, sk, fuel, ts.len() as int));
            lemma_readable_add(prev, sub);
        } else {
            assert(sections_lines(ts, secs, pid, fuel, k) =~= prev);
            assert(sections_tasks(ts, secs, pid, fuel, k) =~= sections_tasks(ts, secs, pid, fuel, k - 1));
        }
    }
}

proof fn lemma_project_head_scan(st: Scan, p: Project, n0: nat)
    requires
        heading_ok(p.name@, p.id@),
    ensures
        ({
            let ls = seq![project_line(p), Seq::empty()];
            &&& scan_from(st, ls, n0) == (Scan { project: Some(p.id@), section: None, ..st })
            &&& readable_lines(ls)
        }),
{
    let head = seq![project_line(p)];
    let blank: Seq<Seq<char>> = seq![Seq::empty()];
    assert(seq![project_line(p), Seq::empty()] =~= head + blank);
    lemma_scan_split(st, head, blank, n0);
    lemma_project_scan(st, p, n0);
    lemma_plain_line(scan_from(st, head, n0), Seq::empty(), n0 + 1);
    lemma_readable_add(head, blank);
}

/// The lines of a project's tasks outside sections, with the blank line after them.
pub open spec fn loose_lines(ts: Seq<Task>, pid: Seq<char>, fuel: nat) -> Seq<Seq<char>> {
    if has_group(ts, pid, None) {
        group_lines(ts, pid, None, fuel, ts.len() as int) + seq![Seq::empty()]
    } else {
        Seq::empty()
    }
}

pub open spec fn loose_tasks(ts: Seq<Task>, pid: Seq<char>, fuel: nat) -> Seq<BufferTaskV> {
    if has_group(ts, pid, None) {
        group_tasks(ts, pid, None, fuel, ts.len() as int)
    } else {
        Seq::empty()
    }
}

proof fn lemma_loose_scan(ts: Seq<Task>, pid: Seq<char>, fuel: nat, st: Scan, n0: nat)
    requires
        tasks_ok(ts),
        st.project == Some(pid),
        st.section == None::<Seq<char>>,
    ensures
        ({
            let ls = loose_lines(ts, pid, fuel);
            let r = scan_from(st, ls, n0);
            &&& r.project == st.project
            &&& adds(st, r, loose_tasks(ts, pid, fuel))
            &&& readable_lines(ls)
        }),
{
    if has_group(ts, pid, None) {
        let g = group_lines(ts, pid, None, fuel, ts.len() as int);
        let blank: Seq<Seq<char>> = seq![Seq::empty()];
        lemma_scan_split(st, g, blank, n0);
        lemma_group_scan(ts, pid, None, fuel, ts.len() as int, st, n0);
        lemma_plain_line(scan_from(st, g, n0), Seq::empty(), n0 + g.len());
        lemma_readable_add(g, blank);
    } else {
        lemma_adds_none(st);
    }
}

proof fn lemma_project_block_scan(
    ts: Seq<Task>,
    sections: Seq<Section>,
    p: Project,
    fuel: nat,
    st: Scan,
    n0: nat,
)
    requires
        tasks_ok(ts),
        sections_ok(sections),
        heading_ok(p.name@, p.id@),
    ensures
        ({
            let ls = project_lines(ts, sections, p, fuel);
            &&& adds(st, scan_from(st, ls, n0), project_tasks(ts, sections, p, fuel))
            &&& readable_lines(ls)
        }),
{
    let pid = p.id@;
    let secs = sort_by_order(sections_of(sections, pid, sections.len() as int));
    if !has_project_tasks(ts, pid) {
        lemma_adds_none(st);
    } else {
        lemma_sorted_sections_ok(sections, pid);
        let head: Seq<Seq<char>> = seq![project_line(p), Seq::empty()];
        let loose = loose_lines(ts, pid, fuel);
        let lt = loose_tasks(ts, pid, fuel);
        let sl = sections_lines(ts, secs, pid, fuel, secs.len() as int);
        let stt = sections_tasks(ts, secs, pid, fuel, secs.len() as int);
        assert(project_lines(ts, sections, p, fuel) =~= head + loose + sl);
        assert(project_tasks(ts, sections, p, fuel) =~= lt + stt);
        lemma_scan_split(st, head + loose, sl, n0);
        lemma_scan_split(st, head, loose, n0);
        lemma_project_head_scan(st, p, n0);
        let r1 = scan_from(st, head, n0);
        lemma_loose_scan(ts, pid, fuel, r1, n0 + 2);
        let r3 = scan_from(r1, loose, n0 + 2);
        lemma_sections_scan(ts, secs, pid, fuel, secs.len() as int, r3, n0 + 2 + loose.len());
        lemma_adds_none(st);
        assert(adds(st, r1, Seq::empty()));
        lemma_adds_then(st, r1, r3, Seq::empty(), lt);
        assert(Seq::<BufferTaskV>::empty() + lt =~= lt);
        lemma_adds_then(st, r3, scan_from(r3, sl, n0 + 2 + loose.len()), lt, stt);
        lemma_readable_add(head, loose);
        lemma_readable_add(head + loose, sl);
    }
}

proof fn lemma_body_scan(
    projects: Seq<Project>,
    sections: Seq<Section>,
    ts: Seq<Task>,
    fuel: nat,
    k: int,
    st: Scan,
    n0: nat,
)
    requires
        tasks_ok(ts),
        sections_ok(sections),
        projects_ok(projects),
        k <= projects.len(),
    ensures
        ({
            let ls = body_lines(projects, sections, ts, fuel, k);
            &&& adds(st, scan_from(st, ls, n0), body_tasks(projects, sections, ts, fuel, k))
            &&& readable_lines(ls)
        }),
    decreases k,
{
    if k <= 0 {
        lemma_adds_none(st);
    } else {
        let prev = body_lines(projects, sections, ts, fuel, k - 1);
        let pl = project_lines(ts, sections, projects[k - 1], fuel);
        lemma_body_scan(projects, sections, ts, fuel, k - 1, st, n0);
        lemma_scan_split(st, prev, pl, n0);
        let r1 = scan_from(st, prev, n0);
        assert(heading_ok(projects[k - 1].name@, projects[k - 1].id@));
        lemma_project_block_scan(ts, sections, projects[k - 1], fuel, r1, n0 + prev.len());
        lemma_adds_then(st, r1, scan_from(r1, pl, n0 + prev.len()), body_tasks(projects, sections, ts, fuel, k - 1), project_tasks(ts, sections, projects[k - 1], fuel));
        lemma_readable_add(prev, pl);
    }
}


// ─── Parents ─────────────────────────────────────────────────────────────────────────────

/// The parent the reader gives a task at depth `d` that follows the tasks `a`.
pub open spec fn ctx(a: Seq<BufferTaskV>, d: nat) -> Option<Seq<char>> {
    if d == 0 {
        None
    } else {
        match last_at_most(a, a.len() as int, (d - 1) as nat) {
            Some(k) => if a[k].indent_level == d - 1 {
                a[k].id
            } else {
                None
            },
            None => None,
        }
    }
}

/// After the tasks `a`, the reader gives each task of `b` the parent that `b` records.
pub open spec fn parents_ok(a: Seq<BufferTaskV>, b: Seq<BufferTaskV>) -> bool {
    forall|j: int| 0 <= j < b.len() ==> parent_of(a + b, a.len() + j) == (#[trigger] b[j]).parent_id
}

pub open spec fn at_least(b: Seq<BufferTaskV>, d: nat) -> bool {
    forall|j: int| 0 <= j < b.len() ==> (#[trigger] b[j]).indent_level >= d
}

/// No task of `b` carries a line number.
pub open spec fn unnumbered(b: Seq<BufferTaskV>) -> bool {
    forall|j: int| 0 <= j < b.len() ==> (#[trigger] b[j]).line_num == 0
}

proof fn lemma_unnumbered_add(b1: Seq<BufferTaskV>, b2: Seq<BufferTaskV>)
    requires
        unnumbered(b1),
        unnumbered(b2),
    ensures
        unnumbered(b1 + b2),
{
    assert forall|j: int| 0 <= j < (b1 + b2).len() implies (#[trigger] (b1 + b2)[j]).line_num == 0 by {
        if j < b1.len() {
            assert((b1 + b2)[j] == b1[j]);
        } else {
            assert((b1 + b2)[j] == b2[j - b1.len()]);
        }
    }
}

proof fn lemma_last_range(x: Seq<BufferTaskV>, i: int, m: nat)
    ensures
        last_at_most(x, i, m) matches Some(k) ==> 0 <= k < i,
    decreases i,
{
    if i > 0 {
        lemma_last_range(x, i - 1, m);
    }
}

proof fn lemma_last_prefix(x: Seq<BufferTaskV>, y: Seq<BufferTaskV>, i: int, m: nat)
    requires
        i <= x.len(),
    ensures
        last_at_most(x + y, i, m) == last_at_most(x, i, m),
    decreases i,
{
    if i > 0 {
        assert((x + y)[i - 1] == x[i - 1]);
        lemma_last_prefix(x, y, i - 1, m);
    }
}

proof fn lemma_last_skip(x: Seq<BufferTaskV>, y: Seq<BufferTaskV>, j: int, m: nat)
    requires
        0 <= j <= y.len(),
        forall|k: int| 0 <= k < y.len() ==> (#[trigger] y[k]).indent_level > m,
    ensures
        last_at_most(x + y, x.len() + j, m) == last_at_most(x, x.len() as int, m),
    decreases j,
{
    if j > 0 {
        assert((x + y)[x.len() + j - 1] == y[j - 1]);
        lemma_last_skip(x, y, j - 1, m);
    } else {
        lemma_last_prefix(x, y, x.len() as int, m);
    }
}

proof fn lemma_parent_prefix(x: Seq<BufferTaskV>, y: Seq<BufferTaskV>, i: int)
    requires
        0 <= i < x.len(),
    ensures
        parent_of(x + y, i) == parent_of(x, i),
{
    assert((x + y)[i] == x[i]);
    let l = x[i].indent_level;
    if l > 0 {
        lemma_last_prefix(x, y, i, (l - 1) as nat);
        lemma_last_range(x, i, (l - 1) as nat);
        match last_at_most(x, i, (l - 1) as nat) {
            Some(k) => {
                assert((x + y)[k] == x[k]);
            },
            None => {},
        }
    }
}

proof fn lemma_parent_first(a: Seq<BufferTaskV>, b: Seq<BufferTaskV>)
    requires
        b.len() > 0,
    ensures
        parent_of(a + b, a.len() as int) == ctx(a, b[0].indent_level),
{
    let i = a.len() as int;
    assert((a + b)[i] == b[0]);
    let l = b[0].indent_level;
    if l > 0 {
        lemma_last_prefix(a, b, i, (l - 1) as nat);
        lemma_last_range(a, i, (l - 1) as nat);
        match last_at_most(a, i, (l - 1) as nat) {
            Some(k) => {
                assert((a + b)[k] == a[k]);
            },
            None => {},
        }
    }
}

proof fn lemma_ctx_skip(x: Seq<BufferTaskV>, y: Seq<BufferTaskV>, d: nat)
    requires
        at_least(y, d),
    ensures
        ctx(x + y, d) == ctx(x, d),
{
    if d > 0 {
        let m = (d - 1) as nat;
        lemma_last_skip(x, y, y.len() as int, m);
        assert((x + y).len() == x.len() + y.len());
        lemma_last_range(x, x.len() as int, m);
        match last_at_most(x, x.len() as int, m) {
            Some(k) => {
                assert((x + y)[k] == x[k]);
            },
            None => {},
        }
    }
}

proof fn lemma_parents_then(a: Seq<BufferTaskV>, b1: Seq<BufferTaskV>, b2: Seq<BufferTaskV>)
    requires
        parents_ok(a, b1),
        parents_ok(a + b1, b2),
    ensures
        parents_ok(a, b1 + b2),
{
    assert(a + (b1 + b2) =~= (a + b1) + b2);
    assert forall|j: int| 0 <= j < (b1 + b2).len() implies parent_of(a + (b1 + b2), a.len() + j)
        == (#[trigger] (b1 + b2)[j]).parent_id by {
        if j < b1.len() {
            assert((b1 + b2)[j] == b1[j]);
            lemma_parent_prefix(a + b1, b2, a.len() + j);
            assert(parent_of(a + b1, a.len() + j) == b1[j].parent_id);
        } else {
            assert((b1 + b2)[j] == b2[j - b1.len()]);
            assert(parent_of((a + b1) + b2, (a + b1).len() + (j - b1.len())) == b2[j - b1.len()].parent_id);
        }
    }
}

proof fn lemma_at_least_add(b1: Seq<BufferTaskV>, b2: Seq<BufferTaskV>, d: nat)
    requires
        at_least(b1, d),
        at_least(b2, d),
    ensures
        at_least(b1 + b2, d),
{
    assert forall|j: int| 0 <= j < (b1 + b2).len() implies (#[trigger] (b1 + b2)[j]).indent_level >= d by {
        if j < b1.len() {
            assert((b1 + b2)[j] == b1[j]);
        } else {
            assert((b1 + b2)[j] == b2[j - b1.len()]);
        }
    }
}

proof fn lemma_subtree_parents(
    ts: Seq<Task>,
    t: Task,
    d: nat,
    fuel: nat,
    pid: Seq<char>,
    sk: Option<Seq<char>>,
    parent: Option<Seq<char>>,
    a: Seq<BufferTaskV>,
)
    requires
        ctx(a, d) == parent,
    ensures
        parents_ok(a, subtree_tasks(ts, t, d, fuel, pid, sk, parent)),
        at_least(subtree_tasks(ts, t, d, fuel, pid, sk, parent), d),
        unnumbered(subtree_tasks(ts, t, d, fuel, pid, sk, parent)),
    decreases fuel, 0int, 0int,
{
    let x = entry(t, d, pid, sk, parent);
    let head = seq![x];
    let rest = if fuel == 0 {
        Seq::empty()
    } else {
        children_tasks(ts, t.id@, d + 1, (fuel - 1) as nat, ts.len() as int, pid, sk)
    };
    lemma_parent_first(a, head);
    assert(parents_ok(a, head));
    assert(at_least(head, d));
    if fuel > 0 {
        let a1 = a + head;
        assert(a1[a.len() as int] == x);
        assert(last_at_most(a1, a1.len() as int, d) == Some(a.len() as int));
        assert(ctx(a1, d + 1) == Some(t.id@));
        lemma_children_parents(ts, t.id@, d + 1, (fuel - 1) as nat, ts.len() as int, pid, sk, a1);
    }
    lemma_parents_then(a, head, rest);
    lemma_at_least_add(head, rest, d);
    assert(unnumbered(head));
    lemma_unnumbered_add(head, rest);
}

proof fn lemma_children_parents(
    ts: Seq<Task>,
    id: Seq<char>,
    d: nat,
    fuel: nat,
    k: int,
    pid: Seq<char>,
    sk: Option<Seq<char>>,
    a: Seq<BufferTaskV>,
)
    requires
        d >= 1,
        ctx(a, d) == Some(id),
    ensures
        parents_ok(a, children_tasks(ts, id, d, fuel, k, pid, sk)),
        at_least(children_tasks(ts, id, d, fuel, k, pid, sk), d),
        unnumbered(children_tasks(ts, id, d, fuel, k, pid, sk)),
    decreases fuel, 1int, k,
{
    if k > 0 {
        let prev = children_tasks(ts, id, d, fuel, k - 1, pid, sk);
        let sub = if is_child_of(ts[k - 1], id) {
            subtree_tasks(ts, ts[k - 1], d, fuel, pid, sk, Some(id))
        } else {
            Seq::empty()
        };
        lemma_children_parents(ts, id, d, fuel, k - 1, pid, sk, a);
        lemma_ctx_skip(a, prev, d);
        if is_child_of(ts[k - 1], id) {
            lemma_subtree_parents(ts, ts[k - 1], d, fuel, pid, sk, Some(id), a + prev);
        }
        lemma_parents_then(a, prev, sub);
        lemma_at_least_add(prev, sub, d);
        lemma_unnumbered_add(prev, sub);
    }
}

proof fn lemma_group_parents(
    ts: Seq<Task>,
    pid: Seq<char>,
    sk: Option<Seq<char>>,
    fuel: nat,
    k: int,
    a: Seq<BufferTaskV>,
)
    ensures
        parents_ok(a, group_tasks(ts, pid, sk, fuel, k)),
        unnumbered(group_tasks(ts, pid, sk, fuel, k)),
    decreases k,
{
    if k > 0 {
        let prev = group_tasks(ts, pid, sk, fuel, k - 1);
        let sub = if in_group(ts[k - 1], pid, sk) {
            subtree_tasks(ts, ts[k - 1], 0, fuel, pid, sk, None)
        } else {
            Seq::empty()
        };
        lemma_group_parents(ts, pid, sk, fuel, k - 1, a);
        if in_group(ts[k - 1], pid, sk) {
            lemma_subtree_parents(ts, ts[k - 1], 0, fuel, pid, sk, None, a + prev);
        }
        lemma_parents_then(a, prev, sub);
        lemma_unnumbered_add(prev, sub);
    }
}

proof fn lemma_sections_parents(
    ts: Seq<Task>,
    secs: Seq<Section>,
    pid: Seq<char>,
    fuel: nat,
    k: int,
    a: Seq<BufferTaskV>,
)
    ensures
        parents_ok(a, sections_tasks(ts, secs, pid, fuel, k)),
        unnumbered(sections_tasks(ts, secs, pid, fuel, k)),
    decreases k,
{
    if k > 0 {
        let s = secs[k - 1];
        let prev = sections_tasks(ts, secs, pid, fuel, k - 1);
        let sub = if has_group(ts, pid, Some(s.id@)) {
            group_tasks(ts, pid, Some(s.id@), fuel, ts.len() as int)
        } else {
            Seq::empty()
        };
        lemma_sections_parents(ts, secs, pid, fuel, k - 1, a);
        lemma_group_parents(ts, pid, Some(s.id@), fuel, ts.len() as int, a + prev);
        lemma_parents_then(a, prev, sub);
        lemma_unnumbered_add(prev, sub);
    }
}

proof fn lemma_body_parents(
    projects: Seq<Project>,
    sections: Seq<Section>,
    ts: Seq<Task>,
    fuel: nat,
    k: int,
    a: Seq<BufferTaskV>,
)
    ensures
        parents_ok(a, body_tasks(projects, sections, ts, fuel, k)),
        unnumbered(body_tasks(projects, sections, ts, fuel, k)),
    decreases k,
{
    if k > 0 {
        let prev = body_tasks(projects, sections, ts, fuel, k - 1);
        let p = projects[k - 1];
        let pid = p.id@;
        let secs = sort_by_order(sections_of(sections, pid, sections.len() as int));
        let sub = project_tasks(ts, sections, p, fuel);
        lemma_body_parents(projects, sections, ts, fuel, k - 1, a);
        let a1 = a + prev;
        if has_project_tasks(ts, pid) {
            let lt = loose_tasks(ts, pid, fuel);
            lemma_group_parents(ts, pid, None, fuel, ts.len() as int, a1);
            lemma_sections_parents(ts, secs, pid, fuel, secs.len() as int, a1 + lt);
            lemma_parents_then(a1, lt, sections_tasks(ts, secs, pid, fuel, secs.len() as int));
            lemma_unnumbered_add(lt, sections_tasks(ts, secs, pid, fuel, secs.len() as int));
        }
        lemma_parents_then(a, prev, sub);
        lemma_unnumbered_add(prev, sub);
    }
}


// ─── The lines make up the text ──────────────────────────────────────────────────────────

proof fn lemma_joined_one(l: Seq<char>)
    ensures
        joined(seq![l]) == l + seq!['\n'],
{
    assert(seq![l].drop_last() =~= Seq::<Seq<char>>::empty());
    assert(joined(Seq::<Seq<char>>::empty()) == Seq::<char>::empty());
    assert(seq![l].last() == l);
    assert(Seq::<char>::empty() + l + seq!['\n'] =~= l + seq!['\n']);
}

proof fn lemma_joined_len(ls: Seq<Seq<char>>)
    ensures
        joined(ls).len() >= ls.len(),
    decreases ls.len(),
{
    if ls.len() > 0 {
        lemma_joined_len(ls.drop_last());
    }
}

proof fn lemma_task_text(t: Task, d: nat)
    ensures
        task_line(Style::Tagged, t, d) == joined(seq![rendered_line(t, d)]),
{
    reveal_strlit(" -->\n");
    let tl = task_line(Style::Tagged, t, d);
    assert(tl.last() == '\n');
    assert(tl =~= tl.drop_last() + seq!['\n']);
    lemma_joined_one(rendered_line(t, d));
}

proof fn lemma_heading_pair(l: Seq<char>)
    ensures
        joined(seq![l, Seq::empty()]) == l + seq!['\n', '\n'],
{
    let ls = seq![l, Seq::<char>::empty()];
    assert(ls =~= seq![l] + seq![Seq::<char>::empty()]);
    lemma_joined_add(seq![l], seq![Seq::<char>::empty()]);
    lemma_joined_one(l);
    lemma_joined_one(Seq::<char>::empty());
    assert(l + seq!['\n'] + (Seq::<char>::empty() + seq!['\n']) =~= l + seq!['\n', '\n']);
}

proof fn lemma_project_text(p: Project)
    ensures
        project_heading(Style::Tagged, p) == joined(seq![project_line(p), Seq::empty()]),
{
    reveal_strlit("## ");
    reveal_strlit(" <!-- project:");
    reveal_strlit(" -->\n\n");
    lemma_heading_pair(project_line(p));
    assert(project_heading(Style::Tagged, p) =~= project_line(p) + seq!['\n', '\n']);
}

proof fn lemma_section_text(s: Section)
    ensures
        section_heading(Style::Tagged, s) == joined(seq![section_line(s), Seq::empty()]),
{
    reveal_strlit("### ");
    reveal_strlit(" <!-- section:");
    reveal_strlit(" -->\n\n");
    lemma_heading_pair(section_line(s));
    assert(section_heading(Style::Tagged, s) =~= section_line(s) + seq!['\n', '\n']);
}

proof fn lemma_blank_text()
    ensures
        joined(seq![Seq::<char>::empty()]) == seq!['\n'],
{
    lemma_joined_one(Seq::<char>::empty());
    assert(Seq::<char>::empty() + seq!['\n'] =~= seq!['\n']);
}

proof fn lemma_subtree_text(ts: Seq<Task>, t: Task, d: nat, fuel: nat)
    ensures
        joined(subtree_lines(ts, t, d, fuel)) == subtree(Style::Tagged, ts, t, d, fuel),
    decreases fuel, 0int, 0int,
{
    let head = seq![rendered_line(t, d)];
    let rest = if fuel == 0 {
        Seq::empty()
    } else {
        children_lines(ts, t.id@, d + 1, (fuel - 1) as nat, ts.len() as int)
    };
    lemma_joined_add(head, rest);
    lemma_task_text(t, d);
    if fuel > 0 {
        lemma_children_text(ts, t.id@, d + 1, (fuel - 1) as nat, ts.len() as int);
    } else {
        assert(joined(rest) == Seq::<char>::empty());
    }
}

proof fn lemma_children_text(ts: Seq<Task>, id: Seq<char>, d: nat, fuel: nat, k: int)
    ensures
        joined(children_lines(ts, id, d, fuel, k)) == children_block(Style::Tagged, ts, id, d, fuel, k),
    decreases fuel, 1int, k,
{
    if k > 0 {
        let prev = children_lines(ts, id, d, fuel, k - 1);
        let sub = if is_child_of(ts[k - 1], id) {
            subtree_lines(ts, ts[k - 1], d, fuel)
        } else {
            Seq::empty()
        };
        lemma_children_text(ts, id, d, fuel, k - 1);
        lemma_joined_add(prev, sub);
        if is_child_of(ts[k - 1], id) {
            lemma_subtree_text(ts, ts[k - 1], d, fuel);
        } else {
            assert(joined(sub) == Seq::<char>::empty());
        }
    }
}

proof fn lemma_group_text(ts: Seq<Task>, pid: Seq<char>, sk: Option<Seq<char>>, fuel: nat, k: int)
    ensures
        joined(group_lines(ts, pid, sk, fuel, k)) == group_block(Style::Tagged, ts, pid, sk, fuel, k),
    decreases k,
{
    if k > 0 {
        let prev = group_lines(ts, pid, sk, fuel, k - 1);
        let sub = if in_group(ts[k - 1], pid, sk) {
            subtree_lines(ts, ts[k - 1], 0, fuel)
        } else {
            Seq::empty()
        };
        lemma_group_text(ts, pid, sk, fuel, k - 1);
        lemma_joined_add(prev, sub);
        if in_group(ts[k - 1], pid, sk) {
            lemma_subtree_text(ts, ts[k - 1], 0, fuel);
        } else {
            assert(joined(sub) == Seq::<char>::empty());
        }
    }
}

proof fn lemma_sections_text(ts: Seq<Task>, secs: Seq<Section>, pid: Seq<char>, fuel: nat, k: int)
    ensures
        joined(sections_lines(ts, secs, pid, fuel, k)) == sections_block(
            Style::Tagged,
            ts,
            secs,
            pid,
            fuel,
            k,
        ),
    decreases k,
{
    if k > 0 {
        let s = secs[k - 1];
        let prev = sections_lines(ts, secs, pid, fuel, k - 1);
        lemma_sections_text(ts, secs, pid, fuel, k - 1);
        if has_group(ts, pid, Some(s.id@)) {
            let head: Seq<Seq<char>> = seq![section_line(s), Seq::empty()];
            let g = group_lines(ts, pid, Some(s.id@), fuel, ts.len() as int);
            let blank: Seq<Seq<char>> = seq![Seq::empty()];
            let sub = head + g + blank;
            lemma_joined_add(prev, sub);
            lemma_joined_add(head + g, blank);
            lemma_joined_add(head, g);
            lemma_section_text(s);
            lemma_group_text(ts, pid, Some(s.id@), fuel, ts.len() as int);
            lemma_blank_text();
            reveal_strlit("\n");
            assert("\n"@ =~= seq!['\n']);
            assert(joined(sections_lines(ts, secs, pid, fuel, k)) =~= sections_block(
                Style::Tagged,
                ts,
                secs,
                pid,
                fuel,
                k,
            ));
        } else {
            assert(sections_lines(ts, secs, pid, fuel, k) =~= prev);
            assert(sections_block(Style::Tagged, ts, secs, pid, fuel, k) =~= sections_block(
                Style::Tagged,
                ts,
                secs,
                pid,
                fuel,
                k - 1,
            ));
        }
    }
}

proof fn lemma_project_text_block(ts: Seq<Task>, sections: Seq<Section>, p: Project, fuel: nat)
    ensures
        joined(project_lines(ts, sections, p, fuel)) == project_block(Style::Tagged, ts, sections, p, fuel),
{
    let pid = p.id@;
    let secs = sort_by_order(sections_of(sections, pid, sections.len() as int));
    if has_project_tasks(ts, pid) {
        let head: Seq<Seq<char>> = seq![project_line(p), Seq::empty()];
        let loose = loose_lines(ts, pid, fuel);
        let sl = sections_lines(ts, secs, pid, fuel, secs.len() as int);
        assert(project_lines(ts, sections, p, fuel) =~= head + loose + sl);
        lemma_joined_add(head + loose, sl);
        lemma_joined_add(head, loose);
        lemma_project_text(p);
        lemma_sections_text(ts, secs, pid, fuel, secs.len() as int);
        if has_group(ts, pid, None) {
            let g = group_lines(ts, pid, None, fuel, ts.len() as int);
            let blank: Seq<Seq<char>> = seq![Seq::empty()];
            lemma_joined_add(g, blank);
            lemma_group_text(ts, pid, None, fuel, ts.len() as int);
            lemma_blank_text();
            reveal_strlit("\n");
            assert("\n"@ =~= seq!['\n']);
        } else {
            assert(joined(loose) == Seq::<char>::empty());
        }
        assert(joined(project_lines(ts, sections, p, fuel)) =~= project_block(
            Style::Tagged,
            ts,
            sections,
            p,
            fuel,
        ));
    }
}

proof fn lemma_body_text(
    projects: Seq<Project>,
    sections: Seq<Section>,
    ts: Seq<Task>,
    fuel: nat,
    k: int,
)
    ensures
        joined(body_lines(projects, sections, ts, fuel, k)) == outline_body(
            Style::Tagged,
            projects,
            sections,
            ts,
            fuel,
            k,
        ),
    decreases k,
{
    if k > 0 {
        lemma_body_text(projects, sections, ts, fuel, k - 1);
        lemma_joined_add(
            body_lines(projects, sections, ts, fuel, k - 1),
            project_lines(ts, sections, projects[k - 1], fuel),
        );
        lemma_project_text_block(ts, sections, projects[k - 1], fuel);
    }
}


// ─── The law ─────────────────────────────────────────────────────────────────────────────

proof fn lemma_last_same(x: Seq<BufferTaskV>, y: Seq<BufferTaskV>, i: int, m: nat)
    requires
        x.len() == y.len(),
        i <= x.len(),
        forall|k: int| 0 <= k < x.len() ==> (#[trigger] x[k]).indent_level == y[k].indent_level,
    ensures
        last_at_most(x, i, m) == last_at_most(y, i, m),
    decreases i,
{
    if i > 0 {
        assert(x[i - 1].indent_level == y[i - 1].indent_level);
        lemma_last_same(x, y, i - 1, m);
    }
}

proof fn lemma_parent_same(x: Seq<BufferTaskV>, y: Seq<BufferTaskV>, j: int)
    requires
        x.len() == y.len(),
        0 <= j < x.len(),
        forall|k: int|
            0 <= k < x.len() ==> (#[trigger] x[k]).indent_level == y[k].indent_level && x[k].id
                == y[k].id,
    ensures
        parent_of(x, j) == parent_of(y, j),
{
    assert(x[j].indent_level == y[j].indent_level);
    let l = x[j].indent_level;
    if l > 0 {
        lemma_last_same(x, y, j, (l - 1) as nat);
        lemma_last_range(x, j, (l - 1) as nat);
        match last_at_most(x, j, (l - 1) as nat) {
            Some(k) => {
                assert(x[k].indent_level == y[k].indent_level && x[k].id == y[k].id);
            },
            None => {},
        }
    }
}

proof fn lemma_sorted_tasks_ok(tasks: Seq<Task>)
    requires
        tasks_ok(tasks),
    ensures
        tasks_ok(sort_by_order(tasks)),
{
    lemma_sort_members(tasks);
    assert forall|i: int| 0 <= i < sort_by_order(tasks).len() implies task_ok(
        #[trigger] sort_by_order(tasks)[i],
    ) by {
        let j = choose|j: int| 0 <= j < tasks.len() && tasks[j] == sort_by_order(tasks)[i];
    }
}

proof fn lemma_sorted_projects_ok(projects: Seq<Project>)
    requires
        projects_ok(projects),
    ensures
        projects_ok(sort_by_order(projects)),
{
    lemma_sort_members(projects);
    assert forall|i: int| 0 <= i < sort_by_order(projects).len() implies heading_ok(
        (#[trigger] sort_by_order(projects)[i]).name@,
        sort_by_order(projects)[i].id@,
    ) by {
        let j = choose|j: int| 0 <= j < projects.len() && projects[j] == sort_by_order(projects)[i];
    }
}

/// A notice whose lines start with neither `#`+`#`, `-` nor whitespace reads as no task.
proof fn lemma_notice(a: Seq<char>, b: Seq<char>, st: Scan)
    requires
        a.len() >= 2 && a[0] == '#' && a[1] == ' ',
        b.len() > 0 && b[0] != '#' && b[0] != '-' && !is_ws(b[0]),
        no_break(a),
        no_break(b),
    ensures
        scan_from(st, seq![a, Seq::empty(), b], 1) == st,
        readable_lines(seq![a, Seq::empty(), b]),
{
    let la = seq![a];
    let lb: Seq<Seq<char>> = seq![Seq::empty()];
    let lc = seq![b];
    assert(seq![a, Seq::empty(), b] =~= la + lb + lc);
    lemma_scan_split(st, la + lb, lc, 1);
    lemma_scan_split(st, la, lb, 1);
    lemma_one_line(st, a, 1);
    assert(!occurs_at(a, h2_pat(), 0)) by {
        if occurs_at(a, h2_pat(), 0) {
            assert(a.subrange(0, 3)[1] == a[1]);
        }
    }
    assert(!occurs_at(a, h3_pat(), 0)) by {
        if occurs_at(a, h3_pat(), 0) {
            assert(a.subrange(0, 4)[1] == a[1]);
        }
    }
    assert(!occurs_at(a, h4_pat(), 0)) by {
        if occurs_at(a, h4_pat(), 0) {
            assert(a.subrange(0, 5)[1] == a[1]);
        }
    }
    assert(ws_run_from(a, 0) == 0);
    assert(a.skip(0) =~= a);
    assert(!occurs_at(a, crate::parser::box_pat(' '), 0)) by {
        if occurs_at(a, crate::parser::box_pat(' '), 0) {
            assert(a.subrange(0, 6)[0] == a[0]);
        }
    }
    assert(!occurs_at(a, crate::parser::box_pat('x'), 0)) by {
        if occurs_at(a, crate::parser::box_pat('x'), 0) {
            assert(a.subrange(0, 6)[0] == a[0]);
        }
    }
    assert(!occurs_at(a, crate::parser::box_pat('X'), 0)) by {
        if occurs_at(a, crate::parser::box_pat('X'), 0) {
            assert(a.subrange(0, 6)[0] == a[0]);
        }
    }
    assert(scan_line(st, a, 1) == st);
    assert(line_readable(a));
    lemma_plain_line(st, Seq::empty(), 2);
    lemma_plain_line(st, b, 3);
    assert(readable_lines(la)) by {
        assert(la[0] == a);
    }
    lemma_readable_add(la, lb);
    lemma_readable_add(la + lb, lc);
}

pub open spec fn empty_scan() -> Scan {
    Scan { project: None, section: None, tasks: Seq::empty(), warnings: Seq::empty() }
}

/// No line break among the first `k` characters of `s`.
pub open spec fn breakless(s: Seq<char>, k: int) -> bool
    decreases k,
{
    k <= 0 || (s[k - 1] != '\n' && breakless(s, k - 1))
}

proof fn lemma_breakless(s: Seq<char>, k: int)
    requires
        0 <= k <= s.len(),
        breakless(s, k),
    ensures
        forall|i: int| 0 <= i < k ==> s[i] != '\n',
    decreases k,
{
    if k > 0 {
        lemma_breakless(s, k - 1);
    }
}

proof fn lemma_notice_texts()
    ensures
        no_break("# 🎉 No active tasks"@),
        no_break("Your Todoist is empty — enjoy the peace!"@),
        no_break("# No active tasks"@),
        no_break("All projects appear to be empty."@),
{
    reveal_strlit("# 🎉 No active tasks");
    reveal_strlit("Your Todoist is empty — enjoy the peace!");
    reveal_strlit("# No active tasks");
    reveal_strlit("All projects appear to be empty.");
    assert(breakless("# 🎉 No active tasks"@, "# 🎉 No active tasks"@.len() as int)) by {
        reveal_with_fuel(breakless, 50);
    }
    assert(breakless("Your Todoist is empty — enjoy the peace!"@, "Your Todoist is empty — enjoy the peace!"@.len() as int)) by {
        reveal_with_fuel(breakless, 50);
    }
    assert(breakless("# No active tasks"@, "# No active tasks"@.len() as int)) by {
        reveal_with_fuel(breakless, 50);
    }
    assert(breakless("All projects appear to be empty."@, "All projects appear to be empty."@.len() as int)) by {
        reveal_with_fuel(breakless, 50);
    }
    lemma_breakless("# 🎉 No active tasks"@, "# 🎉 No active tasks"@.len() as int);
    lemma_breakless("Your Todoist is empty — enjoy the peace!"@, "Your Todoist is empty — enjoy the peace!"@.len() as int);
    lemma_breakless("# No active tasks"@, "# No active tasks"@.len() as int);
    lemma_breakless("All projects appear to be empty."@, "All projects appear to be empty."@.len() as int);
}

proof fn lemma_nothing_active_lines(st: Scan)
    ensures
        ({
            let ls = seq!["# 🎉 No active tasks"@, Seq::empty(), "Your Todoist is empty — enjoy the peace!"@];
            &&& joined(ls) == nothing_active_message()
            &&& scan_from(st, ls, 1) == st
            &&& readable_lines(ls)
        }),
{
    reveal_strlit("# 🎉 No active tasks");
    reveal_strlit("Your Todoist is empty — enjoy the peace!");
    reveal_strlit("# 🎉 No active tasks\n\nYour Todoist is empty — enjoy the peace!\n");
    lemma_notice_texts();
    lemma_notice("# 🎉 No active tasks"@, "Your Todoist is empty — enjoy the peace!"@, st);
    let la = seq!["# 🎉 No active tasks"@];
    let lb: Seq<Seq<char>> = seq![Seq::empty()];
    let lc = seq!["Your Todoist is empty — enjoy the peace!"@];
    let ls = seq!["# 🎉 No active tasks"@, Seq::empty(), "Your Todoist is empty — enjoy the peace!"@];
    assert(ls =~= la + lb + lc);
    lemma_joined_add(la + lb, lc);
    lemma_joined_add(la, lb);
    lemma_joined_one("# 🎉 No active tasks"@);
    lemma_blank_text();
    lemma_joined_one("Your Todoist is empty — enjoy the peace!"@);
    assert(joined(ls) =~= nothing_active_message());
}

proof fn lemma_all_empty_lines(st: Scan)
    ensures
        ({
            let ls = seq!["# No active tasks"@, Seq::empty(), "All projects appear to be empty."@];
            &&& joined(ls) == all_empty_message()
            &&& scan_from(st, ls, 1) == st
            &&& readable_lines(ls)
        }),
{
    reveal_strlit("# No active tasks");
    reveal_strlit("All projects appear to be empty.");
    reveal_strlit("# No active tasks\n\nAll projects appear to be empty.\n");
    lemma_notice_texts();
    lemma_notice("# No active tasks"@, "All projects appear to be empty."@, st);
    let la = seq!["# No active tasks"@];
    let lb: Seq<Seq<char>> = seq![Seq::empty()];
    let lc = seq!["All projects appear to be empty."@];
    let ls = seq!["# No active tasks"@, Seq::empty(), "All projects appear to be empty."@];
    assert(ls =~= la + lb + lc);
    lemma_joined_add(la + lb, lc);
    lemma_joined_add(la, lb);
    lemma_joined_one("# No active tasks"@);
    lemma_blank_text();
    lemma_joined_one("All projects appear to be empty."@);
    assert(joined(ls) =~= all_empty_message());
}

proof fn lemma_read_back(ls: Seq<Seq<char>>, e: Seq<BufferTaskV>)
    requires
        adds(empty_scan(), scan_from(empty_scan(), ls, 1), e),
        parents_ok(Seq::empty(), e),
        unnumbered(e),
    ensures
        parsed_tasks(ls).len() == e.len(),
        forall|j: int|
            0 <= j < e.len() ==> (BufferTaskV { line_num: 0, ..#[trigger] parsed_tasks(ls)[j] })
                == e[j],
{
    lemma_scan_lines_from(ls, ls.len() as int);
    assert(ls.take(ls.len() as int) =~= ls);
    let t = scan_from(empty_scan(), ls, 1).tasks;
    assert(scan_lines(ls, ls.len() as int).tasks == t);
    assert(bares(Seq::<BufferTaskV>::empty()) =~= Seq::<BufferTaskV>::empty());
    assert(Seq::<BufferTaskV>::empty() + bares(e) =~= bares(e));
    assert(bares(t) == bares(e));
    assert(bares(t).len() == t.len());
    assert(t.len() == e.len());
    assert(Seq::<BufferTaskV>::empty() + e =~= e);
    assert forall|i: int| 0 <= i < t.len() implies (#[trigger] t[i]).indent_level == e[i].indent_level
        && t[i].id == e[i].id by {
        assert(bares(t)[i] == bare(t[i]));
        assert(bares(e)[i] == bare(e[i]));
    }
    assert forall|j: int| 0 <= j < e.len() implies (BufferTaskV {
        line_num: 0,
        ..#[trigger] parsed_tasks(ls)[j]
    }) == e[j] by {
        lemma_parent_same(t, e, j);
        assert(parent_of(Seq::<BufferTaskV>::empty() + e, 0 + j) == e[j].parent_id);
        assert(bares(t)[j] == bare(t[j]));
        assert(bares(e)[j] == bare(e[j]));
        assert(parsed_tasks(ls)[j] == crate::parser::with_parent(t[j], parent_of(t, j)));
    }
}

/// No line of `ls` holds a line break.
pub open spec fn no_breaks(ls: Seq<Seq<char>>) -> bool {
    forall|i: int| 0 <= i < ls.len() ==> no_break(#[trigger] ls[i])
}

proof fn lemma_joined_last(ls: Seq<Seq<char>>)
    requires
        ls.len() > 0,
    ensures
        joined(ls).len() > 0,
        joined(ls).last() == '\n',
{
}

proof fn lemma_side(j: Seq<char>, l: Seq<char>, x: Seq<char>, p: int)
    requires
        x == j + l,
        j.len() == 0 || j.last() == '\n',
        no_break(l),
        0 <= p < x.len(),
    ensures
        p == j.len() - 1 ==> x[p] == '\n',
        p >= j.len() ==> x[p] != '\n',
{
    if p == j.len() - 1 {
        assert(x[p] == j[p]);
    }
    if p >= j.len() {
        assert(x[p] == l[p - j.len()]);
    }
}

/// Lines without line breaks are the only ones that make up their text.
proof fn lemma_joined_unique(a: Seq<Seq<char>>, b: Seq<Seq<char>>)
    requires
        no_breaks(a),
        no_breaks(b),
        joined(a) == joined(b),
    ensures
        a == b,
    decreases a.len() + b.len(),
{
    lemma_joined_len(a);
    lemma_joined_len(b);
    if a.len() == 0 || b.len() == 0 {
        assert(a =~= b);
    } else {
        let a1 = a.drop_last();
        let b1 = b.drop_last();
        let la = a.last();
        let lb = b.last();
        let ja = joined(a1);
        let jb = joined(b1);
        assert(no_break(la) && no_break(lb)) by {
            assert(la == a[a.len() - 1]);
            assert(lb == b[b.len() - 1]);
        }
        assert(no_breaks(a1)) by {
            assert forall|i: int| 0 <= i < a1.len() implies no_break(#[trigger] a1[i]) by {
                assert(a1[i] == a[i]);
            }
        }
        assert(no_breaks(b1)) by {
            assert forall|i: int| 0 <= i < b1.len() implies no_break(#[trigger] b1[i]) by {
                assert(b1[i] == b[i]);
            }
        }
        let x = joined(a).drop_last();
        assert(x =~= ja + la);
        assert(x =~= jb + lb);
        if a1.len() > 0 {
            lemma_joined_last(a1);
        }
        if b1.len() > 0 {
            lemma_joined_last(b1);
        }
        assert(ja.len() == 0 || ja.last() == '\n');
        assert(jb.len() == 0 || jb.last() == '\n');
        if la.len() < lb.len() {
            let p = ja.len() - 1;
            if ja.len() == 0 {
                assert(x.len() == la.len());
                assert(false);
            }
            lemma_side(ja, la, x, p);
            lemma_side(jb, lb, x, p);
            assert(false);
        } else if lb.len() < la.len() {
            let p = jb.len() - 1;
            if jb.len() == 0 {
                assert(x.len() == lb.len());
                assert(false);
            }
            lemma_side(ja, la, x, p);
            lemma_side(jb, lb, x, p);
            assert(false);
        } else {
            assert(ja.len() == jb.len());
            assert(ja =~= x.take(ja.len() as int));
            assert(jb =~= x.take(jb.len() as int));
            assert(la =~= x.skip(ja.len() as int));
            assert(lb =~= x.skip(jb.len() as int));
            lemma_joined_unique(a1, b1);
            assert(a =~= a1.push(la));
            assert(b =~= b1.push(lb));
        }
    }
}

/// The page `fetch` prints reads back.
///
/// The printed text is the lines `fetch_lines`, each ended by a line break (and no other split
/// into lines without breaks makes it up); the buffer reader can read each of them, and gives
/// back exactly the tasks `fetched_tasks`: every rendered
/// task in page order, with its id, content, depth, project, section and parent (the task it
/// is nested under), unchecked and without a due date. This holds when every project and
/// section name is free of `<!--` and of line breaks and its id is one word without `-->`, and
/// when the content and the id of every task have no line break and no whitespace at their
/// ends, the content no `due:` and the id no `<!--` or `-->`.
pub proof fn law_fetched_page_reads_back(
    projects: Seq<Project>,
    sections: Seq<Section>,
    tasks: Seq<Task>,
)
    requires
        projects_ok(projects),
        sections_ok(sections),
        tasks_ok(tasks),
    ensures
        joined(fetch_lines(projects, sections, tasks)) == fetch_text(projects, sections, tasks),
        readable_lines(fetch_lines(projects, sections, tasks)),
        forall|ls: Seq<Seq<char>>|
            no_breaks(ls) && #[trigger] joined(ls) == fetch_text(projects, sections, tasks) ==> ls
                == fetch_lines(projects, sections, tasks),
        parsed_tasks(fetch_lines(projects, sections, tasks)).len() == fetched_tasks(
            projects,
            sections,
            tasks,
        ).len(),
        forall|j: int|
            0 <= j < fetched_tasks(projects, sections, tasks).len() ==> (BufferTaskV {
                line_num: 0,
                ..#[trigger] parsed_tasks(fetch_lines(projects, sections, tasks))[j]
            }) == fetched_tasks(projects, sections, tasks)[j],
{
    let ls = fetch_lines(projects, sections, tasks);
    let e = fetched_tasks(projects, sections, tasks);
    let init = empty_scan();
    if tasks.len() == 0 {
        lemma_nothing_active_lines(init);
        lemma_adds_none(init);
        assert(unnumbered(e));
    } else {
        let ps = sort_by_order(projects);
        let ts = sort_by_order(tasks);
        let fuel = tasks.len() as nat;
        let k = projects.len() as int;
        lemma_sorted_projects_ok(projects);
        lemma_sorted_tasks_ok(tasks);
        crate::outline::law_sorted_in_order(projects);
        let body = body_lines(ps, sections, ts, fuel, k);
        lemma_body_text(ps, sections, ts, fuel, k);
        lemma_joined_len(body);
        lemma_body_scan(ps, sections, ts, fuel, k, init, 1);
        lemma_body_parents(ps, sections, ts, fuel, k, Seq::empty());
        if body.len() == 0 {
            lemma_all_empty_lines(init);
            assert(scan_from(init, body, 1) == init);
            assert(bares(Seq::<BufferTaskV>::empty()) =~= Seq::<BufferTaskV>::empty());
            assert(bares(Seq::<BufferTaskV>::empty()) + bares(e) =~= bares(e));
            assert(bares(e).len() == 0);
            assert(e.len() == 0);
            lemma_adds_none(init);
        }
    }
    lemma_read_back(ls, e);
    assert(no_breaks(ls)) by {
        assert forall|i: int| 0 <= i < ls.len() implies no_break(#[trigger] ls[i]) by {
            assert(line_readable(ls[i]) && no_break(ls[i]));
        }
    }
    assert forall|l2: Seq<Seq<char>>|
        no_breaks(l2) && #[trigger] joined(l2) == fetch_text(projects, sections, tasks) implies l2
        == ls by {
        lemma_joined_unique(l2, ls);
    }
}


// ─── Which projects get a heading ────────────────────────────────────────────────────────

/// The project heading lines (`## `, not `### `) among `ls`, in order.
pub open spec fn project_headings(ls: Seq<Seq<char>>) -> Seq<Seq<char>>
    decreases ls.len(),
{
    if ls.len() == 0 {
        Seq::empty()
    } else {
        project_headings(ls.drop_last()) + if is_h2_line(ls.last()) {
            seq![ls.last()]
        } else {
            Seq::empty()
        }
    }
}

/// The heading lines of the first `k` projects that have a top-level task, in order.
pub open spec fn shown_projects(ps: Seq<Project>, ts: Seq<Task>, k: int) -> Seq<Seq<char>>
    decreases k,
{
    if k <= 0 {
        Seq::empty()
    } else {
        shown_projects(ps, ts, k - 1) + if has_project_tasks(ts, ps[k - 1].id@) {
            seq![project_line(ps[k - 1])]
        } else {
            Seq::empty()
        }
    }
}

proof fn lemma_headings_add(a: Seq<Seq<char>>, b: Seq<Seq<char>>)
    ensures
        project_headings(a + b) == project_headings(a) + project_headings(b),
    decreases b.len(),
{
    if b.len() == 0 {
        assert(a + b =~= a);
        assert(project_headings(a) + project_headings(b) =~= project_headings(a));
    } else {
        lemma_headings_add(a, b.drop_last());
        assert((a + b).drop_last() =~= a + b.drop_last());
        assert((a + b).last() == b.last());
        assert(project_headings(a + b) =~= project_headings(a) + project_headings(b));
    }
}

proof fn lemma_headings_one(l: Seq<char>)
    ensures
        project_headings(seq![l]) == if is_h2_line(l) {
            seq![l]
        } else {
            Seq::empty()
        },
{
    assert(seq![l].drop_last() =~= Seq::<Seq<char>>::empty());
    assert(seq![l].last() == l);
    assert(project_headings(Seq::<Seq<char>>::empty()) == Seq::<Seq<char>>::empty());
    assert(Seq::<Seq<char>>::empty() + seq![l] =~= seq![l]);
    assert(Seq::<Seq<char>>::empty() + Seq::<Seq<char>>::empty() =~= Seq::<Seq<char>>::empty());
}

proof fn lemma_task_line_not_heading(t: Task, d: nat)
    requires
        task_ok(t),
    ensures
        !is_h2_line(rendered_line(t, d)),
{
    let st = Scan { project: Some(Seq::empty()), section: None, tasks: Seq::empty(), warnings: Seq::empty() };
    law_rendered_task_line_reads_back(st, t, d, 1);
    if is_h2_line(rendered_line(t, d)) {
        assert(scan_line(st, rendered_line(t, d), 1).tasks.len() == 0);
    }
}

proof fn lemma_subtree_headings(ts: Seq<Task>, t: Task, d: nat, fuel: nat)
    requires
        tasks_ok(ts),
        task_ok(t),
    ensures
        project_headings(subtree_lines(ts, t, d, fuel)) == Seq::<Seq<char>>::empty(),
    decreases fuel, 0int, 0int,
{
    let head = seq![rendered_line(t, d)];
    let rest = if fuel == 0 {
        Seq::empty()
    } else {
        children_lines(ts, t.id@, d + 1, (fuel - 1) as nat, ts.len() as int)
    };
    lemma_headings_add(head, rest);
    lemma_headings_one(rendered_line(t, d));
    lemma_task_line_not_heading(t, d);
    if fuel > 0 {
        lemma_children_headings(ts, t.id@, d + 1, (fuel - 1) as nat, ts.len() as int);
    } else {
        assert(project_headings(rest) == Seq::<Seq<char>>::empty());
    }
    assert(Seq::<Seq<char>>::empty() + Seq::<Seq<char>>::empty() =~= Seq::<Seq<char>>::empty());
}

proof fn lemma_children_headings(ts: Seq<Task>, id: Seq<char>, d: nat, fuel: nat, k: int)
    requires
        tasks_ok(ts),
        k <= ts.len(),
    ensures
        project_headings(children_lines(ts, id, d, fuel, k)) == Seq::<Seq<char>>::empty(),
    decreases fuel, 1int, k,
{
    if k > 0 {
        let prev = children_lines(ts, id, d, fuel, k - 1);
        let sub = if is_child_of(ts[k - 1], id) {
            subtree_lines(ts, ts[k - 1], d, fuel)
        } else {
            Seq::empty()
        };
        lemma_children_headings(ts, id, d, fuel, k - 1);
        lemma_headings_add(prev, sub);
        if is_child_of(ts[k - 1], id) {
            assert(task_ok(ts[k - 1]));
            lemma_subtree_headings(ts, ts[k - 1], d, fuel);
        } else {
            assert(project_headings(sub) == Seq::<Seq<char>>::empty());
        }
        assert(Seq::<Seq<char>>::empty() + Seq::<Seq<char>>::empty() =~= Seq::<Seq<char>>::empty());
    } else {
        assert(project_headings(Seq::<Seq<char>>::empty()) == Seq::<Seq<char>>::empty());
    }
}

proof fn lemma_group_headings(ts: Seq<Task>, pid: Seq<char>, sk: Option<Seq<char>>, fuel: nat, k: int)
    requires
        tasks_ok(ts),
        k <= ts.len(),
    ensures
        project_headings(group_lines(ts, pid, sk, fuel, k)) == Seq::<Seq<char>>::empty(),
    decreases k,
{
    if k > 0 {
        let prev = group_lines(ts, pid, sk, fuel, k - 1);
        let sub = if in_group(ts[k - 1], pid, sk) {
            subtree_lines(ts, ts[k - 1], 0, fuel)
        } else {
            Seq::empty()
        };
        lemma_group_headings(ts, pid, sk, fuel, k - 1);
        lemma_headings_add(prev, sub);
        if in_group(ts[k - 1], pid, sk) {
            assert(task_ok(ts[k - 1]));
            lemma_subtree_headings(ts, ts[k - 1], 0, fuel);
        } else {
            assert(project_headings(sub) == Seq::<Seq<char>>::empty());
        }
        assert(Seq::<Seq<char>>::empty() + Seq::<Seq<char>>::empty() =~= Seq::<Seq<char>>::empty());
    } else {
        assert(project_headings(Seq::<Seq<char>>::empty()) == Seq::<Seq<char>>::empty());
    }
}

proof fn lemma_blank_heading()
    ensures
        project_headings(seq![Seq::<char>::empty()]) == Seq::<Seq<char>>::empty(),
{
    lemma_headings_one(Seq::empty());
    assert(!occurs_at(Seq::<char>::empty(), h2_pat(), 0));
}

proof fn lemma_sections_headings(ts: Seq<Task>, secs: Seq<Section>, pid: Seq<char>, fuel: nat, k: int)
    requires
        tasks_ok(ts),
        sections_ok(secs),
        k <= secs.len(),
    ensures
        project_headings(sections_lines(ts, secs, pid, fuel, k)) == Seq::<Seq<char>>::empty(),
    decreases k,
{
    let e = Seq::<Seq<char>>::empty();
    if k > 0 {
        let s = secs[k - 1];
        let prev = sections_lines(ts, secs, pid, fuel, k - 1);
        lemma_sections_headings(ts, secs, pid, fuel, k - 1);
        if has_group(ts, pid, Some(s.id@)) {
            let head = seq![section_line(s)];
            let blank: Seq<Seq<char>> = seq![Seq::empty()];
            let g = group_lines(ts, pid, Some(s.id@), fuel, ts.len() as int);
            let sub = seq![section_line(s), Seq::empty()] + g + seq![Seq::empty()];
            assert(sub =~= head + blank + g + blank);
            assert(heading_ok(s.name@, s.id@));
            lemma_heading(h3_pat(), s.name@, section_key(), s.id@);
            lemma_headings_one(section_line(s));
            lemma_blank_heading();
            lemma_group_headings(ts, pid, Some(s.id@), fuel, ts.len() as int);
            lemma_headings_add(head, blank);
            lemma_headings_add(head + blank, g);
            lemma_headings_add(head + blank + g, blank);
            lemma_headings_add(prev, sub);
            assert(e + e =~= e);
        } else {
            assert(sections_lines(ts, secs, pid, fuel, k) =~= prev);
        }
    } else {
        assert(project_headings(e) == e);
    }
}

proof fn lemma_project_headings(ts: Seq<Task>, sections: Seq<Section>, p: Project, fuel: nat)
    requires
        tasks_ok(ts),
        sections_ok(sections),
        heading_ok(p.name@, p.id@),
    ensures
        project_headings(project_lines(ts, sections, p, fuel)) == if has_project_tasks(ts, p.id@) {
            seq![project_line(p)]
        } else {
            Seq::empty()
        },
{
    let e = Seq::<Seq<char>>::empty();
    let pid = p.id@;
    let secs = sort_by_order(sections_of(sections, pid, sections.len() as int));
    if has_project_tasks(ts, pid) {
        lemma_sorted_sections_ok(sections, pid);
        let head = seq![project_line(p)];
        let blank: Seq<Seq<char>> = seq![Seq::empty()];
        let loose = loose_lines(ts, pid, fuel);
        let sl = sections_lines(ts, secs, pid, fuel, secs.len() as int);
        assert(project_lines(ts, sections, p, fuel) =~= head + blank + loose + sl);
        lemma_heading(h2_pat(), p.name@, project_key(), p.id@);
        lemma_headings_one(project_line(p));
        lemma_blank_heading();
        lemma_sections_headings(ts, secs, pid, fuel, secs.len() as int);
        if has_group(ts, pid, None) {
            let g = group_lines(ts, pid, None, fuel, ts.len() as int);
            lemma_group_headings(ts, pid, None, fuel, ts.len() as int);
            lemma_headings_add(g, blank);
            assert(e + e =~= e);
        } else {
            assert(project_headings(loose) == e);
        }
        lemma_headings_add(head, blank);
        lemma_headings_add(head + blank, loose);
        lemma_headings_add(head + blank + loose, sl);
        assert(head + e + e + e =~= head);
    } else {
        assert(project_headings(e) == e);
    }
}

proof fn lemma_body_headings(
    projects: Seq<Project>,
    sections: Seq<Section>,
    ts: Seq<Task>,
    fuel: nat,
    k: int,
)
    requires
        tasks_ok(ts),
        sections_ok(sections),
        projects_ok(projects),
        k <= projects.len(),
    ensures
        project_headings(body_lines(projects, sections, ts, fuel, k)) == shown_projects(projects, ts, k),
    decreases k,
{
    if k > 0 {
        lemma_body_headings(projects, sections, ts, fuel, k - 1);
        lemma_headings_add(
            body_lines(projects, sections, ts, fuel, k - 1),
            project_lines(ts, sections, projects[k - 1], fuel),
        );
        assert(heading_ok(projects[k - 1].name@, projects[k - 1].id@));
        lemma_project_headings(ts, sections, projects[k - 1], fuel);
    } else {
        assert(project_headings(Seq::<Seq<char>>::empty()) == Seq::<Seq<char>>::empty());
    }
}

/// On the page `fetch` prints, the project headings are those of the projects that have a
/// top-level task, one each, in display order (projects of equal order in the given order);
/// a project without a top-level task gets none. (Conditions as for
/// `law_fetched_page_reads_back`; with no tasks at all the page is a notice without headings.)
pub proof fn law_fetched_page_project_headings(
    projects: Seq<Project>,
    sections: Seq<Section>,
    tasks: Seq<Task>,
)
    requires
        projects_ok(projects),
        sections_ok(sections),
        tasks_ok(tasks),
        tasks.len() > 0,
    ensures
        project_headings(fetch_lines(projects, sections, tasks)) == shown_projects(
            sort_by_order(projects),
            sort_by_order(tasks),
            projects.len() as int,
        ),
{
    let ps = sort_by_order(projects);
    let ts = sort_by_order(tasks);
    let fuel = tasks.len() as nat;
    let k = projects.len() as int;
    lemma_sorted_projects_ok(projects);
    lemma_sorted_tasks_ok(tasks);
    crate::outline::law_sorted_in_order(projects);
    let body = body_lines(ps, sections, ts, fuel, k);
    lemma_body_headings(ps, sections, ts, fuel, k);
    if body.len() == 0 {
        reveal_strlit("# No active tasks");
        reveal_strlit("All projects appear to be empty.");
        let la = seq!["# No active tasks"@];
        let lb: Seq<Seq<char>> = seq![Seq::empty()];
        let lc = seq!["All projects appear to be empty."@];
        assert(fetch_lines(projects, sections, tasks) =~= la + lb + lc);
        lemma_headings_add(la + lb, lc);
        lemma_headings_add(la, lb);
        lemma_headings_one("# No active tasks"@);
        lemma_headings_one("All projects appear to be empty."@);
        lemma_blank_heading();
        assert(!occurs_at("# No active tasks"@, h2_pat(), 0)) by {
            if occurs_at("# No active tasks"@, h2_pat(), 0) {
                assert("# No active tasks"@.subrange(0, 3)[1] == "# No active tasks"@[1]);
            }
        }
        assert(!occurs_at("All projects appear to be empty."@, h2_pat(), 0)) by {
            if occurs_at("All projects appear to be empty."@, h2_pat(), 0) {
                assert("All projects appear to be empty."@.subrange(0, 3)[0] == "All projects appear to be empty."@[0]);
            }
        }
        assert(project_headings(body) == Seq::<Seq<char>>::empty());
        let e = Seq::<Seq<char>>::empty();
        assert(e + e + e =~= e);
    }
}

} // verus!
