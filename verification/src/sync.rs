//! The diff between the edited buffer and the last snapshot, and the snapshot after a sync.
//!
//! Conflict policy: the buffer wins.
//! A task whose snapshot was unchecked and that shows `[x]` is completed; one whose snapshot
//! was checked and that shows `[ ]` is reopened.
use crate::models::{
    btasks, clone_opt, has_key, keys_unique, lookup, nonempty_key, opt_eq, ops_view, ov, strs,
    BufferTask, BufferTaskV, SnapshotTask, SnapshotTaskV, SyncOp, SyncOpV, SyncSummary, TaskMap,
};
use crate::parser::{all_ws_from, line_readable, parse, parsed_tasks, parsed_warnings, line_msg};
use crate::outline::{
    in_order, law_sort_keeps_ordered, law_sorted_in_order, lemma_sort_members, sort_by_order, Ordered,
};
use crate::text::{all_ws, dec, push_usize, to_chars};
use std::collections::HashMap;
use vstd::prelude::*;
use vstd::string::*;

verus! {

pub open spec fn msg_no_project(n: nat, content: Seq<char>) -> Seq<char> {
    line_msg(n, ": '"@ + content + "' has no project — skipped"@)
}

pub open spec fn msg_unknown_id(n: nat, content: Seq<char>, id: Seq<char>) -> Seq<char> {
    line_msg(n, ": '"@ + content + "' (id:"@ + id + ") not in snapshot — skipped"@)
}

/// The `Update` a task gets when its content or due date differs from its snapshot.
pub open spec fn update_op(t: BufferTaskV, j: usize, s: SnapshotTaskV) -> Seq<(usize, SyncOpV)> {
    if t.content != s.content || t.due != s.due {
        seq![
            (
                j,
                SyncOpV::Update {
                    id: t.id.unwrap(),
                    old_content: s.content,
                    new_content: t.content,
                    old_due: s.due,
                    new_due: t.due,
                },
            ),
        ]
    } else {
        Seq::empty()
    }
}

/// The `Move` a task gets when its project, section or parent differs from its snapshot
/// (and it has a project).
pub open spec fn move_op(t: BufferTaskV, j: usize, s: SnapshotTaskV) -> Seq<(usize, SyncOpV)> {
    if (t.project_id != Some(s.project_id) || t.section_id != s.section_id || t.parent_id
        != s.parent_id) && t.project_id is Some {
        seq![
            (
                j,
                SyncOpV::Move {
                    id: t.id.unwrap(),
                    content: t.content,
                    project_id: t.project_id.unwrap(),
                    section_id: t.section_id,
                    parent_id: t.parent_id,
                },
            ),
        ]
    } else {
        Seq::empty()
    }
}

/// The operations for buffer task `t` at index `j`, against the snapshot `snap`.
pub open spec fn task_ops(t: BufferTaskV, j: usize, snap: Seq<(Seq<char>, SnapshotTaskV)>) -> Seq<
    (usize, SyncOpV),
> {
    match t.id {
        None => match t.project_id {
            None => Seq::empty(),
            Some(pid) => seq![
                (
                    j,
                    SyncOpV::Create {
                        content: t.content,
                        project_id: pid,
                        section_id: t.section_id,
                        parent_id: t.parent_id,
                        due: t.due,
                    },
                ),
            ],
        },
        Some(id) => match lookup(snap, id) {
            None => if t.checked {
                seq![(j, SyncOpV::Complete { id: id, content: t.content })]
            } else {
                Seq::empty()
            },
            Some(s) => if !s.checked && t.checked {
                seq![(j, SyncOpV::Complete { id: id, content: t.content })]
            } else if s.checked && !t.checked {
                seq![(j, SyncOpV::Reopen { id: id, content: t.content })]
            } else {
                update_op(t, j, s) + move_op(t, j, s)
            },
        },
    }
}

/// The warning for a buffer task that is skipped: a new task with no project, or a task with
/// an id that the snapshot does not know and that is not checked.
pub open spec fn task_warning(t: BufferTaskV, snap: Seq<(Seq<char>, SnapshotTaskV)>) -> Option<
    Seq<char>,
> {
    match t.id {
        None => if t.project_id is None {
            Some(msg_no_project(t.line_num, t.content))
        } else {
            None
        },
        Some(id) => if lookup(snap, id) is None && !t.checked {
            Some(msg_unknown_id(t.line_num, t.content, id))
        } else {
            None
        },
    }
}

/// The operations of the first `k` buffer tasks, in buffer order.
pub open spec fn buffer_ops(ts: Seq<BufferTaskV>, snap: Seq<(Seq<char>, SnapshotTaskV)>, k: int) -> Seq<
    (usize, SyncOpV),
>
    decreases k,
{
    if k <= 0 {
        Seq::empty()
    } else {
        buffer_ops(ts, snap, k - 1) + task_ops(ts[k - 1], (k - 1) as usize, snap)
    }
}

/// The warnings of the first `k` buffer tasks that are skipped, in buffer order.
pub open spec fn buffer_warnings(
    ts: Seq<BufferTaskV>,
    snap: Seq<(Seq<char>, SnapshotTaskV)>,
    k: int,
) -> Seq<Seq<char>>
    decreases k,
{
    if k <= 0 {
        Seq::empty()
    } else {
        match task_warning(ts[k - 1], snap) {
            Some(w) => buffer_warnings(ts, snap, k - 1).push(w),
            None => buffer_warnings(ts, snap, k - 1),
        }
    }
}

/// Some buffer task carries the id `k`.
pub open spec fn has_id(ts: Seq<BufferTaskV>, k: Seq<char>) -> bool {
    exists|j: int| 0 <= j < ts.len() && #[trigger] ts[j].id == Some(k)
}

/// A `Delete` for each of the first `k` snapshot entries whose key no buffer task carries,
/// in snapshot order.
pub open spec fn delete_ops(ts: Seq<BufferTaskV>, snap: Seq<(Seq<char>, SnapshotTaskV)>, k: int) -> Seq<
    (usize, SyncOpV),
>
    decreases k,
{
    if k <= 0 {
        Seq::empty()
    } else {
        let e = snap[k - 1];
        if has_id(ts, e.0) {
            delete_ops(ts, snap, k - 1)
        } else {
            delete_ops(ts, snap, k - 1).push(
                (usize::MAX, SyncOpV::Delete { id: e.0, content: e.1.content }),
            )
        }
    }
}

/// `Line {n}: '{content}' has no project — skipped`.
fn no_project_message(n: usize, content: &String) -> (r: String)
    ensures
        r@ == msg_no_project(n as nat, content@),
{
    let mut w = String::from_str("Line ");
    push_usize(&mut w, n);
    w.append(": '");
    w.append(content.as_str());
    w.append("' has no project — skipped");
    assert(w@ =~= msg_no_project(n as nat, content@));
    w
}

/// `Line {n}: '{content}' (id:{id}) not in snapshot — skipped`.
fn unknown_id_message(n: usize, content: &String, id: &String) -> (r: String)
    ensures
        r@ == msg_unknown_id(n as nat, content@, id@),
{
    let mut w = String::from_str("Line ");
    push_usize(&mut w, n);
    w.append(": '");
    w.append(content.as_str());
    w.append("' (id:");
    w.append(id.as_str());
    w.append(") not in snapshot — skipped");
    assert(w@ =~= msg_unknown_id(n as nat, content@, id@));
    w
}

/// The operations and the skip warning for buffer task `t` at index `j`.
fn ops_for_task(t: &BufferTask, j: usize, snapshot: &TaskMap) -> (r: (Vec<(usize, SyncOp)>, Option<String>))
    ensures
        ops_view(r.0@) == task_ops(t@, j, snapshot@),
        ov(r.1) == task_warning(t@, snapshot@),
{
    let mut ops: Vec<(usize, SyncOp)> = Vec::new();
    match &t.id {
        None => match &t.project_id {
            None => {
                return (ops, Some(no_project_message(t.line_num, &t.content)));
            },
            Some(pid) => {
                ops.push(
                    (
                        j,
                        SyncOp::Create {
                            content: t.content.clone(),
                            project_id: pid.clone(),
                            section_id: clone_opt(&t.section_id),
                            parent_id: clone_opt(&t.parent_id),
                            due: clone_opt(&t.due),
                        },
                    ),
                );
                assert(ops_view(ops@) =~= task_ops(t@, j, snapshot@));
                return (ops, None);
            },
        },
        Some(id) => {
            match snapshot.get(id.as_str()) {
                None => {
                    if t.checked {
                        ops.push((j, SyncOp::Complete { id: id.clone(), content: t.content.clone() }));
                        assert(ops_view(ops@) =~= task_ops(t@, j, snapshot@));
                        return (ops, None);
                    } else {
                        assert(ops_view(ops@) =~= task_ops(t@, j, snapshot@));
                        return (ops, Some(unknown_id_message(t.line_num, &t.content, id)));
                    }
                },
                Some(s) => {
                    if !s.checked && t.checked {
                        ops.push((j, SyncOp::Complete { id: id.clone(), content: t.content.clone() }));
                    } else if s.checked && !t.checked {
                        ops.push((j, SyncOp::Reopen { id: id.clone(), content: t.content.clone() }));
                    } else {
                        if t.content != s.content || !opt_eq(&t.due, &s.due) {
                            ops.push(
                                (
                                    j,
                                    SyncOp::Update {
                                        id: id.clone(),
                                        old_content: s.content.clone(),
                                        new_content: t.content.clone(),
                                        old_due: clone_opt(&s.due),
                                        new_due: clone_opt(&t.due),
                                    },
                                ),
                            );
                        }
                        let proj_changed = match &t.project_id {
                            Some(p) => *p != s.project_id,
                            None => true,
                        };
                        let sec_changed = !opt_eq(&t.section_id, &s.section_id);
                        let par_changed = !opt_eq(&t.parent_id, &s.parent_id);
                        if proj_changed || sec_changed || par_changed {
                            match &t.project_id {
                                Some(pid) => {
                                    ops.push(
                                        (
                                            j,
                                            SyncOp::Move {
                                                id: id.clone(),
                                                content: t.content.clone(),
                                                project_id: pid.clone(),
                                                section_id: clone_opt(&t.section_id),
                                                parent_id: clone_opt(&t.parent_id),
                                            },
                                        ),
                                    );
                                },
                                None => {},
                            }
                        }
                    }
                    assert(ops_view(ops@) =~= task_ops(t@, j, snapshot@));
                    return (ops, None);
                },
            }
        },
    }
}

/// Does some buffer task carry the id `key`?
fn buffer_has_id(buffer_tasks: &[BufferTask], key: &String) -> (r: bool)
    ensures
        r == has_id(btasks(buffer_tasks@), key@),
{
    let ghost ts = btasks(buffer_tasks@);
    let mut j: usize = 0;
    while j < buffer_tasks.len()
        invariant
            ts == btasks(buffer_tasks@),
            j <= buffer_tasks@.len(),
            forall|k: int| 0 <= k < j ==> #[trigger] ts[k].id != Some(key@),
        decreases buffer_tasks@.len() - j,
    {
        match &buffer_tasks[j].id {
            Some(id) => {
                if *id == *key {
                    assert(ts[j as int].id == Some(key@));
                    return true;
                }
            },
            None => {},
        }
        j = j + 1;
    }
    false
}

/// Computes the operations that bring Todoist in line with the buffer.
///
/// For each buffer task in order: a new task (no id) is created in its project, or skipped
/// with a warning when it has none; a task whose id the snapshot does not know is completed
/// if checked and skipped with a warning otherwise; a known task that changed from unchecked
/// to checked is completed, from checked to unchecked reopened, and otherwise updated when its
/// content or due date changed and moved when its project, section or parent changed. Then
/// each snapshot task that no buffer task carries is deleted, in snapshot order (buffer index
/// `usize::MAX`). Each skip adds one to `summary.skipped`.
pub fn compute_ops(buffer_tasks: &[BufferTask], snapshot: &TaskMap, summary: &mut SyncSummary) -> (r:
    Vec<(usize, SyncOp)>)
    requires
        old(summary).skipped + buffer_tasks@.len() <= usize::MAX,
    ensures
        ops_view(r@) == buffer_ops(btasks(buffer_tasks@), snapshot@, buffer_tasks@.len() as int)
            + delete_ops(btasks(buffer_tasks@), snapshot@, snapshot@.len() as int),
        strs(final(summary).warnings@) == strs(old(summary).warnings@) + buffer_warnings(
            btasks(buffer_tasks@),
            snapshot@,
            buffer_tasks@.len() as int,
        ),
        final(summary).skipped == old(summary).skipped + buffer_warnings(
            btasks(buffer_tasks@),
            snapshot@,
            buffer_tasks@.len() as int,
        ).len(),
        final(summary).created == old(summary).created,
        final(summary).updated == old(summary).updated,
        final(summary).completed == old(summary).completed,
        final(summary).reopened == old(summary).reopened,
        final(summary).deleted == old(summary).deleted,
        final(summary).moved == old(summary).moved,
        final(summary).reordered == old(summary).reordered,
        final(summary).errors@ == old(summary).errors@,
{
    let ghost ts = btasks(buffer_tasks@);
    let ghost snap = snapshot@;
    let mut ops: Vec<(usize, SyncOp)> = Vec::new();
    let mut j: usize = 0;
    while j < buffer_tasks.len()
        invariant
            ts == btasks(buffer_tasks@),
            snap == snapshot@,
            j <= buffer_tasks@.len(),
            ops_view(ops@) == buffer_ops(ts, snap, j as int),
            strs(summary.warnings@) == strs(old(summary).warnings@) + buffer_warnings(ts, snap, j as int),
            summary.skipped == old(summary).skipped + buffer_warnings(ts, snap, j as int).len(),
            buffer_warnings(ts, snap, j as int).len() <= j,
            old(summary).skipped + buffer_tasks@.len() <= usize::MAX,
            summary.created == old(summary).created,
            summary.updated == old(summary).updated,
            summary.completed == old(summary).completed,
            summary.reopened == old(summary).reopened,
            summary.deleted == old(summary).deleted,
            summary.moved == old(summary).moved,
            summary.reordered == old(summary).reordered,
            summary.errors@ == old(summary).errors@,
        decreases buffer_tasks@.len() - j,
    {
        let (mut more, warning) = ops_for_task(&buffer_tasks[j], j, snapshot);
        let ghost before = ops@;
        let ghost added = more@;
        ops.append(&mut more);
        assert(ops_view(ops@) =~= ops_view(before) + ops_view(added));
        match warning {
            Some(w) => {
                let ghost wb = summary.warnings@;
                summary.warnings.push(w);
                assert(strs(summary.warnings@) =~= strs(wb).push(w@));
                summary.skipped = summary.skipped + 1;
            },
            None => {},
        }
        j = j + 1;
    }
    let mut i: usize = 0;
    while i < snapshot.len()
        invariant
            ts == btasks(buffer_tasks@),
            snap == snapshot@,
            i <= snap.len(),
            ops_view(ops@) == buffer_ops(ts, snap, buffer_tasks@.len() as int) + delete_ops(
                ts,
                snap,
                i as int,
            ),
        decreases snap.len() - i,
    {
        let (key, task) = snapshot.entry(i);
        if !buffer_has_id(buffer_tasks, key) {
            let ghost before = ops@;
            ops.push((usize::MAX, SyncOp::Delete { id: key.clone(), content: task.content.clone() }));
            assert(ops_view(ops@) =~= ops_view(before).push(
                (usize::MAX, SyncOpV::Delete { id: key@, content: task.content@ }),
            ));
        }
        i = i + 1;
    }
    ops
}


/// A buffer task takes part in reorder detection when the snapshot knows its id.
pub open spec fn known(t: BufferTaskV, snap: Seq<(Seq<char>, SnapshotTaskV)>) -> bool {
    t.id is Some && lookup(snap, t.id.unwrap()) is Some
}

/// Siblings share project, section and parent.
pub open spec fn siblings(a: BufferTaskV, b: BufferTaskV) -> bool {
    a.project_id == b.project_id && a.section_id == b.section_id && a.parent_id == b.parent_id
}

/// The known siblings of `x` among the first `k` buffer tasks, in buffer order, each with
/// its id and its snapshot `child_order`.
pub open spec fn sibling_orders(
    ts: Seq<BufferTaskV>,
    snap: Seq<(Seq<char>, SnapshotTaskV)>,
    x: BufferTaskV,
    k: int,
) -> Seq<(Seq<char>, i64)>
    decreases k,
{
    if k <= 0 {
        Seq::empty()
    } else {
        let prev = sibling_orders(ts, snap, x, k - 1);
        let t = ts[k - 1];
        if known(t, snap) && siblings(t, x) {
            prev.push((t.id.unwrap(), lookup(snap, t.id.unwrap()).unwrap().child_order))
        } else {
            prev
        }
    }
}

/// Task `j` is the first known task of its sibling group.
pub open spec fn opens_group(ts: Seq<BufferTaskV>, snap: Seq<(Seq<char>, SnapshotTaskV)>, j: int) -> bool {
    &&& known(ts[j], snap)
    &&& forall|k: int| 0 <= k < j ==> !(known(#[trigger] ts[k], snap) && siblings(ts[k], ts[j]))
}

/// The buffer lists the group in a different order than the snapshot's `child_order` does:
/// some task comes before one with a smaller `child_order`. Sorting the group stably by
/// `child_order` then changes its sequence of ids, and only then
/// (`law_out_of_order_iff_sort_moves_ids`).
pub open spec fn out_of_order(g: Seq<(Seq<char>, i64)>) -> bool {
    exists|a: int, b: int| 0 <= a < b < g.len() && #[trigger] g[a].1 > #[trigger] g[b].1
}

/// New positions `1, 2, ...` in buffer order for a group of two or more that is out of order.
pub open spec fn group_items(g: Seq<(Seq<char>, i64)>) -> Seq<(Seq<char>, i64)> {
    if g.len() >= 2 && out_of_order(g) {
        Seq::new(g.len(), |i: int| (g[i].0, (i + 1) as i64))
    } else {
        Seq::empty()
    }
}

/// The reorder items of the groups opened among the first `k` buffer tasks, group by group in
/// the order the groups first appear.
pub open spec fn reorder_items(ts: Seq<BufferTaskV>, snap: Seq<(Seq<char>, SnapshotTaskV)>, k: int) -> Seq<
    (Seq<char>, i64),
>
    decreases k,
{
    if k <= 0 {
        Seq::empty()
    } else if opens_group(ts, snap, k - 1) {
        reorder_items(ts, snap, k - 1) + group_items(
            sibling_orders(ts, snap, ts[k - 1], ts.len() as int),
        )
    } else {
        reorder_items(ts, snap, k - 1)
    }
}

/// Are the two buffer tasks siblings?
fn same_siblings(a: &BufferTask, b: &BufferTask) -> (r: bool)
    ensures
        r == siblings(a@, b@),
{
    opt_eq(&a.project_id, &b.project_id) && opt_eq(&a.section_id, &b.section_id) && opt_eq(
        &a.parent_id,
        &b.parent_id,
    )
}

/// The snapshot `child_order` of a buffer task the snapshot knows.
fn known_order(t: &BufferTask, snapshot: &TaskMap) -> (r: Option<i64>)
    ensures
        r is Some <==> known(t@, snapshot@),
        r matches Some(o) ==> o == lookup(snapshot@, t@.id.unwrap()).unwrap().child_order,
{
    match &t.id {
        Some(id) => match snapshot.get(id.as_str()) {
            Some(s) => Some(s.child_order),
            None => None,
        },
        None => None,
    }
}

pub open spec fn pairs_view(v: Seq<(String, i64)>) -> Seq<(Seq<char>, i64)> {
    v.map_values(|p: (String, i64)| (p.0@, p.1))
}


proof fn lemma_sibling_orders_len(
    ts: Seq<BufferTaskV>,
    snap: Seq<(Seq<char>, SnapshotTaskV)>,
    x: BufferTaskV,
    k: int,
)
    ensures
        sibling_orders(ts, snap, x, k).len() <= if k < 0 {
            0
        } else {
            k
        },
    decreases k,
{
    if k > 0 {
        lemma_sibling_orders_len(ts, snap, x, k - 1);
    }
}

/// Is task `j` the first known task of its sibling group?
fn opens_group_at(buffer_tasks: &[BufferTask], snapshot: &TaskMap, j: usize) -> (r: bool)
    requires
        j < buffer_tasks@.len(),
    ensures
        r == opens_group(btasks(buffer_tasks@), snapshot@, j as int),
{
    let ghost ts = btasks(buffer_tasks@);
    if known_order(&buffer_tasks[j], snapshot).is_none() {
        return false;
    }
    let mut k: usize = 0;
    while k < j
        invariant
            ts == btasks(buffer_tasks@),
            j < buffer_tasks@.len(),
            k <= j,
            forall|m: int| 0 <= m < k ==> !(known(#[trigger] ts[m], snapshot@) && siblings(ts[m], ts[j as int])),
        decreases j - k,
    {
        if known_order(&buffer_tasks[k], snapshot).is_some() && same_siblings(
            &buffer_tasks[k],
            &buffer_tasks[j],
        ) {
            assert(known(ts[k as int], snapshot@) && siblings(ts[k as int], ts[j as int]));
            return false;
        }
        k = k + 1;
    }
    true
}

/// The known siblings of `x` in the buffer, with their snapshot `child_order`s.
fn sibling_orders_of(buffer_tasks: &[BufferTask], snapshot: &TaskMap, x: &BufferTask) -> (r: Vec<
    (String, i64),
>)
    ensures
        pairs_view(r@) == sibling_orders(btasks(buffer_tasks@), snapshot@, x@, buffer_tasks@.len() as int),
{
    let ghost ts = btasks(buffer_tasks@);
    let mut g: Vec<(String, i64)> = Vec::new();
    let mut k: usize = 0;
    while k < buffer_tasks.len()
        invariant
            ts == btasks(buffer_tasks@),
            k <= buffer_tasks@.len(),
            pairs_view(g@) == sibling_orders(ts, snapshot@, x@, k as int),
        decreases buffer_tasks@.len() - k,
    {
        let t = &buffer_tasks[k];
        match known_order(t, snapshot) {
            Some(o) => {
                if same_siblings(t, x) {
                    match &t.id {
                        Some(id) => {
                            let ghost before = g@;
                            g.push((id.clone(), o));
                            assert(pairs_view(g@) =~= pairs_view(before).push((id@, o)));
                        },
                        None => {},
                    }
                }
            },
            None => {},
        }
        k = k + 1;
    }
    g
}

/// Is some entry of `g` followed by one with a smaller order?
fn is_out_of_order(g: &Vec<(String, i64)>) -> (r: bool)
    ensures
        r == out_of_order(pairs_view(g@)),
{
    let ghost p = pairs_view(g@);
    let mut a: usize = 0;
    while a < g.len()
        invariant
            p == pairs_view(g@),
            a <= g@.len(),
            forall|x: int, y: int| 0 <= x < a && x < y < p.len() ==> !(#[trigger] p[x].1 > #[trigger] p[y].1),
        decreases g@.len() - a,
    {
        let mut b: usize = a + 1;
        while b < g.len()
            invariant
                p == pairs_view(g@),
                a < g@.len(),
                a + 1 <= b <= g@.len(),
                forall|x: int, y: int| 0 <= x < a && x < y < p.len() ==> !(#[trigger] p[x].1 > #[trigger] p[y].1),
                forall|y: int| a < y < b ==> !(p[a as int].1 > #[trigger] p[y].1),
            decreases g@.len() - b,
        {
            if g[a].1 > g[b].1 {
                assert(p[a as int].1 > p[b as int].1);
                return true;
            }
            b = b + 1;
        }
        a = a + 1;
    }
    false
}

/// Detects sibling groups whose buffer order differs from the snapshot's `child_order`.
///
/// Tasks whose id the snapshot knows are grouped by (project, section, parent). Each group
/// of two or more that the buffer lists in a different order than the snapshot gets new
/// positions `1, 2, ...` in buffer order; all of them go into one `Reorder`, group by group
/// in the order the groups first appear in the buffer. No such group: `None`.
pub fn compute_reorder(buffer_tasks: &[BufferTask], snapshot: &TaskMap) -> (r: Option<SyncOp>)
    requires
        buffer_tasks@.len() < i64::MAX,
    ensures
        match r {
            None => reorder_items(btasks(buffer_tasks@), snapshot@, buffer_tasks@.len() as int).len()
                == 0,
            Some(op) => op@ == (SyncOpV::Reorder {
                items: reorder_items(btasks(buffer_tasks@), snapshot@, buffer_tasks@.len() as int),
            }) && reorder_items(btasks(buffer_tasks@), snapshot@, buffer_tasks@.len() as int).len()
                > 0,
        },
{
    let ghost ts = btasks(buffer_tasks@);
    let n = buffer_tasks.len();
    let mut items: Vec<(String, i64)> = Vec::new();
    let mut j: usize = 0;
    while j < n
        invariant
            ts == btasks(buffer_tasks@),
            n == buffer_tasks@.len(),
            n < i64::MAX,
            j <= n,
            pairs_view(items@) == reorder_items(ts, snapshot@, j as int),
        decreases n - j,
    {
        if opens_group_at(buffer_tasks, snapshot, j) {
            let g = sibling_orders_of(buffer_tasks, snapshot, &buffer_tasks[j]);
            proof {
                lemma_sibling_orders_len(ts, snapshot@, ts[j as int], n as int);
            }
            let ghost before = items@;
            let ghost gv = pairs_view(g@);
            if g.len() >= 2 && is_out_of_order(&g) {
                let mut i: usize = 0;
                while i < g.len()
                    invariant
                        gv == pairs_view(g@),
                        g@.len() <= n < i64::MAX,
                        i <= g@.len(),
                        pairs_view(items@) == pairs_view(before) + Seq::new(
                            i as nat,
                            |m: int| (gv[m].0, (m + 1) as i64),
                        ),
                    decreases g@.len() - i,
                {
                    let ghost b2 = items@;
                    items.push((g[i].0.clone(), (i as i64) + 1));
                    assert(pairs_view(items@) =~= pairs_view(before) + Seq::new(
                        (i + 1) as nat,
                        |m: int| (gv[m].0, (m + 1) as i64),
                    )) by {
                        assert(pairs_view(items@) =~= pairs_view(b2).push((g@[i as int].0@, (i + 1) as i64)));
                    }
                    i = i + 1;
                }
                assert(Seq::new(g@.len() as nat, |m: int| (gv[m].0, (m + 1) as i64)) =~= group_items(gv));
            } else {
                assert(group_items(gv) =~= Seq::<(Seq<char>, i64)>::empty());
            }
            assert(pairs_view(items@) =~= reorder_items(ts, snapshot@, j + 1));
        }
        j = j + 1;
    }
    if items.len() == 0 {
        None
    } else {
        Some(SyncOp::Reorder { items })
    }
}


pub open spec fn msg_parent_missing(pid: Seq<char>) -> Seq<char> {
    "Parent task "@ + pid + " not found — child will be placed at root."@
}

/// The parent id for the task at `cur`, looking at the tasks before it from index `i` on:
/// a task carrying `pid` gives `pid`; a new task (no id) that was created as `ids[i]` and
/// sits one level above the task at `cur` gives its new id.
pub open spec fn resolve_from(
    pid: Seq<char>,
    cur: int,
    ts: Seq<BufferTaskV>,
    ids: Map<usize, String>,
    i: int,
) -> Option<Seq<char>>
    decreases ts.len() - i,
{
    if i < 0 || i >= ts.len() || i >= cur {
        None
    } else if ts[i].id == Some(pid) {
        Some(pid)
    } else if ts[i].id is None && ids.contains_key(i as usize) && ts[cur].indent_level
        == ts[i].indent_level + 1 {
        Some(ids[i as usize]@)
    } else {
        resolve_from(pid, cur, ts, ids, i + 1)
    }
}

/// The lookup of `resolve_from` would read the task at `cur` when there is none.
pub open spec fn resolve_reads_past_end(
    pid: Seq<char>,
    cur: int,
    ts: Seq<BufferTaskV>,
    ids: Map<usize, String>,
    i: int,
) -> bool
    decreases ts.len() - i,
{
    if i < 0 || i >= ts.len() || i >= cur {
        false
    } else if ts[i].id == Some(pid) {
        false
    } else if ts[i].id is None && ids.contains_key(i as usize) {
        cur >= ts.len() || (ts[cur].indent_level != ts[i].indent_level + 1
            && resolve_reads_past_end(pid, cur, ts, ids, i + 1))
    } else {
        resolve_reads_past_end(pid, cur, ts, ids, i + 1)
    }
}

/// Finds the server id of the parent of the task at `current_idx`, among the tasks before it.
///
/// A task carrying `parent_id` yields `parent_id`; a task created in this sync (no id in the
/// buffer, new id in `new_id_map`) one level above the current task yields its new id. When
/// neither comes first, warns that the child will be placed at the root and returns `None`.
pub fn resolve_parent_id(
    parent_id: &Option<String>,
    current_idx: usize,
    buffer_tasks: &[BufferTask],
    new_id_map: &HashMap<usize, String>,
    summary: &mut SyncSummary,
) -> (r: Option<String>)
    requires
        parent_id matches Some(pid) ==> !resolve_reads_past_end(
            pid@,
            current_idx as int,
            btasks(buffer_tasks@),
            new_id_map@,
            0,
        ),
    ensures
        ov(r) == match ov(*parent_id) {
            Some(pid) => resolve_from(pid, current_idx as int, btasks(buffer_tasks@), new_id_map@, 0),
            None => None,
        },
        strs(final(summary).warnings@) == match ov(*parent_id) {
            Some(pid) => if resolve_from(
                pid,
                current_idx as int,
                btasks(buffer_tasks@),
                new_id_map@,
                0,
            ) is None {
                strs(old(summary).warnings@).push(msg_parent_missing(pid))
            } else {
                strs(old(summary).warnings@)
            },
            None => strs(old(summary).warnings@),
        },
        final(summary).created == old(summary).created,
        final(summary).updated == old(summary).updated,
        final(summary).completed == old(summary).completed,
        final(summary).reopened == old(summary).reopened,
        final(summary).deleted == old(summary).deleted,
        final(summary).skipped == old(summary).skipped,
        final(summary).moved == old(summary).moved,
        final(summary).reordered == old(summary).reordered,
        final(summary).errors@ == old(summary).errors@,
{
    let ghost ts = btasks(buffer_tasks@);
    let pid = match parent_id {
        Some(p) => p,
        None => {
            return None;
        },
    };
    assert(ov(*parent_id) == Some(pid@));
    let mut idx: usize = 0;
    while idx < buffer_tasks.len() && idx < current_idx
        invariant
            ts == btasks(buffer_tasks@),
            ov(*parent_id) == Some(pid@),
            idx <= buffer_tasks@.len(),
            resolve_from(pid@, current_idx as int, ts, new_id_map@, 0) == resolve_from(
                pid@,
                current_idx as int,
                ts,
                new_id_map@,
                idx as int,
            ),
            !resolve_reads_past_end(pid@, current_idx as int, ts, new_id_map@, idx as int),
            summary.warnings@ == old(summary).warnings@,
            summary.created == old(summary).created,
            summary.updated == old(summary).updated,
            summary.completed == old(summary).completed,
            summary.reopened == old(summary).reopened,
            summary.deleted == old(summary).deleted,
            summary.skipped == old(summary).skipped,
            summary.moved == old(summary).moved,
            summary.reordered == old(summary).reordered,
            summary.errors@ == old(summary).errors@,
        decreases buffer_tasks@.len() - idx,
    {
        let task = &buffer_tasks[idx];
        assert(task@ == ts[idx as int]);
        match &task.id {
            Some(id) => {
                if *id == *pid {
                    assert(ts[idx as int].id == Some(pid@));
                    return Some(pid.clone());
                }
            },
            None => {
                match new_id_map.get(&idx) {
                    Some(new_id) => {
                        let current_level = buffer_tasks[current_idx].indent_level;
                        if current_level > 0 && task.indent_level == current_level - 1 {
                            return Some(new_id.clone());
                        }
                    },
                    None => {},
                }
            },
        }
        idx = idx + 1;
    }
    assert(resolve_from(pid@, current_idx as int, ts, new_id_map@, idx as int) is None);
    let mut w = String::from_str("Parent task ");
    w.append(pid.as_str());
    w.append(" not found — child will be placed at root.");
    assert(w@ =~= msg_parent_missing(pid@));
    let ghost wb = summary.warnings@;
    summary.warnings.push(w);
    assert(strs(summary.warnings@) =~= strs(wb).push(w@));
    None
}

/// The value stored under `k`, if any.
pub open spec fn map_get(m: Map<Seq<char>, SnapshotTaskV>, k: Seq<char>) -> Option<SnapshotTaskV> {
    if m.contains_key(k) {
        Some(m[k])
    } else {
        None
    }
}

/// The snapshot entries whose key some buffer task still carries.
pub open spec fn kept_entries(orig: Seq<(Seq<char>, SnapshotTaskV)>, ts: Seq<BufferTaskV>) -> Map<
    Seq<char>,
    SnapshotTaskV,
> {
    Map::new(|k: Seq<char>| lookup(orig, k) is Some && has_id(ts, k), |k: Seq<char>| lookup(orig, k).unwrap())
}

/// A snapshot entry brought up to date with its (unchecked) buffer task.
pub open spec fn refreshed(e: SnapshotTaskV, t: BufferTaskV) -> SnapshotTaskV {
    SnapshotTaskV {
        content: t.content,
        due: t.due,
        project_id: match t.project_id {
            Some(p) => p,
            None => e.project_id,
        },
        section_id: t.section_id,
        parent_id: t.parent_id,
        checked: false,
        ..e
    }
}

/// The snapshot entry for a task created as `sid`.
pub open spec fn created_entry(sid: Seq<char>, t: BufferTaskV) -> SnapshotTaskV {
    SnapshotTaskV {
        id: sid,
        content: t.content,
        project_id: match t.project_id {
            Some(p) => p,
            None => Seq::empty(),
        },
        section_id: t.section_id,
        parent_id: t.parent_id,
        checked: false,
        child_order: 0,
        due: t.due,
    }
}

/// The effect of buffer task `t` at index `j` on the snapshot being rebuilt: a checked task
/// leaves it, an unchecked one refreshes its entry, a new one that was created enters it.
pub open spec fn apply_task(
    m: Map<Seq<char>, SnapshotTaskV>,
    t: BufferTaskV,
    j: usize,
    ids: Map<usize, String>,
) -> Map<Seq<char>, SnapshotTaskV> {
    match t.id {
        Some(id) => if t.checked {
            m.remove(id)
        } else if m.contains_key(id) {
            m.insert(id, refreshed(m[id], t))
        } else {
            m
        },
        None => if ids.contains_key(j) {
            m.insert(ids[j]@, created_entry(ids[j]@, t))
        } else {
            m
        },
    }
}

/// The snapshot after applying the first `k` buffer tasks.
pub open spec fn rebuilt(
    orig: Seq<(Seq<char>, SnapshotTaskV)>,
    ts: Seq<BufferTaskV>,
    ids: Map<usize, String>,
    k: int,
) -> Map<Seq<char>, SnapshotTaskV>
    decreases k,
{
    if k <= 0 {
        kept_entries(orig, ts)
    } else {
        apply_task(rebuilt(orig, ts, ids, k - 1), ts[k - 1], (k - 1) as usize, ids)
    }
}

/// The snapshot after a sync in which every operation succeeded.
///
/// Starts from `original` without the tasks no longer in the buffer; then, in buffer order,
/// drops each checked task, refreshes content, due date, project (when the buffer has one),
/// section and parent of each unchecked task it holds, and adds each new task that was
/// created (`new_id_map` maps its buffer index to its new id).
pub fn rebuild_snapshot(
    original: &TaskMap,
    buffer_tasks: &[BufferTask],
    new_id_map: &HashMap<usize, String>,
) -> (r: TaskMap)
    ensures
        forall|k: Seq<char>|
            #![trigger lookup(r@, k)]
            lookup(r@, k) == map_get(
                rebuilt(original@, btasks(buffer_tasks@), new_id_map@, buffer_tasks@.len() as int),
                k,
            ),
{
    let ghost ts = btasks(buffer_tasks@);
    let ghost orig = original@;
    let mut result = TaskMap::new();
    let mut i: usize = 0;
    let n = original.len();
    while i < n
        invariant
            ts == btasks(buffer_tasks@),
            orig == original@,
            n == orig.len(),
            keys_unique(orig),
            i <= n,
            forall|q: Seq<char>|
                #![trigger lookup(result@, q)]
                lookup(result@, q) == if (exists|x: int| 0 <= x < i && #[trigger] orig[x].0 == q)
                    && has_id(ts, q) {
                    lookup(orig, q)
                } else {
                    None
                },
        decreases n - i,
    {
        let (key, task) = original.entry(i);
        proof {
            crate::models::lemma_lookup(orig, key@);
        }
        if buffer_has_id(buffer_tasks, key) {
            result.insert(key.clone(), task.clone_task());
        }
        proof {
            assert forall|q: Seq<char>|
                #![trigger lookup(result@, q)]
                lookup(result@, q) == if (exists|x: int| 0 <= x < i + 1 && #[trigger] orig[x].0 == q)
                    && has_id(ts, q) {
                    lookup(orig, q)
                } else {
                    None
                } by {
                if q == key@ {
                    assert(orig[i as int].0 == q);
                    assert(!exists|x: int| 0 <= x < i && #[trigger] orig[x].0 == q);
                } else {
                    if exists|x: int| 0 <= x < i + 1 && #[trigger] orig[x].0 == q {
                        let x = choose|x: int| 0 <= x < i + 1 && #[trigger] orig[x].0 == q;
                        assert(x < i);
                    }
                }
            }
        }
        i = i + 1;
    }
    proof {
        assert forall|q: Seq<char>|
            #![trigger lookup(result@, q)]
            lookup(result@, q) == map_get(rebuilt(orig, ts, new_id_map@, 0), q) by {
            crate::models::lemma_lookup(orig, q);
            if lookup(orig, q) is Some {
                let x = choose|x: int| 0 <= x < orig.len() && #[trigger] orig[x].0 == q;
                assert(orig[x].0 == q);
            }
        }
    }
    let mut j: usize = 0;
    while j < buffer_tasks.len()
        invariant
            ts == btasks(buffer_tasks@),
            orig == original@,
            j <= buffer_tasks@.len(),
            forall|q: Seq<char>|
                #![trigger lookup(result@, q)]
                lookup(result@, q) == map_get(rebuilt(orig, ts, new_id_map@, j as int), q),
        decreases buffer_tasks@.len() - j,
    {
        let ghost m = rebuilt(orig, ts, new_id_map@, j as int);
        let task = &buffer_tasks[j];
        assert(task@ == ts[j as int]);
        match &task.id {
            Some(id) => {
                if task.checked {
                    result.remove(id.as_str());
                } else {
                    let current = match result.get(id.as_str()) {
                        Some(e) => Some(e.clone_task()),
                        None => None,
                    };
                    match current {
                        Some(e) => {
                            let project_id = match &task.project_id {
                                Some(p) => p.clone(),
                                None => e.project_id,
                            };
                            let entry = SnapshotTask {
                                id: e.id,
                                content: task.content.clone(),
                                project_id,
                                section_id: clone_opt(&task.section_id),
                                parent_id: clone_opt(&task.parent_id),
                                checked: false,
                                child_order: e.child_order,
                                due: clone_opt(&task.due),
                            };
                            assert(entry@ == refreshed(m[id@], task@));
                            result.insert(id.clone(), entry);
                        },
                        None => {},
                    }
                }
            },
            None => {
                match new_id_map.get(&j) {
                    Some(server_id) => {
                        let entry = SnapshotTask {
                            id: server_id.clone(),
                            content: task.content.clone(),
                            project_id: match &task.project_id {
                                Some(p) => p.clone(),
                                None => String::new(),
                            },
                            section_id: clone_opt(&task.section_id),
                            parent_id: clone_opt(&task.parent_id),
                            checked: false,
                            child_order: 0,
                            due: clone_opt(&task.due),
                        };
                        assert(entry@ == created_entry(server_id@, task@));
                        result.insert(server_id.clone(), entry);
                    },
                    None => {},
                }
            },
        }
        proof {
            let m2 = rebuilt(orig, ts, new_id_map@, j + 1);
            assert(m2 == apply_task(m, ts[j as int], j, new_id_map@));
            assert forall|q: Seq<char>|
                #![trigger lookup(result@, q)]
                lookup(result@, q) == map_get(m2, q) by {
            }
        }
        j = j + 1;
    }
    result
}


/// Every line is blank (whitespace only).
pub open spec fn lines_blank(lines: Seq<Seq<char>>) -> bool {
    forall|i: int| 0 <= i < lines.len() ==> all_ws(#[trigger] lines[i])
}

/// Is every line of the buffer blank?
pub fn buffer_is_blank(lines: &[String]) -> (r: bool)
    ensures
        r == lines_blank(strs(lines@)),
{
    let ghost ls = strs(lines@);
    let mut i: usize = 0;
    while i < lines.len()
        invariant
            ls == strs(lines@),
            i <= lines@.len(),
            forall|k: int| 0 <= k < i ==> all_ws(#[trigger] ls[k]),
        decreases lines@.len() - i,
    {
        let c = to_chars(lines[i].as_str());
        assert(c@.skip(0) =~= c@);
        if !all_ws_from(c.as_slice(), 0) {
            assert(!all_ws(ls[i as int]));
            return false;
        }
        i = i + 1;
    }
    true
}

pub open spec fn msg_blank() -> Seq<char> {
    "Buffer is empty — nothing to sync"@
}

pub open spec fn msg_no_tasks() -> Seq<char> {
    "No task lines found. Run :TodoistOpen to refresh."@
}

pub open spec fn msg_no_snapshot() -> Seq<char> {
    "No snapshot found — run :TodoistOpen first to establish a baseline."@
}

pub open spec fn msg_not_saved() -> Seq<char> {
    "Snapshot not updated due to sync errors; next sync may show phantom changes."@
}

/// The snapshot a sync diffs against: the one loaded, or none at all.
pub open spec fn baseline(loaded: Option<TaskMap>) -> Seq<(Seq<char>, SnapshotTaskV)> {
    match loaded {
        Some(m) => m@,
        None => Seq::empty(),
    }
}

/// The operations of a sync: those of `compute_ops`, then one `Reorder` when needed.
pub open spec fn plan_ops(ts: Seq<BufferTaskV>, snap: Seq<(Seq<char>, SnapshotTaskV)>) -> Seq<
    (usize, SyncOpV),
> {
    let items = reorder_items(ts, snap, ts.len() as int);
    buffer_ops(ts, snap, ts.len() as int) + delete_ops(ts, snap, snap.len() as int) + if items.len()
        > 0 {
        seq![(usize::MAX, SyncOpV::Reorder { items: items })]
    } else {
        Seq::empty()
    }
}

/// The warnings of a sync before it talks to the server.
pub open spec fn plan_warnings(
    lines: Seq<Seq<char>>,
    loaded: Option<TaskMap>,
) -> Seq<Seq<char>> {
    let ts = parsed_tasks(lines);
    parsed_warnings(lines) + (if loaded is None {
        seq![msg_no_snapshot()]
    } else {
        Seq::empty()
    }) + buffer_warnings(ts, baseline(loaded), ts.len() as int)
}

/// Nothing counted and no errors.
pub open spec fn fresh(s: SyncSummary) -> bool {
    &&& s.created == 0 && s.updated == 0 && s.completed == 0 && s.reopened == 0
    &&& s.deleted == 0 && s.moved == 0 && s.reordered == 0
    &&& s.errors@.len() == 0
}

/// What a sync does once the buffer is read and the snapshot loaded.
pub enum SyncPlan {
    /// No task lines: report the summary (its warnings) and stop.
    NoTasks { summary: SyncSummary },
    /// Nothing to send and nothing to warn about.
    NoChanges,
    /// Send `ops` in order, then rebuild `snapshot` from `buffer_tasks`.
    Execute {
        buffer_tasks: Vec<BufferTask>,
        snapshot: TaskMap,
        ops: Vec<(usize, SyncOp)>,
        summary: SyncSummary,
    },
}

proof fn lemma_scan_tasks_len(lines: Seq<Seq<char>>, k: int)
    requires
        0 <= k <= lines.len(),
    ensures
        crate::parser::scan_lines(lines, k).tasks.len() <= k,
    decreases k,
{
    if k > 0 {
        lemma_scan_tasks_len(lines, k - 1);
    }
}

/// Decides what a sync of the buffer `lines` against the `loaded` snapshot does.
///
/// A blank buffer is an error. Otherwise the buffer is parsed (its warnings kept); with no
/// task lines the sync stops with a warning. A missing snapshot is warned about and counts
/// as empty. The operations are those of `compute_ops` followed by the `Reorder` of
/// `compute_reorder`, if any; with none of them and no warning there is nothing to do.
pub fn plan_sync(lines: &[String], loaded: Option<TaskMap>) -> (r: Result<SyncPlan, String>)
    requires
        forall|i: int| 0 <= i < lines@.len() ==> line_readable(#[trigger] lines@[i]@),
        lines@.len() < i64::MAX,
    ensures
        match r {
            Err(e) => lines_blank(strs(lines@)) && e@ == msg_blank(),
            Ok(plan) => !lines_blank(strs(lines@)) && match plan {
                SyncPlan::NoTasks { summary } => {
                    &&& parsed_tasks(strs(lines@)).len() == 0
                    &&& strs(summary.warnings@) == parsed_warnings(strs(lines@)).push(msg_no_tasks())
                    &&& fresh(summary) && summary.skipped == 0
                },
                SyncPlan::NoChanges => {
                    let ts = parsed_tasks(strs(lines@));
                    &&& ts.len() > 0
                    &&& plan_ops(ts, baseline(loaded)).len() == 0
                    &&& plan_warnings(strs(lines@), loaded).len() == 0
                },
                SyncPlan::Execute { buffer_tasks, snapshot, ops, summary } => {
                    let ts = parsed_tasks(strs(lines@));
                    &&& ts.len() > 0
                    &&& btasks(buffer_tasks@) == ts
                    &&& snapshot@ == baseline(loaded)
                    &&& ops_view(ops@) == plan_ops(ts, baseline(loaded))
                    &&& strs(summary.warnings@) == plan_warnings(strs(lines@), loaded)
                    &&& summary.skipped == buffer_warnings(ts, baseline(loaded), ts.len() as int).len()
                    &&& fresh(summary)
                    &&& !(ops@.len() == 0 && summary.warnings@.len() == 0)
                },
            },
        },
{
    if buffer_is_blank(lines) {
        return Err(String::from_str("Buffer is empty — nothing to sync"));
    }
    let parsed = parse(lines);
    let buffer_tasks = parsed.tasks;
    let mut summary = SyncSummary::default();
    let ghost ls = strs(lines@);
    let ghost ts = parsed_tasks(ls);
    let mut w = parsed.warnings;
    summary.warnings.append(&mut w);
    assert(strs(summary.warnings@) =~= parsed_warnings(ls));
    if buffer_tasks.len() == 0 {
        let ghost wb = summary.warnings@;
        summary.warnings.push(String::from_str("No task lines found. Run :TodoistOpen to refresh."));
        assert(strs(summary.warnings@) =~= strs(wb).push(msg_no_tasks()));
        return Ok(SyncPlan::NoTasks { summary });
    }
    let missing = loaded.is_none();
    let snapshot = match loaded {
        Some(m) => m,
        None => TaskMap::new(),
    };
    if missing {
        let ghost wb = summary.warnings@;
        summary.warnings.push(
            String::from_str("No snapshot found — run :TodoistOpen first to establish a baseline."),
        );
        assert(strs(summary.warnings@) =~= strs(wb).push(msg_no_snapshot()));
    }
    assert(strs(summary.warnings@) =~= parsed_warnings(ls) + (if loaded is None {
        seq![msg_no_snapshot()]
    } else {
        Seq::empty()
    }));
    proof {
        lemma_scan_tasks_len(ls, ls.len() as int);
    }
    let ghost w0 = strs(summary.warnings@);
    let mut ops = compute_ops(buffer_tasks.as_slice(), &snapshot, &mut summary);
    assert(strs(summary.warnings@) =~= plan_warnings(ls, loaded));
    match compute_reorder(buffer_tasks.as_slice(), &snapshot) {
        Some(op) => {
            let ghost before = ops@;
            ops.push((usize::MAX, op));
            assert(ops_view(ops@) =~= ops_view(before).push((usize::MAX, op@)));
        },
        None => {},
    }
    assert(ops_view(ops@) =~= plan_ops(ts, baseline(loaded)));
    if ops.len() == 0 && summary.warnings.len() == 0 {
        assert(strs(summary.warnings@).len() == 0);
        return Ok(SyncPlan::NoChanges);
    }
    Ok(SyncPlan::Execute { buffer_tasks, snapshot, ops, summary })
}


/// One request to the Todoist API.
pub enum ApiCall {
    Create {
        content: String,
        project_id: String,
        section_id: Option<String>,
        parent_id: Option<String>,
        due: Option<String>,
    },
    Update { id: String, content: String, due: Option<String> },
    Close { id: String },
    Reopen { id: String },
    Delete { id: String },
    Reorder { items: Vec<(String, i64)> },
    Move {
        id: String,
        project_id: String,
        section_id: Option<String>,
        parent_id: Option<String>,
    },
}

pub enum ApiCallV {
    Create {
        content: Seq<char>,
        project_id: Seq<char>,
        section_id: Option<Seq<char>>,
        parent_id: Option<Seq<char>>,
        due: Option<Seq<char>>,
    },
    Update { id: Seq<char>, content: Seq<char>, due: Option<Seq<char>> },
    Close { id: Seq<char> },
    Reopen { id: Seq<char> },
    Delete { id: Seq<char> },
    Reorder { items: Seq<(Seq<char>, i64)> },
    Move {
        id: Seq<char>,
        project_id: Seq<char>,
        section_id: Option<Seq<char>>,
        parent_id: Option<Seq<char>>,
    },
}

impl View for ApiCall {
    type V = ApiCallV;

    open spec fn view(&self) -> ApiCallV {
        match self {
            ApiCall::Create { content, project_id, section_id, parent_id, due } => ApiCallV::Create {
                content: content@,
                project_id: project_id@,
                section_id: ov(*section_id),
                parent_id: ov(*parent_id),
                due: ov(*due),
            },
            ApiCall::Update { id, content, due } => ApiCallV::Update {
                id: id@,
                content: content@,
                due: ov(*due),
            },
            ApiCall::Close { id } => ApiCallV::Close { id: id@ },
            ApiCall::Reopen { id } => ApiCallV::Reopen { id: id@ },
            ApiCall::Delete { id } => ApiCallV::Delete { id: id@ },
            ApiCall::Reorder { items } => ApiCallV::Reorder { items: pairs_view(items@) },
            ApiCall::Move { id, project_id, section_id, parent_id } => ApiCallV::Move {
                id: id@,
                project_id: project_id@,
                section_id: ov(*section_id),
                parent_id: ov(*parent_id),
            },
        }
    }
}

/// The server id of a (new or moved) task's parent, as `resolve_parent_id` finds it.
pub open spec fn resolved_parent(
    p: Option<Seq<char>>,
    cur: usize,
    ts: Seq<BufferTaskV>,
    ids: Map<usize, String>,
) -> Option<Seq<char>> {
    match p {
        Some(pid) => resolve_from(pid, cur as int, ts, ids, 0),
        None => None,
    }
}

/// The warning `resolve_parent_id` gives when a parent cannot be found.
pub open spec fn parent_warnings(
    p: Option<Seq<char>>,
    cur: usize,
    ts: Seq<BufferTaskV>,
    ids: Map<usize, String>,
) -> Seq<Seq<char>> {
    match p {
        Some(pid) => if resolve_from(pid, cur as int, ts, ids, 0) is None {
            seq![msg_parent_missing(pid)]
        } else {
            Seq::empty()
        },
        None => Seq::empty(),
    }
}

/// The parent lookup for the operation reads past the end of the buffer.
pub open spec fn op_reads_past_end(
    op: SyncOpV,
    cur: usize,
    ts: Seq<BufferTaskV>,
    ids: Map<usize, String>,
) -> bool {
    match op {
        SyncOpV::Create { parent_id, .. } => parent_id matches Some(p) && resolve_reads_past_end(
            p,
            cur as int,
            ts,
            ids,
            0,
        ),
        SyncOpV::Move { parent_id, .. } => parent_id matches Some(p) && resolve_reads_past_end(
            p,
            cur as int,
            ts,
            ids,
            0,
        ),
        _ => false,
    }
}

/// Where a moved task is sent: one destination per move request.
pub enum MoveTarget {
    Parent(String),
    Section(String),
    Project(String),
}

/// The destination of a move: the parent when there is one, else the section when there is
/// one, else the project.
pub fn move_target(project_id: &String, section_id: &Option<String>, parent_id: &Option<String>) -> (r:
    MoveTarget)
    ensures
        match ov(*parent_id) {
            Some(p) => r matches MoveTarget::Parent(x) && x@ == p,
            None => match ov(*section_id) {
                Some(sid) => r matches MoveTarget::Section(x) && x@ == sid,
                None => r matches MoveTarget::Project(x) && x@ == project_id@,
            },
        },
{
    match parent_id {
        Some(p) => MoveTarget::Parent(p.clone()),
        None => match section_id {
            Some(sid) => MoveTarget::Section(sid.clone()),
            None => MoveTarget::Project(project_id.clone()),
        },
    }
}

/// The request for an operation (at buffer index `buf_idx`): a new or moved task gets its
/// parent's server id from `resolve_parent_id`, which warns when there is none.
pub fn prepare_call(
    op: &SyncOp,
    buf_idx: usize,
    buffer_tasks: &[BufferTask],
    new_id_map: &HashMap<usize, String>,
    summary: &mut SyncSummary,
) -> (r: ApiCall)
    requires
        !op_reads_past_end(op@, buf_idx, btasks(buffer_tasks@), new_id_map@),
    ensures
        ({
            let ts = btasks(buffer_tasks@);
            let ids = new_id_map@;
            match op@ {
                SyncOpV::Create { content, project_id, section_id, parent_id, due } => {
                    &&& r@ == (ApiCallV::Create {
                        content: content,
                        project_id: project_id,
                        section_id: section_id,
                        parent_id: resolved_parent(parent_id, buf_idx, ts, ids),
                        due: due,
                    })
                    &&& strs(final(summary).warnings@) == strs(old(summary).warnings@)
                        + parent_warnings(parent_id, buf_idx, ts, ids)
                },
                SyncOpV::Move { id, project_id, section_id, parent_id, .. } => {
                    &&& r@ == (ApiCallV::Move {
                        id: id,
                        project_id: project_id,
                        section_id: section_id,
                        parent_id: resolved_parent(parent_id, buf_idx, ts, ids),
                    })
                    &&& strs(final(summary).warnings@) == strs(old(summary).warnings@)
                        + parent_warnings(parent_id, buf_idx, ts, ids)
                },
                SyncOpV::Update { id, new_content, new_due, .. } => r@ == (ApiCallV::Update {
                    id: id,
                    content: new_content,
                    due: new_due,
                }) && final(summary).warnings@ == old(summary).warnings@,
                SyncOpV::Complete { id, .. } => r@ == (ApiCallV::Close { id: id })
                    && final(summary).warnings@ == old(summary).warnings@,
                SyncOpV::Reopen { id, .. } => r@ == (ApiCallV::Reopen { id: id })
                    && final(summary).warnings@ == old(summary).warnings@,
                SyncOpV::Delete { id, .. } => r@ == (ApiCallV::Delete { id: id })
                    && final(summary).warnings@ == old(summary).warnings@,
                SyncOpV::Reorder { items } => r@ == (ApiCallV::Reorder { items: items })
                    && final(summary).warnings@ == old(summary).warnings@,
            }
        }),
        final(summary).created == old(summary).created,
        final(summary).updated == old(summary).updated,
        final(summary).completed == old(summary).completed,
        final(summary).reopened == old(summary).reopened,
        final(summary).deleted == old(summary).deleted,
        final(summary).skipped == old(summary).skipped,
        final(summary).moved == old(summary).moved,
        final(summary).reordered == old(summary).reordered,
        final(summary).errors@ == old(summary).errors@,
{
    match op {
        SyncOp::Create { content, project_id, section_id, parent_id, due } => {
            let parent = resolve_parent_id(parent_id, buf_idx, buffer_tasks, new_id_map, summary);
            ApiCall::Create {
                content: content.clone(),
                project_id: project_id.clone(),
                section_id: clone_opt(section_id),
                parent_id: parent,
                due: clone_opt(due),
            }
        },
        SyncOp::Move { id, content: _, project_id, section_id, parent_id } => {
            let parent = resolve_parent_id(parent_id, buf_idx, buffer_tasks, new_id_map, summary);
            ApiCall::Move {
                id: id.clone(),
                project_id: project_id.clone(),
                section_id: clone_opt(section_id),
                parent_id: parent,
            }
        },
        SyncOp::Update { id, old_content: _, new_content, old_due: _, new_due } => ApiCall::Update {
            id: id.clone(),
            content: new_content.clone(),
            due: clone_opt(new_due),
        },
        SyncOp::Complete { id, content: _ } => ApiCall::Close { id: id.clone() },
        SyncOp::Reopen { id, content: _ } => ApiCall::Reopen { id: id.clone() },
        SyncOp::Delete { id, content: _ } => ApiCall::Delete { id: id.clone() },
        SyncOp::Reorder { items } => {
            let mut copy: Vec<(String, i64)> = Vec::new();
            let mut i: usize = 0;
            while i < items.len()
                invariant
                    i <= items@.len(),
                    pairs_view(copy@) =~= pairs_view(items@.take(i as int)),
                decreases items@.len() - i,
            {
                let ghost before = copy@;
                copy.push((items[i].0.clone(), items[i].1));
                assert(items@.take(i + 1) =~= items@.take(i as int).push(items@[i as int]));
                assert(pairs_view(copy@) =~= pairs_view(before).push((items@[i as int].0@, items@[i as int].1)));
                assert(pairs_view(items@.take(i + 1)) =~= pairs_view(items@.take(i as int)).push((items@[i as int].0@, items@[i as int].1)));
                i = i + 1;
            }
            assert(items@.take(items@.len() as int) =~= items@);
            ApiCall::Reorder { items: copy }
        },
    }
}

pub open spec fn failure(what: Seq<char>, e: Seq<char>) -> Seq<char> {
    what + ": "@ + e
}

pub open spec fn quoted(verb: Seq<char>, content: Seq<char>) -> Seq<char> {
    verb + " '"@ + content + "'"@
}

/// The error line for a failed request.
pub open spec fn failure_message(op: SyncOpV, e: Seq<char>) -> Seq<char> {
    match op {
        SyncOpV::Create { content, .. } => failure(quoted("Create"@, content), e),
        SyncOpV::Update { old_content, new_content, .. } => failure(
            quoted("Update"@, old_content) + " → '"@ + new_content + "'"@,
            e,
        ),
        SyncOpV::Complete { content, .. } => failure(quoted("Complete"@, content), e),
        SyncOpV::Reopen { content, .. } => failure(quoted("Reopen"@, content), e),
        SyncOpV::Delete { content, .. } => failure(quoted("Delete"@, content), e),
        SyncOpV::Reorder { .. } => failure("Reorder"@, e),
        SyncOpV::Move { content, .. } => failure(quoted("Move"@, content), e),
    }
}

fn quoted_text(verb: &str, content: &String) -> (r: String)
    ensures
        r@ == quoted(verb@, content@),
{
    let mut m = String::from_str(verb);
    m.append(" '");
    m.append(content.as_str());
    m.append("'");
    assert(m@ =~= quoted(verb@, content@));
    m
}

fn failure_text(op: &SyncOp, e: &String) -> (r: String)
    ensures
        r@ == failure_message(op@, e@),
{
    let mut m = match op {
        SyncOp::Create { content, .. } => quoted_text("Create", content),
        SyncOp::Update { old_content, new_content, .. } => {
            let mut q = quoted_text("Update", old_content);
            q.append(" → '");
            q.append(new_content.as_str());
            q.append("'");
            q
        },
        SyncOp::Complete { content, .. } => quoted_text("Complete", content),
        SyncOp::Reopen { content, .. } => quoted_text("Reopen", content),
        SyncOp::Delete { content, .. } => quoted_text("Delete", content),
        SyncOp::Reorder { .. } => String::from_str("Reorder"),
        SyncOp::Move { content, .. } => quoted_text("Move", content),
    };
    m.append(": ");
    m.append(e.as_str());
    assert(m@ =~= failure_message(op@, e@));
    m
}

/// The counter an operation adds to when its request succeeds.
pub open spec fn counted(s: SyncSummary, op: SyncOpV) -> SyncSummary {
    match op {
        SyncOpV::Create { .. } => SyncSummary { created: (s.created + 1) as usize, ..s },
        SyncOpV::Update { .. } => SyncSummary { updated: (s.updated + 1) as usize, ..s },
        SyncOpV::Complete { .. } => SyncSummary { completed: (s.completed + 1) as usize, ..s },
        SyncOpV::Reopen { .. } => SyncSummary { reopened: (s.reopened + 1) as usize, ..s },
        SyncOpV::Delete { .. } => SyncSummary { deleted: (s.deleted + 1) as usize, ..s },
        SyncOpV::Reorder { items } => SyncSummary {
            reordered: (s.reordered + items.len()) as usize,
            ..s
        },
        SyncOpV::Move { .. } => SyncSummary { moved: (s.moved + 1) as usize, ..s },
    }
}

/// Counters that cannot overflow when the operation is counted.
pub open spec fn room_to_count(s: SyncSummary, op: SyncOpV) -> bool {
    match op {
        SyncOpV::Create { .. } => s.created < usize::MAX,
        SyncOpV::Update { .. } => s.updated < usize::MAX,
        SyncOpV::Complete { .. } => s.completed < usize::MAX,
        SyncOpV::Reopen { .. } => s.reopened < usize::MAX,
        SyncOpV::Delete { .. } => s.deleted < usize::MAX,
        SyncOpV::Reorder { items } => s.reordered + items.len() <= usize::MAX,
        SyncOpV::Move { .. } => s.moved < usize::MAX,
    }
}

/// Records the outcome of an operation's request: on success its counter goes up (a created
/// task's new id, when the server gave one, is kept under its buffer index); on failure the
/// error is kept.
pub fn record_outcome(
    op: &SyncOp,
    buf_idx: usize,
    outcome: Result<Option<String>, String>,
    new_id_map: &mut HashMap<usize, String>,
    summary: &mut SyncSummary,
)
    requires
        room_to_count(*old(summary), op@),
    ensures
        match outcome {
            Ok(new_id) => {
                &&& *final(summary) == counted(*old(summary), op@)
                &&& final(new_id_map)@ == if op@ is Create && new_id is Some {
                    old(new_id_map)@.insert(buf_idx, new_id.unwrap())
                } else {
                    old(new_id_map)@
                }
            },
            Err(e) => {
                &&& strs(final(summary).errors@) == strs(old(summary).errors@).push(
                    failure_message(op@, e@),
                )
                &&& final(summary).warnings@ == old(summary).warnings@
                &&& final(summary).created == old(summary).created
                &&& final(summary).updated == old(summary).updated
                &&& final(summary).completed == old(summary).completed
                &&& final(summary).reopened == old(summary).reopened
                &&& final(summary).deleted == old(summary).deleted
                &&& final(summary).skipped == old(summary).skipped
                &&& final(summary).moved == old(summary).moved
                &&& final(summary).reordered == old(summary).reordered
                &&& final(new_id_map)@ == old(new_id_map)@
            },
        },
{
    match outcome {
        Ok(new_id) => {
            match op {
                SyncOp::Create { .. } => {
                    match new_id {
                        Some(id) => {
                            new_id_map.insert(buf_idx, id);
                        },
                        None => {},
                    }
                    summary.created = summary.created + 1;
                },
                SyncOp::Update { .. } => {
                    summary.updated = summary.updated + 1;
                },
                SyncOp::Complete { .. } => {
                    summary.completed = summary.completed + 1;
                },
                SyncOp::Reopen { .. } => {
                    summary.reopened = summary.reopened + 1;
                },
                SyncOp::Delete { .. } => {
                    summary.deleted = summary.deleted + 1;
                },
                SyncOp::Reorder { items } => {
                    summary.reordered = summary.reordered + items.len();
                },
                SyncOp::Move { .. } => {
                    summary.moved = summary.moved + 1;
                },
            }
        },
        Err(e) => {
            let m = failure_text(op, &e);
            let ghost before = summary.errors@;
            summary.errors.push(m);
            assert(strs(summary.errors@) =~= strs(before).push(m@));
        },
    }
}

/// After the requests: with no errors, the snapshot to save (see `rebuild_snapshot`); with
/// errors, none, and a warning that the next sync may show changes that are not there.
pub fn finish_sync(
    original: &TaskMap,
    buffer_tasks: &[BufferTask],
    new_id_map: &HashMap<usize, String>,
    summary: &mut SyncSummary,
) -> (r: Option<TaskMap>)
    ensures
        match r {
            Some(m) => old(summary).errors@.len() == 0 && *final(summary) == *old(summary)
                && forall|k: Seq<char>|
                #![trigger lookup(m@, k)]
                lookup(m@, k) == map_get(
                    rebuilt(original@, btasks(buffer_tasks@), new_id_map@, buffer_tasks@.len() as int),
                    k,
                ),
            None => old(summary).errors@.len() > 0 && strs(final(summary).warnings@) == strs(
                old(summary).warnings@,
            ).push(msg_not_saved()) && final(summary).errors@ == old(summary).errors@
                && final(summary).created == old(summary).created
                && final(summary).updated == old(summary).updated
                && final(summary).completed == old(summary).completed
                && final(summary).reopened == old(summary).reopened
                && final(summary).deleted == old(summary).deleted
                && final(summary).skipped == old(summary).skipped
                && final(summary).moved == old(summary).moved
                && final(summary).reordered == old(summary).reordered,
        },
{
    if summary.errors.len() == 0 {
        Some(rebuild_snapshot(original, buffer_tasks, new_id_map))
    } else {
        let ghost before = summary.warnings@;
        summary.warnings.push(
            String::from_str(
                "Snapshot not updated due to sync errors; next sync may show phantom changes.",
            ),
        );
        assert(strs(summary.warnings@) =~= strs(before).push(msg_not_saved()));
        None
    }
}


/// The buffer task shows exactly what the snapshot holds for its id.
pub open spec fn agrees(t: BufferTaskV, snap: Seq<(Seq<char>, SnapshotTaskV)>) -> bool {
    &&& t.id is Some
    &&& lookup(snap, t.id.unwrap()) matches Some(s) && {
        &&& s.checked == t.checked
        &&& s.content == t.content
        &&& s.due == t.due
        &&& t.project_id == Some(s.project_id)
        &&& t.section_id == s.section_id
        &&& t.parent_id == s.parent_id
    }
}

proof fn lemma_agreeing_prefix_no_ops(ts: Seq<BufferTaskV>, snap: Seq<(Seq<char>, SnapshotTaskV)>, k: int)
    requires
        0 <= k <= ts.len(),
        forall|j: int| 0 <= j < ts.len() ==> agrees(#[trigger] ts[j], snap),
    ensures
        buffer_ops(ts, snap, k) == Seq::<(usize, SyncOpV)>::empty(),
        buffer_warnings(ts, snap, k) == Seq::<Seq<char>>::empty(),
    decreases k,
{
    if k > 0 {
        lemma_agreeing_prefix_no_ops(ts, snap, k - 1);
        assert(agrees(ts[k - 1], snap));
        assert(task_ops(ts[k - 1], (k - 1) as usize, snap) =~= Seq::<(usize, SyncOpV)>::empty());
        assert(buffer_ops(ts, snap, k) =~= Seq::<(usize, SyncOpV)>::empty());
    }
}

proof fn lemma_all_carried_no_deletes(ts: Seq<BufferTaskV>, snap: Seq<(Seq<char>, SnapshotTaskV)>, k: int)
    requires
        0 <= k <= snap.len(),
        forall|i: int| 0 <= i < snap.len() ==> has_id(ts, #[trigger] snap[i].0),
    ensures
        delete_ops(ts, snap, k) == Seq::<(usize, SyncOpV)>::empty(),
    decreases k,
{
    if k > 0 {
        lemma_all_carried_no_deletes(ts, snap, k - 1);
        assert(has_id(ts, snap[k - 1].0));
    }
}

/// A buffer that shows every snapshot task exactly as the snapshot holds it (and nothing
/// else) gives a sync nothing to do: no operation, no warning.
pub proof fn law_unchanged_buffer_needs_no_ops(
    ts: Seq<BufferTaskV>,
    snap: Seq<(Seq<char>, SnapshotTaskV)>,
)
    requires
        forall|j: int| 0 <= j < ts.len() ==> agrees(#[trigger] ts[j], snap),
        forall|i: int| 0 <= i < snap.len() ==> has_id(ts, #[trigger] snap[i].0),
    ensures
        buffer_ops(ts, snap, ts.len() as int) + delete_ops(ts, snap, snap.len() as int) == Seq::<
            (usize, SyncOpV),
        >::empty(),
        buffer_warnings(ts, snap, ts.len() as int) == Seq::<Seq<char>>::empty(),
{
    lemma_agreeing_prefix_no_ops(ts, snap, ts.len() as int);
    lemma_all_carried_no_deletes(ts, snap, snap.len() as int);
    assert(buffer_ops(ts, snap, ts.len() as int) + delete_ops(ts, snap, snap.len() as int) =~= Seq::<
        (usize, SyncOpV),
    >::empty());
}

/// Buffer tasks that all carry distinct known ids, are unchecked and have a project.
pub open spec fn settled(ts: Seq<BufferTaskV>, orig: Seq<(Seq<char>, SnapshotTaskV)>) -> bool {
    &&& forall|j: int|
        0 <= j < ts.len() ==> {
            &&& (#[trigger] ts[j]).id is Some
            &&& !ts[j].checked
            &&& ts[j].project_id is Some
            &&& lookup(orig, ts[j].id.unwrap()) is Some
        }
    &&& forall|a: int, b: int| 0 <= a < b < ts.len() ==> #[trigger] ts[a].id != #[trigger] ts[b].id
}

proof fn lemma_rebuilt_settled(
    orig: Seq<(Seq<char>, SnapshotTaskV)>,
    ts: Seq<BufferTaskV>,
    ids: Map<usize, String>,
    k: int,
)
    requires
        0 <= k <= ts.len(),
        settled(ts, orig),
    ensures
        forall|j: int|
            0 <= j < ts.len() ==> #[trigger] map_get(rebuilt(orig, ts, ids, k), ts[j].id.unwrap())
                == if j < k {
                Some(refreshed(lookup(orig, ts[j].id.unwrap()).unwrap(), ts[j]))
            } else {
                lookup(orig, ts[j].id.unwrap())
            },
        forall|q: Seq<char>| #[trigger] rebuilt(orig, ts, ids, k).contains_key(q) ==> has_id(ts, q),
    decreases k,
{
    if k == 0 {
        assert forall|j: int| 0 <= j < ts.len() implies #[trigger] map_get(
            rebuilt(orig, ts, ids, 0),
            ts[j].id.unwrap(),
        ) == lookup(orig, ts[j].id.unwrap()) by {
            assert(ts[j].id == Some(ts[j].id.unwrap()));
            assert(has_id(ts, ts[j].id.unwrap()));
        }
    } else {
        lemma_rebuilt_settled(orig, ts, ids, k - 1);
        let m = rebuilt(orig, ts, ids, k - 1);
        let t = ts[k - 1];
        let idk = t.id.unwrap();
        assert(ts[k - 1].id.unwrap() == idk);
        assert(map_get(m, idk) == lookup(orig, idk));
        assert(m.contains_key(idk));
        let v = refreshed(m[idk], t);
        assert(rebuilt(orig, ts, ids, k) == m.insert(idk, v));
        assert(m[idk] == lookup(orig, idk).unwrap());
        assert(has_id(ts, idk)) by {
            assert(ts[k - 1].id == Some(idk));
        }
        assert forall|j: int| 0 <= j < ts.len() implies #[trigger] map_get(
            rebuilt(orig, ts, ids, k),
            ts[j].id.unwrap(),
        ) == if j < k {
            Some(refreshed(lookup(orig, ts[j].id.unwrap()).unwrap(), ts[j]))
        } else {
            lookup(orig, ts[j].id.unwrap())
        } by {
            if j != k - 1 {
                if j < k - 1 {
                    assert(ts[j].id != ts[k - 1].id);
                } else {
                    assert(ts[k - 1].id != ts[j].id);
                }
                assert(ts[j].id.unwrap() != idk);
                assert(map_get(m.insert(idk, v), ts[j].id.unwrap()) == map_get(m, ts[j].id.unwrap()));
            }
        }
    }
}

/// After a sync in which every request succeeded, the saved snapshot shows the buffer as it
/// stands: syncing the same buffer again finds nothing to do (for a buffer of distinct,
/// unchecked tasks that the previous snapshot knew and that have a project).
pub proof fn law_resync_after_success_needs_no_ops(
    orig: Seq<(Seq<char>, SnapshotTaskV)>,
    ts: Seq<BufferTaskV>,
    ids: Map<usize, String>,
    saved: Seq<(Seq<char>, SnapshotTaskV)>,
)
    requires
        settled(ts, orig),
        keys_unique(saved),
        forall|k: Seq<char>| #[trigger] lookup(saved, k) == map_get(rebuilt(orig, ts, ids, ts.len() as int), k),
    ensures
        buffer_ops(ts, saved, ts.len() as int) + delete_ops(ts, saved, saved.len() as int) == Seq::<
            (usize, SyncOpV),
        >::empty(),
        buffer_warnings(ts, saved, ts.len() as int) == Seq::<Seq<char>>::empty(),
{
    lemma_rebuilt_settled(orig, ts, ids, ts.len() as int);
    let r = rebuilt(orig, ts, ids, ts.len() as int);
    assert forall|j: int| 0 <= j < ts.len() implies agrees(#[trigger] ts[j], saved) by {
        assert(lookup(saved, ts[j].id.unwrap()) == map_get(r, ts[j].id.unwrap()));
    }
    assert forall|i: int| 0 <= i < saved.len() implies has_id(ts, #[trigger] saved[i].0) by {
        crate::models::lemma_lookup(saved, saved[i].0);
        assert(lookup(saved, saved[i].0) == map_get(r, saved[i].0));
        assert(r.contains_key(saved[i].0));
    }
    law_unchanged_buffer_needs_no_ops(ts, saved);
}

/// A reorder item (task id, position) is listed by its position.
impl Ordered for (String, i64) {
    open spec fn order_key(&self) -> i64 {
        self.1
    }

    fn order(&self) -> (r: i64) {
        self.1
    }
}

/// The ids of `(id, order)` pairs.
pub open spec fn pair_ids(v: Seq<(String, i64)>) -> Seq<Seq<char>> {
    v.map_values(|p: (String, i64)| p.0@)
}

proof fn lemma_sibling_orders_from_snapshot(
    ts: Seq<BufferTaskV>,
    snap: Seq<(Seq<char>, SnapshotTaskV)>,
    x: BufferTaskV,
    k: int,
)
    ensures
        forall|a: int|
            0 <= a < sibling_orders(ts, snap, x, k).len() ==> (#[trigger] sibling_orders(
                ts,
                snap,
                x,
                k,
            )[a]).1 == lookup(snap, sibling_orders(ts, snap, x, k)[a].0).unwrap().child_order,
    decreases k,
{
    if k > 0 {
        lemma_sibling_orders_from_snapshot(ts, snap, x, k - 1);
    }
}

/// A sibling group is out of order (and so reordered) exactly when sorting it stably by
/// snapshot `child_order` changes its sequence of ids.
pub proof fn law_out_of_order_iff_sort_moves_ids(
    ts: Seq<BufferTaskV>,
    snap: Seq<(Seq<char>, SnapshotTaskV)>,
    x: BufferTaskV,
    g: Seq<(String, i64)>,
)
    requires
        pairs_view(g) == sibling_orders(ts, snap, x, ts.len() as int),
    ensures
        out_of_order(pairs_view(g)) <==> pair_ids(sort_by_order(g)) != pair_ids(g),
{
    let v = pairs_view(g);
    lemma_sibling_orders_from_snapshot(ts, snap, x, ts.len() as int);
    assert forall|a: int, b: int|
        0 <= a < g.len() && 0 <= b < g.len() && (#[trigger] g[a]).0@ == (#[trigger] g[b]).0@ implies g[a].1
        == g[b].1 by {
        assert(v[a] == (g[a].0@, g[a].1));
        assert(v[b] == (g[b].0@, g[b].1));
    }
    let s = sort_by_order(g);
    law_sorted_in_order(g);
    lemma_sort_members(g);
    if out_of_order(v) {
        if pair_ids(s) == pair_ids(g) {
            let (a, b) = choose|a: int, b: int| 0 <= a < b < v.len() && #[trigger] v[a].1 > #[trigger] v[b].1;
            assert(pair_ids(s)[a] == pair_ids(g)[a]);
            assert(pair_ids(s)[b] == pair_ids(g)[b]);
            let ja = choose|j: int| 0 <= j < g.len() && g[j] == s[a];
            let jb = choose|j: int| 0 <= j < g.len() && g[j] == s[b];
            assert(g[ja].1 == g[a].1);
            assert(g[jb].1 == g[b].1);
            assert(s[a].order_key() <= s[b].order_key());
            assert(v[a].1 == g[a].1 && v[b].1 == g[b].1);
            assert(false);
        }
    } else {
        assert forall|i: int, j: int| 0 <= i < j < g.len() implies #[trigger] g[i].order_key()
            <= #[trigger] g[j].order_key() by {
            assert(v[i].1 == g[i].1 && v[j].1 == g[j].1);
            if v[i].1 > v[j].1 {
                assert(out_of_order(v));
            }
        }
        assert(in_order(g));
        law_sort_keeps_ordered(g);
    }
}


proof fn lemma_task_ops_shape(t: BufferTaskV, j: usize, snap: Seq<(Seq<char>, SnapshotTaskV)>)
    ensures
        forall|i: int|
            0 <= i < task_ops(t, j, snap).len() ==> (#[trigger] task_ops(t, j, snap)[i]).0 == j
                && !(task_ops(t, j, snap)[i].1 is Delete),
        task_warning(t, snap) is Some ==> task_ops(t, j, snap).len() == 0,
{
    match t.id {
        Some(id) => match lookup(snap, id) {
            Some(s) => {
                let u = update_op(t, j, s);
                let m = move_op(t, j, s);
                if !(!s.checked && t.checked) && !(s.checked && !t.checked) {
                    assert forall|i: int| 0 <= i < (u + m).len() implies (#[trigger] (u + m)[i]).0 == j
                        && !((u + m)[i].1 is Delete) by {
                        if i < u.len() {
                            assert((u + m)[i] == u[i]);
                        } else {
                            assert((u + m)[i] == m[i - u.len()]);
                        }
                    }
                }
            },
            None => {},
        },
        None => {},
    }
}

proof fn lemma_buffer_ops_shape(ts: Seq<BufferTaskV>, snap: Seq<(Seq<char>, SnapshotTaskV)>, k: int)
    requires
        0 <= k <= ts.len(),
        ts.len() < usize::MAX,
    ensures
        forall|i: int|
            0 <= i < buffer_ops(ts, snap, k).len() ==> (#[trigger] buffer_ops(ts, snap, k)[i]).0 < k
                && !(buffer_ops(ts, snap, k)[i].1 is Delete),
        forall|i: int, j: int|
            0 <= i <= j < buffer_ops(ts, snap, k).len() ==> (#[trigger] buffer_ops(ts, snap, k)[i]).0
                <= (#[trigger] buffer_ops(ts, snap, k)[j]).0,
    decreases k,
{
    if k > 0 {
        lemma_buffer_ops_shape(ts, snap, k - 1);
        let prev = buffer_ops(ts, snap, k - 1);
        let cur = task_ops(ts[k - 1], (k - 1) as usize, snap);
        lemma_task_ops_shape(ts[k - 1], (k - 1) as usize, snap);
        let all = buffer_ops(ts, snap, k);
        assert(all == prev + cur);
        assert forall|i: int| 0 <= i < all.len() implies (#[trigger] all[i]).0 < k && !(all[i].1 is Delete) by {
            if i < prev.len() {
                assert(all[i] == prev[i]);
            } else {
                assert(all[i] == cur[i - prev.len()]);
            }
        }
        assert forall|i: int, j: int| 0 <= i <= j < all.len() implies (#[trigger] all[i]).0 <= (
        #[trigger] all[j]).0 by {
            if j < prev.len() {
                assert(all[i] == prev[i]);
                assert(all[j] == prev[j]);
            } else if i < prev.len() {
                assert(all[i] == prev[i]);
                assert(all[j] == cur[j - prev.len()]);
            } else {
                assert(all[i] == cur[i - prev.len()]);
                assert(all[j] == cur[j - prev.len()]);
            }
        }
    }
}

/// The operation deletes the task with id `id`.
pub open spec fn deletes_id(op: (usize, SyncOpV), id: Seq<char>) -> bool {
    match op.1 {
        SyncOpV::Delete { id: x, .. } => x == id,
        _ => false,
    }
}

/// Some operation among `ops` deletes the task with id `id`.
pub open spec fn deletes(ops: Seq<(usize, SyncOpV)>, id: Seq<char>) -> bool {
    exists|j: int| 0 <= j < ops.len() && deletes_id(#[trigger] ops[j], id)
}

/// Among the first `k` snapshot entries, one has key `id` and no buffer task carries it.
pub open spec fn gone_from_buffer(
    ts: Seq<BufferTaskV>,
    snap: Seq<(Seq<char>, SnapshotTaskV)>,
    k: int,
    id: Seq<char>,
) -> bool {
    exists|i: int| 0 <= i < k && (#[trigger] snap[i]).0 == id && !has_id(ts, id)
}

proof fn lemma_delete_ops_shape(ts: Seq<BufferTaskV>, snap: Seq<(Seq<char>, SnapshotTaskV)>, k: int)
    requires
        0 <= k <= snap.len(),
    ensures
        forall|j: int|
            0 <= j < delete_ops(ts, snap, k).len() ==> (#[trigger] delete_ops(ts, snap, k)[j]).0
                == usize::MAX && delete_ops(ts, snap, k)[j].1 is Delete,
        forall|id: Seq<char>|
            #[trigger] deletes(delete_ops(ts, snap, k), id) <==> gone_from_buffer(ts, snap, k, id),
    decreases k,
{
    if k > 0 {
        lemma_delete_ops_shape(ts, snap, k - 1);
        let prev = delete_ops(ts, snap, k - 1);
        let e = snap[k - 1];
        let all = delete_ops(ts, snap, k);
        if has_id(ts, e.0) {
            assert(all == prev);
        } else {
            assert(all == prev.push((usize::MAX, SyncOpV::Delete { id: e.0, content: e.1.content })));
        }
        assert forall|j: int| 0 <= j < all.len() implies (#[trigger] all[j]).0 == usize::MAX
            && all[j].1 is Delete by {
            if j < prev.len() {
                assert(all[j] == prev[j]);
            }
        }
        assert forall|id: Seq<char>| #[trigger] deletes(all, id) <==> gone_from_buffer(ts, snap, k, id) by {
            if deletes(all, id) {
                let j = choose|j: int| 0 <= j < all.len() && deletes_id(#[trigger] all[j], id);
                if j < prev.len() {
                    assert(all[j] == prev[j]);
                    assert(deletes(prev, id));
                    let i = choose|i: int| 0 <= i < k - 1 && (#[trigger] snap[i]).0 == id && !has_id(ts, id);
                } else {
                    assert(snap[k - 1].0 == id);
                }
            }
            if gone_from_buffer(ts, snap, k, id) {
                let i = choose|i: int| 0 <= i < k && (#[trigger] snap[i]).0 == id && !has_id(ts, id);
                if i < k - 1 {
                    assert(gone_from_buffer(ts, snap, k - 1, id));
                    assert(deletes(prev, id));
                    let j = choose|j: int| 0 <= j < prev.len() && deletes_id(#[trigger] prev[j], id);
                    assert(all[j] == prev[j]);
                } else {
                    assert(all[prev.len() as int] == (usize::MAX, SyncOpV::Delete { id: e.0, content: e.1.content }));
                }
            }
        }
    }
}

/// The operations of a sync come in two runs. First those of the buffer tasks, each at the
/// index of its task, indices never decreasing and no `Delete` among them; a task that is
/// skipped with a warning gets no operation. Then the deletions, each at index `usize::MAX`:
/// a task is deleted exactly when it is in the snapshot and no buffer task carries its id.
pub proof fn law_sync_ops_in_two_runs(ts: Seq<BufferTaskV>, snap: Seq<(Seq<char>, SnapshotTaskV)>)
    requires
        ts.len() < usize::MAX,
    ensures
        forall|i: int|
            0 <= i < buffer_ops(ts, snap, ts.len() as int).len() ==> (#[trigger] buffer_ops(
                ts,
                snap,
                ts.len() as int,
            )[i]).0 < ts.len() && !(buffer_ops(ts, snap, ts.len() as int)[i].1 is Delete),
        forall|i: int, j: int|
            0 <= i <= j < buffer_ops(ts, snap, ts.len() as int).len() ==> (#[trigger] buffer_ops(
                ts,
                snap,
                ts.len() as int,
            )[i]).0 <= (#[trigger] buffer_ops(ts, snap, ts.len() as int)[j]).0,
        forall|i: int|
            0 <= i < ts.len() && #[trigger] task_warning(ts[i], snap) is Some ==> task_ops(
                ts[i],
                i as usize,
                snap,
            ).len() == 0,
        forall|j: int|
            0 <= j < delete_ops(ts, snap, snap.len() as int).len() ==> (#[trigger] delete_ops(
                ts,
                snap,
                snap.len() as int,
            )[j]).0 == usize::MAX && delete_ops(ts, snap, snap.len() as int)[j].1 is Delete,
        forall|id: Seq<char>|
            #[trigger] deletes(delete_ops(ts, snap, snap.len() as int), id) <==> (exists|i: int|
                0 <= i < snap.len() && (#[trigger] snap[i]).0 == id) && !has_id(ts, id),
{
    lemma_buffer_ops_shape(ts, snap, ts.len() as int);
    lemma_delete_ops_shape(ts, snap, snap.len() as int);
    assert forall|i: int| 0 <= i < ts.len() && #[trigger] task_warning(ts[i], snap) is Some implies task_ops(
        ts[i],
        i as usize,
        snap,
    ).len() == 0 by {
        lemma_task_ops_shape(ts[i], i as usize, snap);
    }
    assert forall|id: Seq<char>| #[trigger] deletes(delete_ops(ts, snap, snap.len() as int), id)
        <==> (exists|i: int| 0 <= i < snap.len() && (#[trigger] snap[i]).0 == id) && !has_id(ts, id) by {
        if gone_from_buffer(ts, snap, snap.len() as int, id) {
            let i = choose|i: int| 0 <= i < snap.len() && (#[trigger] snap[i]).0 == id && !has_id(ts, id);
        }
        if (exists|i: int| 0 <= i < snap.len() && (#[trigger] snap[i]).0 == id) && !has_id(ts, id) {
            let i = choose|i: int| 0 <= i < snap.len() && (#[trigger] snap[i]).0 == id;
            assert(gone_from_buffer(ts, snap, snap.len() as int, id));
        }
    }
}


/// Buffer task `j` is new and was created (it has a new id).
pub open spec fn created_at(ts: Seq<BufferTaskV>, ids: Map<usize, String>, j: int) -> bool {
    ts[j].id is None && ids.contains_key(j as usize)
}

/// Buffer ids are distinct; new ids are distinct from one another and from every buffer id.
pub open spec fn ids_apart(ts: Seq<BufferTaskV>, ids: Map<usize, String>) -> bool {
    &&& forall|a: int, b: int|
        0 <= a < b < ts.len() && (#[trigger] ts[a]).id is Some ==> ts[a].id != (#[trigger] ts[b]).id
    &&& forall|a: int, b: int|
        0 <= a < ts.len() && 0 <= b < ts.len() && created_at(ts, ids, a) && created_at(ts, ids, b)
            && (#[trigger] ids[a as usize])@ == (#[trigger] ids[b as usize])@ ==> a == b
    &&& forall|a: int, b: int|
        0 <= a < ts.len() && 0 <= b < ts.len() && created_at(ts, ids, a) ==> (#[trigger] ts[b]).id
            != Some((#[trigger] ids[a as usize])@)
}

/// The entry that buffer task `t` (with an id) has after a sync.
pub open spec fn after_sync(orig: Seq<(Seq<char>, SnapshotTaskV)>, t: BufferTaskV) -> Option<SnapshotTaskV> {
    if !t.checked && lookup(orig, t.id.unwrap()) is Some {
        Some(refreshed(lookup(orig, t.id.unwrap()).unwrap(), t))
    } else {
        None
    }
}

/// Some buffer task was created with the new id `x`.
pub open spec fn created_as(ts: Seq<BufferTaskV>, ids: Map<usize, String>, x: Seq<char>) -> bool {
    exists|j: int| 0 <= j < ts.len() && created_at(ts, ids, j) && (#[trigger] ids[j as usize])@ == x
}

proof fn lemma_rebuilt_steps(
    orig: Seq<(Seq<char>, SnapshotTaskV)>,
    ts: Seq<BufferTaskV>,
    ids: Map<usize, String>,
    k: int,
)
    requires
        0 <= k <= ts.len(),
        ts.len() <= usize::MAX,
        ids_apart(ts, ids),
    ensures
        forall|j: int|
            0 <= j < ts.len() && (#[trigger] ts[j]).id is Some ==> map_get(
                rebuilt(orig, ts, ids, k),
                ts[j].id.unwrap(),
            ) == if j < k {
                after_sync(orig, ts[j])
            } else {
                lookup(orig, ts[j].id.unwrap())
            },
        forall|j: int|
            0 <= j < ts.len() && created_at(ts, ids, j) ==> map_get(
                rebuilt(orig, ts, ids, k),
                (#[trigger] ids[j as usize])@,
            ) == if j < k {
                Some(created_entry(ids[j as usize]@, ts[j]))
            } else {
                None
            },
        forall|x: Seq<char>|
            !has_id(ts, x) && !created_as(ts, ids, x) ==> #[trigger] map_get(
                rebuilt(orig, ts, ids, k),
                x,
            ) is None,
    decreases k,
{
    if k == 0 {
        let m = kept_entries(orig, ts);
        assert forall|j: int| 0 <= j < ts.len() && created_at(ts, ids, j) implies map_get(
            m,
            (#[trigger] ids[j as usize])@,
        ) is None by {
            if has_id(ts, ids[j as usize]@) {
                let b = choose|b: int| 0 <= b < ts.len() && #[trigger] ts[b].id == Some(ids[j as usize]@);
                assert(ts[b].id != Some(ids[j as usize]@));
            }
        }
        assert forall|j: int| 0 <= j < ts.len() && (#[trigger] ts[j]).id is Some implies map_get(
            m,
            ts[j].id.unwrap(),
        ) == lookup(orig, ts[j].id.unwrap()) by {
            assert(has_id(ts, ts[j].id.unwrap()));
        }
    } else {
        lemma_rebuilt_steps(orig, ts, ids, k - 1);
        let prev = rebuilt(orig, ts, ids, k - 1);
        let t = ts[k - 1];
        let cur = rebuilt(orig, ts, ids, k);
        assert(cur == apply_task(prev, t, (k - 1) as usize, ids));
        assert forall|j: int| 0 <= j < ts.len() && (#[trigger] ts[j]).id is Some implies map_get(
            cur,
            ts[j].id.unwrap(),
        ) == if j < k {
            after_sync(orig, ts[j])
        } else {
            lookup(orig, ts[j].id.unwrap())
        } by {
            let x = ts[j].id.unwrap();
            if j != k - 1 {
                if t.id is Some {
                    if j < k - 1 {
                        assert(ts[j].id != ts[k - 1].id);
                    } else {
                        assert(ts[k - 1].id != ts[j].id);
                    }
                } else if ids.contains_key((k - 1) as usize) {
                    assert(ts[j].id != Some(ids[(k - 1) as usize]@));
                }
            }
        }
        assert forall|j: int| 0 <= j < ts.len() && created_at(ts, ids, j) implies map_get(
            cur,
            (#[trigger] ids[j as usize])@,
        ) == if j < k {
            Some(created_entry(ids[j as usize]@, ts[j]))
        } else {
            None
        } by {
            let x = ids[j as usize]@;
            if j != k - 1 {
                if t.id is Some {
                    assert(ts[k - 1].id != Some(x));
                } else if ids.contains_key((k - 1) as usize) {
                    assert(created_at(ts, ids, k - 1));
                    if ids[(k - 1) as usize]@ == x {
                        assert(j == k - 1);
                    }
                }
            }
        }
        assert forall|x: Seq<char>| !has_id(ts, x) && !created_as(ts, ids, x) implies #[trigger] map_get(
            cur,
            x,
        ) is None by {
            assert(map_get(prev, x) is None);
            if t.id is Some {
                assert(ts[k - 1].id != Some(x));
            } else if ids.contains_key((k - 1) as usize) {
                assert(created_at(ts, ids, k - 1));
                if ids[(k - 1) as usize]@ == x {
                    assert(created_as(ts, ids, x));
                }
            }
        }
    }
}

/// The snapshot saved after a sync in which every request succeeded (buffer ids distinct, new
/// ids distinct from one another and from the buffer's): a task with an id keeps an entry
/// exactly when it is unchecked and the snapshot had it, brought up to date with the buffer
/// (`refreshed`); each created task has the entry `created_entry` under its new id; no other
/// id has an entry.
pub proof fn law_snapshot_after_sync(
    orig: Seq<(Seq<char>, SnapshotTaskV)>,
    ts: Seq<BufferTaskV>,
    ids: Map<usize, String>,
)
    requires
        ts.len() <= usize::MAX,
        ids_apart(ts, ids),
    ensures
        forall|j: int|
            0 <= j < ts.len() && (#[trigger] ts[j]).id is Some ==> map_get(
                rebuilt(orig, ts, ids, ts.len() as int),
                ts[j].id.unwrap(),
            ) == after_sync(orig, ts[j]),
        forall|j: int|
            0 <= j < ts.len() && created_at(ts, ids, j) ==> map_get(
                rebuilt(orig, ts, ids, ts.len() as int),
                (#[trigger] ids[j as usize])@,
            ) == Some(created_entry(ids[j as usize]@, ts[j])),
        forall|x: Seq<char>|
            !has_id(ts, x) && !created_as(ts, ids, x) ==> #[trigger] map_get(
                rebuilt(orig, ts, ids, ts.len() as int),
                x,
            ) is None,
{
    lemma_rebuilt_steps(orig, ts, ids, ts.len() as int);
}


// ─── Laws on what each step does ─────────────────────────────────────────────────────────

/// The `Create` that a new buffer task `t` at index `j` asks for: its content, project,
/// section, parent and due date as the buffer shows them.
pub open spec fn create_as_written(t: BufferTaskV, j: usize) -> (usize, SyncOpV) {
    (
        j,
        SyncOpV::Create {
            content: t.content,
            project_id: t.project_id.unwrap(),
            section_id: t.section_id,
            parent_id: t.parent_id,
            due: t.due,
        },
    )
}

proof fn lemma_creates_in_buffer_ops(ts: Seq<BufferTaskV>, snap: Seq<(Seq<char>, SnapshotTaskV)>, k: int)
    requires
        0 <= k <= ts.len(),
        ts.len() <= usize::MAX,
    ensures
        forall|j: int|
            0 <= j < k && (#[trigger] ts[j]).id is None && ts[j].project_id is Some ==> buffer_ops(
                ts,
                snap,
                k,
            ).contains(create_as_written(ts[j], j as usize)),
        forall|i: int|
            0 <= i < buffer_ops(ts, snap, k).len() && (#[trigger] buffer_ops(ts, snap, k)[i]).1 is Create
                ==> buffer_ops(ts, snap, k)[i].0 < k && ts[buffer_ops(ts, snap, k)[i].0 as int].id is None
                && ts[buffer_ops(ts, snap, k)[i].0 as int].project_id is Some && buffer_ops(ts, snap, k)[i]
                == create_as_written(ts[buffer_ops(ts, snap, k)[i].0 as int], buffer_ops(ts, snap, k)[i].0),
    decreases k,
{
    if k > 0 {
        lemma_creates_in_buffer_ops(ts, snap, k - 1);
        let prev = buffer_ops(ts, snap, k - 1);
        let t = ts[k - 1];
        let cur = task_ops(t, (k - 1) as usize, snap);
        let all = buffer_ops(ts, snap, k);
        assert(all == prev + cur);
        lemma_task_ops_shape(t, (k - 1) as usize, snap);
        if t.id is None && t.project_id is Some {
            assert(cur == seq![create_as_written(t, (k - 1) as usize)]);
        }
        assert(t.id is Some || t.project_id is None ==> forall|i: int| 0 <= i < cur.len() ==> !((#[trigger] cur[i]).1 is Create)) by {
            if t.id is Some {
                match lookup(snap, t.id.unwrap()) {
                    Some(e) => {
                        if !(!e.checked && t.checked) && !(e.checked && !t.checked) {
                            let u = update_op(t, (k - 1) as usize, e);
                            let m = move_op(t, (k - 1) as usize, e);
                            assert forall|i: int| 0 <= i < cur.len() implies !((#[trigger] cur[i]).1 is Create) by {
                                assert(cur == u + m);
                                if i < u.len() {
                                    assert(cur[i] == u[i]);
                                } else {
                                    assert(cur[i] == m[i - u.len()]);
                                }
                            }
                        }
                    },
                    None => {},
                }
            }
        }
        assert forall|j: int| 0 <= j < k && (#[trigger] ts[j]).id is None && ts[j].project_id is Some implies all.contains(
            create_as_written(ts[j], j as usize),
        ) by {
            if j < k - 1 {
                let w = choose|w: int| 0 <= w < prev.len() && prev[w] == create_as_written(ts[j], j as usize);
                assert(all[w] == prev[w]);
            } else {
                assert(all[prev.len() as int] == cur[0]);
            }
        }
        assert forall|i: int| 0 <= i < all.len() && (#[trigger] all[i]).1 is Create implies all[i].0 < k
            && ts[all[i].0 as int].id is None && ts[all[i].0 as int].project_id is Some && all[i]
            == create_as_written(ts[all[i].0 as int], all[i].0) by {
            if i < prev.len() {
                assert(all[i] == prev[i]);
            } else {
                assert(all[i] == cur[i - prev.len()]);
            }
        }
    }
}

/// A sync creates each new buffer task (no id, with a project) as written: among its
/// operations is a `Create` at the task's index with the task's content, project, section,
/// parent and due date. And every `Create` it sends is of that form, for a new task.
pub proof fn law_create_carries_the_task(ts: Seq<BufferTaskV>, snap: Seq<(Seq<char>, SnapshotTaskV)>)
    requires
        ts.len() <= usize::MAX,
    ensures
        forall|j: int|
            0 <= j < ts.len() && (#[trigger] ts[j]).id is None && ts[j].project_id is Some ==> (
            buffer_ops(ts, snap, ts.len() as int) + delete_ops(ts, snap, snap.len() as int)).contains(
                (
                    j as usize,
                    SyncOpV::Create {
                        content: ts[j].content,
                        project_id: ts[j].project_id.unwrap(),
                        section_id: ts[j].section_id,
                        parent_id: ts[j].parent_id,
                        due: ts[j].due,
                    },
                ),
            ),
        forall|i: int|
            0 <= i < (buffer_ops(ts, snap, ts.len() as int) + delete_ops(
                ts,
                snap,
                snap.len() as int,
            )).len() && ((#[trigger] (buffer_ops(ts, snap, ts.len() as int) + delete_ops(
                ts,
                snap,
                snap.len() as int,
            ))[i]).1 matches SyncOpV::Create { content, project_id, section_id, parent_id, due }) ==> {
                let op = (buffer_ops(ts, snap, ts.len() as int) + delete_ops(ts, snap, snap.len() as int))[i];
                let t = ts[op.0 as int];
                &&& op.0 < ts.len()
                &&& t.id is None
                &&& t.project_id == Some(op.1->Create_project_id)
                &&& op.1->Create_content == t.content
                &&& op.1->Create_section_id == t.section_id
                &&& op.1->Create_parent_id == t.parent_id
                &&& op.1->Create_due == t.due
            },
{
    let bo = buffer_ops(ts, snap, ts.len() as int);
    let dl = delete_ops(ts, snap, snap.len() as int);
    let all = bo + dl;
    lemma_creates_in_buffer_ops(ts, snap, ts.len() as int);
    lemma_delete_ops_shape(ts, snap, snap.len() as int);
    assert forall|j: int| 0 <= j < ts.len() && (#[trigger] ts[j]).id is None && ts[j].project_id is Some implies all.contains(
        create_as_written(ts[j], j as usize),
    ) by {
        let w = choose|w: int| 0 <= w < bo.len() && bo[w] == create_as_written(ts[j], j as usize);
        assert(all[w] == bo[w]);
    }
    assert forall|i: int| 0 <= i < all.len() && ((#[trigger] all[i]).1 is Create) implies {
        let op = all[i];
        let t = ts[op.0 as int];
        &&& op.0 < ts.len()
        &&& t.id is None
        &&& t.project_id == Some(op.1->Create_project_id)
        &&& op.1->Create_content == t.content
        &&& op.1->Create_section_id == t.section_id
        &&& op.1->Create_parent_id == t.parent_id
        &&& op.1->Create_due == t.due
    } by {
        if i < bo.len() {
            assert(all[i] == bo[i]);
        } else {
            assert(all[i] == dl[i - bo.len()]);
        }
    }
}

/// Counting a successful request raises exactly the counter of its kind, by one (by the
/// number of its items for a reorder), and leaves every other count, the warnings and the
/// errors as they were. So after a successful create, update, completion, reopening or
/// deletion the summary has changes.
pub proof fn law_success_counts_its_kind(s: SyncSummary, op: SyncOpV)
    requires
        room_to_count(s, op),
    ensures
        counted(s, op).created == s.created + if op is Create { 1int } else { 0int },
        counted(s, op).updated == s.updated + if op is Update { 1int } else { 0int },
        counted(s, op).completed == s.completed + if op is Complete { 1int } else { 0int },
        counted(s, op).reopened == s.reopened + if op is Reopen { 1int } else { 0int },
        counted(s, op).deleted == s.deleted + if op is Delete { 1int } else { 0int },
        counted(s, op).moved == s.moved + if op is Move { 1int } else { 0int },
        counted(s, op).reordered == s.reordered + match op {
            SyncOpV::Reorder { items } => items.len() as int,
            _ => 0int,
        },
        counted(s, op).skipped == s.skipped,
        counted(s, op).warnings == s.warnings,
        counted(s, op).errors == s.errors,
        (op is Create || op is Update || op is Complete || op is Reopen || op is Delete) ==> counted(
            s,
            op,
        ).change_count() > 0,
{
}


/// The snapshot saved after a sync holds each task as the buffer shows it.
///
/// A task created in the sync (new in the buffer, with a new id) has, under its new id, the
/// buffer's content, project (none: empty), section, parent and due date, unchecked and at
/// order 0. A task the snapshot had and the buffer shows unchecked keeps its id and order and
/// takes the buffer's content, section, parent, due date and (when the buffer has one)
/// project, unchecked. A checked task, or one the snapshot did not have, has no entry.
/// (Buffer ids distinct, new ids distinct from one another and from the buffer's.)
pub proof fn law_saved_entries_hold_the_buffer(
    orig: Seq<(Seq<char>, SnapshotTaskV)>,
    ts: Seq<BufferTaskV>,
    ids: Map<usize, String>,
)
    requires
        ts.len() <= usize::MAX,
        ids_apart(ts, ids),
    ensures
        forall|j: int|
            0 <= j < ts.len() && created_at(ts, ids, j) ==> {
                let e = map_get(rebuilt(orig, ts, ids, ts.len() as int), (#[trigger] ids[j as usize])@);
                &&& e is Some
                &&& e.unwrap().id == ids[j as usize]@
                &&& e.unwrap().content == ts[j].content
                &&& e.unwrap().project_id == match ts[j].project_id {
                    Some(p) => p,
                    None => Seq::empty(),
                }
                &&& e.unwrap().section_id == ts[j].section_id
                &&& e.unwrap().parent_id == ts[j].parent_id
                &&& e.unwrap().due == ts[j].due
                &&& !e.unwrap().checked
                &&& e.unwrap().child_order == 0
            },
        forall|j: int|
            0 <= j < ts.len() && (#[trigger] ts[j]).id is Some ==> {
                let before = lookup(orig, ts[j].id.unwrap());
                let e = map_get(rebuilt(orig, ts, ids, ts.len() as int), ts[j].id.unwrap());
                &&& e is Some <==> (!ts[j].checked && before is Some)
                &&& e is Some ==> {
                    &&& e.unwrap().id == before.unwrap().id
                    &&& e.unwrap().child_order == before.unwrap().child_order
                    &&& e.unwrap().content == ts[j].content
                    &&& e.unwrap().project_id == match ts[j].project_id {
                        Some(p) => p,
                        None => before.unwrap().project_id,
                    }
                    &&& e.unwrap().section_id == ts[j].section_id
                    &&& e.unwrap().parent_id == ts[j].parent_id
                    &&& e.unwrap().due == ts[j].due
                    &&& !e.unwrap().checked
                }
            },
{
    law_snapshot_after_sync(orig, ts, ids);
}


/// In the buffer, every two tasks that the snapshot knows and that share project, section and
/// parent come in the order of their snapshot `child_order`.
pub open spec fn listed_in_snapshot_order(ts: Seq<BufferTaskV>, snap: Seq<(Seq<char>, SnapshotTaskV)>) -> bool {
    forall|a: int, b: int|
        0 <= a < b < ts.len() && (#[trigger] ts[a]).id is Some && (#[trigger] ts[b]).id is Some
            && lookup(snap, ts[a].id.unwrap()) is Some && lookup(snap, ts[b].id.unwrap()) is Some
            && ts[a].project_id == ts[b].project_id && ts[a].section_id == ts[b].section_id
            && ts[a].parent_id == ts[b].parent_id ==> lookup(snap, ts[a].id.unwrap()).unwrap().child_order
            <= lookup(snap, ts[b].id.unwrap()).unwrap().child_order
}

proof fn lemma_sibling_orders_origin(
    ts: Seq<BufferTaskV>,
    snap: Seq<(Seq<char>, SnapshotTaskV)>,
    x: BufferTaskV,
    k: int,
)
    requires
        k <= ts.len(),
    ensures
        forall|p: int|
            0 <= p < sibling_orders(ts, snap, x, k).len() ==> exists|i: int|
                0 <= i < k && known(#[trigger] ts[i], snap) && siblings(ts[i], x)
                    && #[trigger] sibling_orders(ts, snap, x, k)[p] == (
                    ts[i].id.unwrap(),
                    lookup(snap, ts[i].id.unwrap()).unwrap().child_order,
                ),
    decreases k,
{
    if k > 0 {
        lemma_sibling_orders_origin(ts, snap, x, k - 1);
        let prev = sibling_orders(ts, snap, x, k - 1);
        let g = sibling_orders(ts, snap, x, k);
        assert forall|p: int| #![trigger g[p]] 0 <= p < g.len() implies exists|i: int|
            0 <= i < k && known(#[trigger] ts[i], snap) && siblings(ts[i], x) && g[p] == (
                ts[i].id.unwrap(),
                lookup(snap, ts[i].id.unwrap()).unwrap().child_order,
            ) by {
            if p < prev.len() {
                assert(g[p] == prev[p]);
                let i = choose|i: int|
                    0 <= i < k - 1 && known(#[trigger] ts[i], snap) && siblings(ts[i], x) && prev[p] == (
                        ts[i].id.unwrap(),
                        lookup(snap, ts[i].id.unwrap()).unwrap().child_order,
                    );
            } else {
                assert(known(ts[k - 1], snap) && siblings(ts[k - 1], x));
            }
        }
    }
}

proof fn lemma_sibling_orders_sorted(
    ts: Seq<BufferTaskV>,
    snap: Seq<(Seq<char>, SnapshotTaskV)>,
    x: BufferTaskV,
    k: int,
)
    requires
        k <= ts.len(),
        listed_in_snapshot_order(ts, snap),
    ensures
        !out_of_order(sibling_orders(ts, snap, x, k)),
    decreases k,
{
    if k > 0 {
        lemma_sibling_orders_sorted(ts, snap, x, k - 1);
        lemma_sibling_orders_origin(ts, snap, x, k - 1);
        let prev = sibling_orders(ts, snap, x, k - 1);
        let g = sibling_orders(ts, snap, x, k);
        let t = ts[k - 1];
        if known(t, snap) && siblings(t, x) {
            assert(g == prev.push((t.id.unwrap(), lookup(snap, t.id.unwrap()).unwrap().child_order)));
            if out_of_order(g) {
                let (a, b) = choose|a: int, b: int| 0 <= a < b < g.len() && #[trigger] g[a].1 > #[trigger] g[b].1;
                assert(g[a] == prev[a]);
                if b < prev.len() {
                    assert(g[b] == prev[b]);
                    assert(out_of_order(prev));
                } else {
                    let i = choose|i: int|
                        0 <= i < k - 1 && known(#[trigger] ts[i], snap) && siblings(ts[i], x) && prev[a] == (
                            ts[i].id.unwrap(),
                            lookup(snap, ts[i].id.unwrap()).unwrap().child_order,
                        );
                    assert(ts[i].project_id == ts[k - 1].project_id && ts[i].section_id
                        == ts[k - 1].section_id && ts[i].parent_id == ts[k - 1].parent_id);
                    assert(lookup(snap, ts[i].id.unwrap()).unwrap().child_order <= lookup(
                        snap,
                        ts[k - 1].id.unwrap(),
                    ).unwrap().child_order);
                    assert(false);
                }
            }
        }
    }
}

proof fn lemma_no_reorder_items(ts: Seq<BufferTaskV>, snap: Seq<(Seq<char>, SnapshotTaskV)>, k: int)
    requires
        k <= ts.len(),
        listed_in_snapshot_order(ts, snap),
    ensures
        reorder_items(ts, snap, k).len() == 0,
    decreases k,
{
    if k > 0 {
        lemma_no_reorder_items(ts, snap, k - 1);
        if opens_group(ts, snap, k - 1) {
            lemma_sibling_orders_sorted(ts, snap, ts[k - 1], ts.len() as int);
        }
    }
}

/// A buffer that lists every sibling group (tasks the snapshot knows, sharing project,
/// section and parent) in the order of the snapshot's `child_order` needs no reorder. Tasks
/// with different parents, sections or projects are never compared.
pub proof fn law_ordered_groups_need_no_reorder(ts: Seq<BufferTaskV>, snap: Seq<(Seq<char>, SnapshotTaskV)>)
    requires
        forall|a: int, b: int|
            0 <= a < b < ts.len() && (#[trigger] ts[a]).id is Some && (#[trigger] ts[b]).id is Some
                && lookup(snap, ts[a].id.unwrap()) is Some && lookup(snap, ts[b].id.unwrap()) is Some
                && ts[a].project_id == ts[b].project_id && ts[a].section_id == ts[b].section_id
                && ts[a].parent_id == ts[b].parent_id ==> lookup(snap, ts[a].id.unwrap()).unwrap().child_order
                <= lookup(snap, ts[b].id.unwrap()).unwrap().child_order,
    ensures
        reorder_items(ts, snap, ts.len() as int).len() == 0,
{
    assert(listed_in_snapshot_order(ts, snap));
    lemma_no_reorder_items(ts, snap, ts.len() as int);
}


/// Task `i` was created in this sync (no id in the buffer, a new id given) and sits one level
/// above the task at `cur`.
pub open spec fn created_above(ts: Seq<BufferTaskV>, ids: Map<usize, String>, i: int, cur: int) -> bool {
    &&& ts[i].id is None
    &&& ids.contains_key(i as usize)
    &&& ts[cur].indent_level == ts[i].indent_level + 1
}

proof fn lemma_resolve_reaches(
    pid: Seq<char>,
    cur: int,
    ts: Seq<BufferTaskV>,
    ids: Map<usize, String>,
    w: int,
    i: int,
)
    requires
        0 <= i <= w < cur < ts.len(),
        ts[w].id == Some(pid),
        forall|k: int| 0 <= k < w ==> !created_above(ts, ids, k, cur),
    ensures
        resolve_from(pid, cur, ts, ids, i) == Some(pid),
    decreases w - i,
{
    if ts[i].id != Some(pid) {
        assert(i < w);
        assert(!created_above(ts, ids, i, cur));
        lemma_resolve_reaches(pid, cur, ts, ids, w, i + 1);
    }
}

/// A new or moved task whose parent id `pid` is carried by a task before it gets `pid` as its
/// parent, with no warning, unless a task created in this sync one level above it comes
/// first.
pub proof fn law_parent_found_by_id(
    pid: Seq<char>,
    cur: int,
    ts: Seq<BufferTaskV>,
    ids: Map<usize, String>,
    w: int,
)
    requires
        ts.len() <= usize::MAX,
        0 <= w < cur < ts.len(),
        ts[w].id == Some(pid),
        forall|k: int| 0 <= k < w ==> !created_above(ts, ids, k, cur),
    ensures
        resolved_parent(Some(pid), cur as usize, ts, ids) == Some(pid),
        parent_warnings(Some(pid), cur as usize, ts, ids) == Seq::<Seq<char>>::empty(),
{
    lemma_resolve_reaches(pid, cur, ts, ids, w, 0);
}

proof fn lemma_resolve_cases(
    pid: Seq<char>,
    cur: int,
    ts: Seq<BufferTaskV>,
    ids: Map<usize, String>,
    i: int,
)
    requires
        0 <= i,
        cur < ts.len(),
    ensures
        resolve_from(pid, cur, ts, ids, i) is None ==> forall|k: int|
            i <= k < cur ==> (#[trigger] ts[k]).id != Some(pid) && !created_above(ts, ids, k, cur),
        resolve_from(pid, cur, ts, ids, i) matches Some(r) ==> r == pid || exists|k: int|
            i <= k < cur && created_above(ts, ids, k, cur) && (#[trigger] ids[k as usize])@ == r,
    decreases ts.len() - i,
{
    if i < ts.len() && i < cur && ts[i].id != Some(pid) && !created_above(ts, ids, i, cur) {
        lemma_resolve_cases(pid, cur, ts, ids, i + 1);
        assert forall|k: int| i <= k < cur && resolve_from(pid, cur, ts, ids, i) is None implies (
        #[trigger] ts[k]).id != Some(pid) && !created_above(ts, ids, k, cur) by {
            if k > i {
            }
        }
    }
}

/// The parent that a new or moved task gets is `pid` itself or the new id of a task created in
/// this sync one level above it, before it; it gets none only when no task before it carries
/// `pid` and no such created task comes before it.
pub proof fn law_parent_comes_from_before(
    pid: Seq<char>,
    cur: int,
    ts: Seq<BufferTaskV>,
    ids: Map<usize, String>,
)
    requires
        ts.len() <= usize::MAX,
        0 <= cur < ts.len(),
    ensures
        resolved_parent(Some(pid), cur as usize, ts, ids) is None ==> forall|k: int|
            0 <= k < cur ==> (#[trigger] ts[k]).id != Some(pid) && !created_above(ts, ids, k, cur),
        resolved_parent(Some(pid), cur as usize, ts, ids) matches Some(r) ==> r == pid || exists|k: int|
            0 <= k < cur && created_above(ts, ids, k, cur) && (#[trigger] ids[k as usize])@ == r,
{
    lemma_resolve_cases(pid, cur, ts, ids, 0);
}


/// What a sync asks for one buffer task `t` (at index `j`).
///
/// A new task with a project is created as written; one without is skipped with a warning.
/// A task whose id the snapshot does not know is completed when checked and skipped with a
/// warning otherwise. A known task checked since the snapshot is completed, one unchecked
/// since reopened; otherwise it is updated to the buffer's content and due date when either
/// differs from the snapshot, and then moved to the buffer's project, section and parent
/// when one of them differs (and the buffer gives a project).
pub proof fn law_ops_for_a_task(t: BufferTaskV, j: usize, snap: Seq<(Seq<char>, SnapshotTaskV)>)
    ensures
        t.id is None && t.project_id is None ==> task_ops(t, j, snap).len() == 0
            && task_warning(t, snap) is Some,
        t.id is None && t.project_id is Some ==> task_ops(t, j, snap) == seq![
            (
                j,
                SyncOpV::Create {
                    content: t.content,
                    project_id: t.project_id.unwrap(),
                    section_id: t.section_id,
                    parent_id: t.parent_id,
                    due: t.due,
                },
            ),
        ] && task_warning(t, snap) is None,
        t.id is Some && lookup(snap, t.id.unwrap()) is None ==> task_ops(t, j, snap) == if t.checked {
            seq![(j, SyncOpV::Complete { id: t.id.unwrap(), content: t.content })]
        } else {
            Seq::empty()
        } && (task_warning(t, snap) is Some <==> !t.checked),
        t.id is Some && lookup(snap, t.id.unwrap()) is Some ==> {
            let id = t.id.unwrap();
            let s = lookup(snap, id).unwrap();
            &&& task_warning(t, snap) is None
            &&& !s.checked && t.checked ==> task_ops(t, j, snap) == seq![
                (j, SyncOpV::Complete { id: id, content: t.content }),
            ]
            &&& s.checked && !t.checked ==> task_ops(t, j, snap) == seq![
                (j, SyncOpV::Reopen { id: id, content: t.content }),
            ]
            &&& s.checked == t.checked ==> task_ops(t, j, snap) == (if t.content != s.content || t.due
                != s.due {
                seq![
                    (
                        j,
                        SyncOpV::Update {
                            id: id,
                            old_content: s.content,
                            new_content: t.content,
                            old_due: s.due,
                            new_due: t.due,
                        },
                    ),
                ]
            } else {
                Seq::empty()
            }) + (if t.project_id is Some && (t.project_id != Some(s.project_id) || t.section_id
                != s.section_id || t.parent_id != s.parent_id) {
                seq![
                    (
                        j,
                        SyncOpV::Move {
                            id: id,
                            content: t.content,
                            project_id: t.project_id.unwrap(),
                            section_id: t.section_id,
                            parent_id: t.parent_id,
                        },
                    ),
                ]
            } else {
                Seq::empty()
            })
        },
{
}


proof fn lemma_sibling_orders_has(
    ts: Seq<BufferTaskV>,
    snap: Seq<(Seq<char>, SnapshotTaskV)>,
    x: BufferTaskV,
    k: int,
    i: int,
)
    requires
        0 <= i < k <= ts.len(),
        known(ts[i], snap),
        siblings(ts[i], x),
    ensures
        sibling_orders(ts, snap, x, k).contains(
            (ts[i].id.unwrap(), lookup(snap, ts[i].id.unwrap()).unwrap().child_order),
        ),
    decreases k,
{
    let e = (ts[i].id.unwrap(), lookup(snap, ts[i].id.unwrap()).unwrap().child_order);
    let g = sibling_orders(ts, snap, x, k);
    let prev = sibling_orders(ts, snap, x, k - 1);
    if i < k - 1 {
        lemma_sibling_orders_has(ts, snap, x, k - 1, i);
        let p = choose|p: int| 0 <= p < prev.len() && prev[p] == e;
        assert(g[p] == prev[p]);
    } else {
        assert(g[prev.len() as int] == e);
    }
}

proof fn lemma_sibling_orders_unsorted(
    ts: Seq<BufferTaskV>,
    snap: Seq<(Seq<char>, SnapshotTaskV)>,
    x: BufferTaskV,
    k: int,
    i: int,
    i2: int,
)
    requires
        0 <= i < i2 < k <= ts.len(),
        known(ts[i], snap),
        known(ts[i2], snap),
        siblings(ts[i], x),
        siblings(ts[i2], x),
        lookup(snap, ts[i].id.unwrap()).unwrap().child_order > lookup(
            snap,
            ts[i2].id.unwrap(),
        ).unwrap().child_order,
    ensures
        out_of_order(sibling_orders(ts, snap, x, k)),
        sibling_orders(ts, snap, x, k).len() >= 2,
    decreases k,
{
    let g = sibling_orders(ts, snap, x, k);
    let prev = sibling_orders(ts, snap, x, k - 1);
    if i2 < k - 1 {
        lemma_sibling_orders_unsorted(ts, snap, x, k - 1, i, i2);
        let (a, b) = choose|a: int, b: int| 0 <= a < b < prev.len() && #[trigger] prev[a].1 > #[trigger] prev[b].1;
        assert(g[a] == prev[a] && g[b] == prev[b]);
    } else {
        lemma_sibling_orders_has(ts, snap, x, k - 1, i);
        let e = (ts[i].id.unwrap(), lookup(snap, ts[i].id.unwrap()).unwrap().child_order);
        let p = choose|p: int| 0 <= p < prev.len() && prev[p] == e;
        assert(g[p] == prev[p]);
        assert(g[prev.len() as int].1 == lookup(snap, ts[i2].id.unwrap()).unwrap().child_order);
        assert(g[p].1 > g[prev.len() as int].1);
    }
}

proof fn lemma_reorder_items_grow(ts: Seq<BufferTaskV>, snap: Seq<(Seq<char>, SnapshotTaskV)>, k: int, k2: int)
    requires
        0 <= k <= k2,
    ensures
        reorder_items(ts, snap, k).len() <= reorder_items(ts, snap, k2).len(),
    decreases k2 - k,
{
    if k < k2 {
        lemma_reorder_items_grow(ts, snap, k, k2 - 1);
    }
}

proof fn lemma_first_sibling(ts: Seq<BufferTaskV>, snap: Seq<(Seq<char>, SnapshotTaskV)>, x: BufferTaskV, m: int)
    requires
        0 <= m < ts.len(),
        exists|i: int| 0 <= i <= m && known(#[trigger] ts[i], snap) && siblings(ts[i], x),
    ensures
        exists|o: int|
            0 <= o <= m && known(#[trigger] ts[o], snap) && siblings(ts[o], x) && forall|k: int|
                0 <= k < o ==> !(known(#[trigger] ts[k], snap) && siblings(ts[k], x)),
    decreases m,
{
    if m > 0 && exists|i: int| 0 <= i <= m - 1 && known(#[trigger] ts[i], snap) && siblings(ts[i], x) {
        lemma_first_sibling(ts, snap, x, m - 1);
        let o = choose|o: int|
            0 <= o <= m - 1 && known(#[trigger] ts[o], snap) && siblings(ts[o], x) && forall|k: int|
                0 <= k < o ==> !(known(#[trigger] ts[k], snap) && siblings(ts[k], x));
        assert(0 <= o <= m);
    } else {
        assert forall|k: int| 0 <= k < m implies !(known(#[trigger] ts[k], snap) && siblings(ts[k], x)) by {
            if known(ts[k], snap) && siblings(ts[k], x) {
                assert(0 <= k <= m - 1);
            }
        }
        let i = choose|i: int| 0 <= i <= m && known(#[trigger] ts[i], snap) && siblings(ts[i], x);
        assert(i == m);
    }
}

/// When two tasks that the snapshot knows and that share project, section and parent come in
/// the buffer against the order of their snapshot `child_order`, a reorder is produced.
pub proof fn law_misordered_siblings_are_reordered(
    ts: Seq<BufferTaskV>,
    snap: Seq<(Seq<char>, SnapshotTaskV)>,
    a: int,
    b: int,
)
    requires
        0 <= a < b < ts.len(),
        ts[a].id is Some && ts[b].id is Some,
        lookup(snap, ts[a].id.unwrap()) is Some && lookup(snap, ts[b].id.unwrap()) is Some,
        ts[a].project_id == ts[b].project_id,
        ts[a].section_id == ts[b].section_id,
        ts[a].parent_id == ts[b].parent_id,
        lookup(snap, ts[a].id.unwrap()).unwrap().child_order > lookup(
            snap,
            ts[b].id.unwrap(),
        ).unwrap().child_order,
    ensures
        reorder_items(ts, snap, ts.len() as int).len() > 0,
{
    let x = ts[a];
    assert(known(ts[a], snap) && siblings(ts[a], x));
    lemma_first_sibling(ts, snap, x, a);
    let o = choose|o: int|
        0 <= o <= a && known(#[trigger] ts[o], snap) && siblings(ts[o], x) && forall|k: int|
            0 <= k < o ==> !(known(#[trigger] ts[k], snap) && siblings(ts[k], x));
    assert(opens_group(ts, snap, o)) by {
        assert forall|k: int| 0 <= k < o implies !(known(#[trigger] ts[k], snap) && siblings(ts[k], ts[o])) by {
            if known(ts[k], snap) && siblings(ts[k], ts[o]) {
                assert(siblings(ts[k], x));
            }
        }
    }
    lemma_sibling_orders_unsorted(ts, snap, ts[o], ts.len() as int, a, b);
    lemma_reorder_items_grow(ts, snap, o + 1, ts.len() as int);
}

} // verus!
