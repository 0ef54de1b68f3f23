//! The data the plugin moves around: Todoist API records, the snapshot taken at
//! fetch time, the tasks read back from the buffer, and the operations a sync performs.
use crate::text::{dec, push_usize};
use vstd::prelude::*;
use vstd::string::*;

verus! {

/// The character view of an optional string.
pub open spec fn ov(o: Option<String>) -> Option<Seq<char>> {
    match o {
        Some(s) => Some(s@),
        None => None,
    }
}

/// The character views of a sequence of strings.
pub open spec fn strs(v: Seq<String>) -> Seq<Seq<char>> {
    v.map_values(|s: String| s@)
}

/// `None` and `Some("")` both mean "absent".
pub open spec fn nonempty_key(o: Option<Seq<char>>) -> Option<Seq<char>> {
    match o {
        Some(s) => if s.len() == 0 {
            None
        } else {
            Some(s)
        },
        None => None,
    }
}

pub fn clone_opt(o: &Option<String>) -> (r: Option<String>)
    ensures
        ov(r) == ov(*o),
{
    match o {
        Some(s) => Some(s.clone()),
        None => None,
    }
}

pub fn opt_eq(a: &Option<String>, b: &Option<String>) -> (r: bool)
    ensures
        r == (ov(*a) == ov(*b)),
{
    match (a, b) {
        (Some(x), Some(y)) => (*x).eq(y),
        (None, None) => true,
        _ => false,
    }
}

/// One page of a cursor-paginated list response.
pub struct Page<T> {
    pub results: Vec<T>,
    pub next_cursor: Option<String>,
}

/// A Todoist project.
pub struct Project {
    pub id: String,
    pub name: String,
    pub child_order: i64,
    pub inbox_project: bool,
}

/// A section inside a project.
pub struct Section {
    pub id: String,
    pub project_id: String,
    pub name: String,
    pub section_order: i64,
}

/// An active task as the API returns it.
pub struct Task {
    pub id: String,
    pub content: String,
    pub project_id: String,
    pub section_id: Option<String>,
    pub parent_id: Option<String>,
    pub child_order: i64,
}

impl Task {
    /// The section the task belongs to; an empty section id counts as none.
    pub fn section_key(&self) -> (r: Option<&str>)
        ensures
            match r {
                Some(s) => nonempty_key(ov(self.section_id)) == Some(s@),
                None => nonempty_key(ov(self.section_id)) is None,
            },
    {
        match &self.section_id {
            Some(s) => if s.as_str().is_empty() {
                None
            } else {
                Some(s.as_str())
            },
            None => None,
        }
    }

    /// The parent task; an empty parent id counts as none.
    pub fn parent_key(&self) -> (r: Option<&str>)
        ensures
            match r {
                Some(s) => nonempty_key(ov(self.parent_id)) == Some(s@),
                None => nonempty_key(ov(self.parent_id)) is None,
            },
    {
        match &self.parent_id {
            Some(s) => if s.as_str().is_empty() {
                None
            } else {
                Some(s.as_str())
            },
            None => None,
        }
    }
}

/// A task completed recently.
pub struct CompletedTask {
    pub id: String,
    pub content: String,
    pub project_id: String,
    pub completed_at: Option<String>,
}

/// The state of one task at the last fetch or sync.
pub struct SnapshotTask {
    pub id: String,
    pub content: String,
    pub project_id: String,
    pub section_id: Option<String>,
    pub parent_id: Option<String>,
    /// Whether the task showed `[x]` at snapshot time; lets a sync see `[x]` turn back into `[ ]`.
    pub checked: bool,
    pub child_order: i64,
    pub due: Option<String>,
}

pub struct SnapshotTaskV {
    pub id: Seq<char>,
    pub content: Seq<char>,
    pub project_id: Seq<char>,
    pub section_id: Option<Seq<char>>,
    pub parent_id: Option<Seq<char>>,
    pub checked: bool,
    pub child_order: i64,
    pub due: Option<Seq<char>>,
}

impl View for SnapshotTask {
    type V = SnapshotTaskV;

    open spec fn view(&self) -> SnapshotTaskV {
        SnapshotTaskV {
            id: self.id@,
            content: self.content@,
            project_id: self.project_id@,
            section_id: ov(self.section_id),
            parent_id: ov(self.parent_id),
            checked: self.checked,
            child_order: self.child_order,
            due: ov(self.due),
        }
    }
}

impl SnapshotTask {
    pub fn clone_task(&self) -> (r: SnapshotTask)
        ensures
            r@ == self@,
    {
        SnapshotTask {
            id: self.id.clone(),
            content: self.content.clone(),
            project_id: self.project_id.clone(),
            section_id: clone_opt(&self.section_id),
            parent_id: clone_opt(&self.parent_id),
            checked: self.checked,
            child_order: self.child_order,
            due: clone_opt(&self.due),
        }
    }
}

/// The character view of a list of keyed snapshot entries.
pub open spec fn entries_view(e: Seq<(String, SnapshotTask)>) -> Seq<(Seq<char>, SnapshotTaskV)> {
    e.map_values(|p: (String, SnapshotTask)| (p.0@, p.1@))
}

/// No key occurs twice.
pub open spec fn keys_unique(e: Seq<(Seq<char>, SnapshotTaskV)>) -> bool {
    forall|i: int, j: int| 0 <= i < j < e.len() ==> #[trigger] e[i].0 != #[trigger] e[j].0
}

/// The entry stored under `k`.
pub open spec fn lookup(e: Seq<(Seq<char>, SnapshotTaskV)>, k: Seq<char>) -> Option<SnapshotTaskV>
    decreases e.len(),
{
    if e.len() == 0 {
        None
    } else if e[0].0 == k {
        Some(e[0].1)
    } else {
        lookup(e.drop_first(), k)
    }
}

pub open spec fn has_key(e: Seq<(Seq<char>, SnapshotTaskV)>, k: Seq<char>) -> bool {
    exists|i: int| 0 <= i < e.len() && #[trigger] e[i].0 == k
}

pub proof fn lemma_lookup(e: Seq<(Seq<char>, SnapshotTaskV)>, k: Seq<char>)
    requires
        keys_unique(e),
    ensures
        lookup(e, k) is None <==> !has_key(e, k),
        forall|i: int| 0 <= i < e.len() && #[trigger] e[i].0 == k ==> lookup(e, k) == Some(e[i].1),
    decreases e.len(),
{
    if e.len() > 0 {
        let t = e.drop_first();
        assert(keys_unique(t)) by {
            assert forall|i: int, j: int| 0 <= i < j < t.len() implies #[trigger] t[i].0 != #[trigger] t[j].0 by {
                assert(t[i] == e[i + 1] && t[j] == e[j + 1]);
            }
        }
        lemma_lookup(t, k);
        if has_key(t, k) {
            let i = choose|i: int| 0 <= i < t.len() && #[trigger] t[i].0 == k;
            assert(e[i + 1].0 == k);
        }
        if has_key(e, k) && e[0].0 != k {
            let i = choose|i: int| 0 <= i < e.len() && #[trigger] e[i].0 == k;
            assert(t[i - 1].0 == k);
        }
        assert forall|i: int| 0 <= i < e.len() && #[trigger] e[i].0 == k implies lookup(e, k) == Some(e[i].1) by {
            if i > 0 {
                assert(t[i - 1] == e[i]);
            }
        }
    }
}

/// A map from task id to its snapshot, with no key twice; entries keep insertion order.
pub struct TaskMap {
    entries: Vec<(String, SnapshotTask)>,
}

impl View for TaskMap {
    type V = Seq<(Seq<char>, SnapshotTaskV)>;

    closed spec fn view(&self) -> Seq<(Seq<char>, SnapshotTaskV)> {
        entries_view(self.entries@)
    }
}

impl TaskMap {
    #[verifier::type_invariant]
    closed spec fn inv(self) -> bool {
        keys_unique(entries_view(self.entries@))
    }

    pub fn new() -> (m: TaskMap)
        ensures
            m@ == Seq::<(Seq<char>, SnapshotTaskV)>::empty(),
    {
        let m = TaskMap { entries: Vec::new() };
        assert(m@ =~= Seq::<(Seq<char>, SnapshotTaskV)>::empty());
        m
    }

    pub fn len(&self) -> (n: usize)
        ensures
            n == self@.len(),
            keys_unique(self@),
    {
        proof {
            use_type_invariant(self);
        }
        self.entries.len()
    }

    /// The key and task at position `i`.
    pub fn entry(&self, i: usize) -> (r: (&String, &SnapshotTask))
        requires
            i < self@.len(),
        ensures
            r.0@ == self@[i as int].0,
            r.1@ == self@[i as int].1,
            keys_unique(self@),
    {
        proof {
            use_type_invariant(self);
        }
        let e = &self.entries[i];
        (&e.0, &e.1)
    }

    /// Position of the entry stored under `key`.
    pub fn position(&self, key: &str) -> (r: Option<usize>)
        ensures
            match r {
                Some(i) => i < self@.len() && self@[i as int].0 == key@,
                None => !has_key(self@, key@),
            },
            keys_unique(self@),
    {
        proof {
            use_type_invariant(self);
        }
        let k = String::from_str(key);
        let mut i: usize = 0;
        while i < self.entries.len()
            invariant
                k@ == key@,
                keys_unique(self@),
                i <= self.entries@.len(),
                forall|j: int| 0 <= j < i ==> #[trigger] self@[j].0 != key@,
            decreases self.entries@.len() - i,
        {
            if self.entries[i].0 == k {
                return Some(i);
            }
            i = i + 1;
        }
        None
    }

    pub fn contains_key(&self, key: &str) -> (r: bool)
        ensures
            r == has_key(self@, key@),
            keys_unique(self@),
    {
        self.position(key).is_some()
    }

    pub fn get(&self, key: &str) -> (r: Option<&SnapshotTask>)
        ensures
            match r {
                Some(t) => lookup(self@, key@) == Some(t@),
                None => lookup(self@, key@) is None,
            },
            keys_unique(self@),
    {
        proof {
            use_type_invariant(self);
            lemma_lookup(self@, key@);
        }
        match self.position(key) {
            Some(i) => Some(&self.entries[i].1),
            None => None,
        }
    }

    /// Stores `value` under `key`, replacing what was there (in place) or appending.
    pub fn insert(&mut self, key: String, value: SnapshotTask)
        ensures
            ({
                let o = old(self)@;
                let n = final(self)@;
                if has_key(o, key@) {
                    exists|i: int|
                        0 <= i < o.len() && #[trigger] o[i].0 == key@ && n == o.update(
                            i,
                            (key@, value@),
                        )
                } else {
                    n == o.push((key@, value@))
                }
            }),
            forall|q: Seq<char>|
                #![trigger lookup(final(self)@, q)]
                lookup(final(self)@, q) == if q == key@ {
                    Some(value@)
                } else {
                    lookup(old(self)@, q)
                },
            keys_unique(final(self)@),
    {
        proof {
            use_type_invariant(&*self);
        }
        let pos = self.position(key.as_str());
        let mut e: Vec<(String, SnapshotTask)> = Vec::new();
        std::mem::swap(&mut e, &mut self.entries);
        let ghost before = e@;
        match pos {
            Some(i) => {
                e.set(i, (key, value));
                assert(entries_view(e@) =~= entries_view(before).update(i as int, (key@, value@)));
            },
            None => {
                e.push((key, value));
                assert(entries_view(e@) =~= entries_view(before).push((key@, value@)));
            },
        }
        self.entries = e;
        proof {
            let o = entries_view(before);
            let n = entries_view(self.entries@);
            assert forall|q: Seq<char>|
                #![trigger lookup(n, q)]
                lookup(n, q) == if q == key@ {
                    Some(value@)
                } else {
                    lookup(o, q)
                } by {
                lemma_lookup(o, q);
                lemma_lookup(n, q);
                match pos {
                    Some(i) => {
                        assert(n[i as int].0 == key@);
                        if q != key@ {
                            if has_key(o, q) {
                                let y = choose|y: int| 0 <= y < o.len() && #[trigger] o[y].0 == q;
                                assert(n[y].0 == q);
                            } else if has_key(n, q) {
                                let y = choose|y: int| 0 <= y < n.len() && #[trigger] n[y].0 == q;
                                assert(o[y].0 == q);
                            }
                        }
                    },
                    None => {
                        assert(n[o.len() as int].0 == key@);
                        if q != key@ {
                            if has_key(o, q) {
                                let y = choose|y: int| 0 <= y < o.len() && #[trigger] o[y].0 == q;
                                assert(n[y].0 == q);
                            } else if has_key(n, q) {
                                let y = choose|y: int| 0 <= y < n.len() && #[trigger] n[y].0 == q;
                                assert(o[y].0 == q);
                            }
                        }
                    },
                }
            }
        }
    }

    /// Removes the entry stored under `key`.
    pub fn remove(&mut self, key: &str)
        ensures
            ({
                let o = old(self)@;
                let n = final(self)@;
                if has_key(o, key@) {
                    exists|i: int|
                        0 <= i < o.len() && #[trigger] o[i].0 == key@ && n == o.remove(i)
                } else {
                    n == o
                }
            }),
            forall|q: Seq<char>|
                #![trigger lookup(final(self)@, q)]
                lookup(final(self)@, q) == if q == key@ {
                    None
                } else {
                    lookup(old(self)@, q)
                },
            keys_unique(final(self)@),
    {
        proof {
            use_type_invariant(&*self);
        }
        let pos = self.position(key);
        match pos {
            Some(i) => {
                let mut e: Vec<(String, SnapshotTask)> = Vec::new();
                std::mem::swap(&mut e, &mut self.entries);
                let ghost before = e@;
                let _ = e.remove(i);
                assert(entries_view(e@) =~= entries_view(before).remove(i as int));
                assert(keys_unique(entries_view(e@))) by {
                    let b = entries_view(before);
                    let a = entries_view(e@);
                    assert forall|x: int, y: int| 0 <= x < y < a.len() implies #[trigger] a[x].0
                        != #[trigger] a[y].0 by {
                        let bx = if x < i {
                            x
                        } else {
                            x + 1
                        };
                        let by_ = if y < i {
                            y
                        } else {
                            y + 1
                        };
                        assert(a[x] == b[bx] && a[y] == b[by_]);
                    }
                }
                self.entries = e;
                proof {
                    let o = entries_view(before);
                    let n = entries_view(self.entries@);
                    assert forall|q: Seq<char>|
                        #![trigger lookup(n, q)]
                        lookup(n, q) == if q == key@ {
                            None
                        } else {
                            lookup(o, q)
                        } by {
                        lemma_lookup(o, q);
                        lemma_lookup(n, q);
                        if has_key(n, q) {
                            let y = choose|y: int| 0 <= y < n.len() && #[trigger] n[y].0 == q;
                            if y < i {
                                assert(o[y].0 == q);
                            } else {
                                assert(o[y + 1].0 == q);
                            }
                        } else if q != key@ && has_key(o, q) {
                            let y = choose|y: int| 0 <= y < o.len() && #[trigger] o[y].0 == q;
                            if y < i {
                                assert(n[y].0 == q);
                            } else if y > i {
                                assert(n[y - 1].0 == q);
                            }
                        }
                    }
                }
            },
            None => {
                proof {
                    lemma_lookup(self@, key@);
                }
            },
        }
    }

    /// A map holding `pairs`, a later pair replacing an earlier one with the same key.
    pub fn from_entries(pairs: Vec<(String, SnapshotTask)>) -> (m: TaskMap)
        ensures
            forall|k: Seq<char>|
                #![trigger lookup(m@, k)]
                lookup(m@, k) == last_with_key(entries_view(pairs@), k),
    {
        let mut m = TaskMap::new();
        let mut rest = pairs;
        let ghost all = entries_view(rest@);
        let mut i: usize = 0;
        let n = rest.len();
        while i < n
            invariant
                n == all.len(),
                i <= n,
                entries_view(rest@) =~= all.skip(i as int),
                rest@.len() == n - i,
                forall|k: Seq<char>|
                    #![trigger lookup(m@, k)]
                    lookup(m@, k) == last_with_key(all.take(i as int), k),
            decreases n - i,
        {
            let ghost old_m = m@;
            let ghost before = rest@;
            let (k, v) = rest.remove(0);
            proof {
                assert(entries_view(before)[0] == all[i as int]);
                assert forall|j: int| 0 <= j < rest@.len() implies #[trigger] entries_view(rest@)[j]
                    == all.skip(i + 1)[j] by {
                    assert(rest@[j] == before[j + 1]);
                    assert(entries_view(before)[j + 1] == all.skip(i as int)[j + 1]);
                }
                assert(entries_view(rest@) =~= all.skip(i + 1));
                use_type_invariant(&m);
                lemma_lookup(old_m, k@);
            }
            m.insert(k, v);
            proof {
                use_type_invariant(&m);
                assert forall|q: Seq<char>|
                    #![trigger lookup(m@, q)]
                    lookup(m@, q) == last_with_key(all.take(i + 1), q) by {
                    lemma_lookup(m@, q);
                    lemma_lookup(old_m, q);
                    assert(all.take(i + 1).drop_last() =~= all.take(i as int));
                    if has_key(old_m, k@) {
                        let x = choose|x: int| 0 <= x < old_m.len() && #[trigger] old_m[x].0 == k@
                            && m@ == old_m.update(x, (k@, v@));
                        if q == k@ {
                            assert(m@[x].0 == q);
                        } else if has_key(old_m, q) {
                            let y = choose|y: int| 0 <= y < old_m.len() && #[trigger] old_m[y].0 == q;
                            assert(m@[y].0 == q);
                        } else if has_key(m@, q) {
                            let y = choose|y: int| 0 <= y < m@.len() && #[trigger] m@[y].0 == q;
                            assert(old_m[y].0 == q);
                        }
                    } else {
                        if q == k@ {
                            assert(m@[old_m.len() as int].0 == q);
                        } else if has_key(old_m, q) {
                            let y = choose|y: int| 0 <= y < old_m.len() && #[trigger] old_m[y].0 == q;
                            assert(m@[y].0 == q);
                        } else if has_key(m@, q) {
                            let y = choose|y: int| 0 <= y < m@.len() && #[trigger] m@[y].0 == q;
                            assert(old_m[y].0 == q);
                        }
                    }
                }
            }
            i = i + 1;
        }
        assert(all.take(n as int) =~= all);
        m
    }
}

/// The value of the last pair keyed `k`, as collecting pairs into a hash map keeps it.
pub open spec fn last_with_key(e: Seq<(Seq<char>, SnapshotTaskV)>, k: Seq<char>) -> Option<
    SnapshotTaskV,
>
    decreases e.len(),
{
    if e.len() == 0 {
        None
    } else if e.last().0 == k {
        Some(e.last().1)
    } else {
        last_with_key(e.drop_last(), k)
    }
}

/// The task state saved at fetch time, with the moment it was taken.
pub struct Snapshot {
    pub fetched_at: String,
    pub tasks: TaskMap,
}

/// Whole seconds since the Unix epoch by the system clock, if the clock is past the epoch.
///
/// Wraps `SystemTime::now` measured from `UNIX_EPOCH`; nothing is promised of the value.
#[verifier::external_body]
fn seconds_since_epoch() -> (r: Option<u64>) {
    std::time::SystemTime::now().duration_since(std::time::UNIX_EPOCH).ok().map(|d| d.as_secs())
}

impl Snapshot {
    /// A snapshot of `tasks` stamped with the current time.
    pub fn new(tasks: TaskMap) -> (s: Snapshot)
        ensures
            s.tasks@ == tasks@,
            s.fetched_at@.len() == 0 || exists|n: nat| s.fetched_at@ == crate::text::dec(n),
    {
        let now = seconds_since_epoch();
        Snapshot::stamped(tasks, now)
    }

    /// A snapshot of `tasks` stamped with `now` seconds since the epoch (`None`: empty stamp).
    pub fn stamped(tasks: TaskMap, now: Option<u64>) -> (s: Snapshot)
        ensures
            s.tasks@ == tasks@,
            s.fetched_at@ == match now {
                Some(n) => crate::text::dec(n as nat),
                None => Seq::<char>::empty(),
            },
    {
        let mut stamp = String::new();
        match now {
            Some(n) => crate::text::push_decimal(&mut stamp, n),
            None => {},
        }
        Snapshot { fetched_at: stamp, tasks }
    }
}

/// A task line read back from the buffer.
pub struct BufferTask {
    pub id: Option<String>,
    pub content: String,
    pub checked: bool,
    pub indent_level: usize,
    pub project_id: Option<String>,
    pub section_id: Option<String>,
    pub parent_id: Option<String>,
    pub line_num: usize,
    pub due: Option<String>,
}

pub struct BufferTaskV {
    pub id: Option<Seq<char>>,
    pub content: Seq<char>,
    pub checked: bool,
    pub indent_level: nat,
    pub project_id: Option<Seq<char>>,
    pub section_id: Option<Seq<char>>,
    pub parent_id: Option<Seq<char>>,
    pub line_num: nat,
    pub due: Option<Seq<char>>,
}

impl View for BufferTask {
    type V = BufferTaskV;

    open spec fn view(&self) -> BufferTaskV {
        BufferTaskV {
            id: ov(self.id),
            content: self.content@,
            checked: self.checked,
            indent_level: self.indent_level as nat,
            project_id: ov(self.project_id),
            section_id: ov(self.section_id),
            parent_id: ov(self.parent_id),
            line_num: self.line_num as nat,
            due: ov(self.due),
        }
    }
}

/// The views of a sequence of buffer tasks.
pub open spec fn btasks(v: Seq<BufferTask>) -> Seq<BufferTaskV> {
    v.map_values(|t: BufferTask| t@)
}

/// One change to send to Todoist.
pub enum SyncOp {
    Create {
        content: String,
        project_id: String,
        section_id: Option<String>,
        parent_id: Option<String>,
        due: Option<String>,
    },
    Update {
        id: String,
        old_content: String,
        new_content: String,
        old_due: Option<String>,
        new_due: Option<String>,
    },
    Complete { id: String, content: String },
    Reopen { id: String, content: String },
    Delete { id: String, content: String },
    Move {
        id: String,
        content: String,
        project_id: String,
        section_id: Option<String>,
        parent_id: Option<String>,
    },
    Reorder { items: Vec<(String, i64)> },
}

pub enum SyncOpV {
    Create {
        content: Seq<char>,
        project_id: Seq<char>,
        section_id: Option<Seq<char>>,
        parent_id: Option<Seq<char>>,
        due: Option<Seq<char>>,
    },
    Update {
        id: Seq<char>,
        old_content: Seq<char>,
        new_content: Seq<char>,
        old_due: Option<Seq<char>>,
        new_due: Option<Seq<char>>,
    },
    Complete { id: Seq<char>, content: Seq<char> },
    Reopen { id: Seq<char>, content: Seq<char> },
    Delete { id: Seq<char>, content: Seq<char> },
    Move {
        id: Seq<char>,
        content: Seq<char>,
        project_id: Seq<char>,
        section_id: Option<Seq<char>>,
        parent_id: Option<Seq<char>>,
    },
    Reorder { items: Seq<(Seq<char>, i64)> },
}

impl View for SyncOp {
    type V = SyncOpV;

    open spec fn view(&self) -> SyncOpV {
        match self {
            SyncOp::Create { content, project_id, section_id, parent_id, due } => SyncOpV::Create {
                content: content@,
                project_id: project_id@,
                section_id: ov(*section_id),
                parent_id: ov(*parent_id),
                due: ov(*due),
            },
            SyncOp::Update { id, old_content, new_content, old_due, new_due } => SyncOpV::Update {
                id: id@,
                old_content: old_content@,
                new_content: new_content@,
                old_due: ov(*old_due),
                new_due: ov(*new_due),
            },
            SyncOp::Complete { id, content } => SyncOpV::Complete { id: id@, content: content@ },
            SyncOp::Reopen { id, content } => SyncOpV::Reopen { id: id@, content: content@ },
            SyncOp::Delete { id, content } => SyncOpV::Delete { id: id@, content: content@ },
            SyncOp::Move { id, content, project_id, section_id, parent_id } => SyncOpV::Move {
                id: id@,
                content: content@,
                project_id: project_id@,
                section_id: ov(*section_id),
                parent_id: ov(*parent_id),
            },
            SyncOp::Reorder { items } => SyncOpV::Reorder {
                items: items@.map_values(|p: (String, i64)| (p.0@, p.1)),
            },
        }
    }
}

/// The views of a sequence of (buffer index, operation) pairs.
pub open spec fn ops_view(v: Seq<(usize, SyncOp)>) -> Seq<(usize, SyncOpV)> {
    v.map_values(|p: (usize, SyncOp)| (p.0, p.1@))
}

/// What a sync did, counted per kind, with its warnings and errors.
pub struct SyncSummary {
    pub created: usize,
    pub updated: usize,
    pub completed: usize,
    pub reopened: usize,
    pub deleted: usize,
    pub skipped: usize,
    pub moved: usize,
    pub reordered: usize,
    pub warnings: Vec<String>,
    pub errors: Vec<String>,
}

impl Default for SyncSummary {
    fn default() -> (s: SyncSummary)
        ensures
            s.created == 0 && s.updated == 0 && s.completed == 0 && s.reopened == 0 && s.deleted
                == 0 && s.skipped == 0 && s.moved == 0 && s.reordered == 0,
            s.warnings@.len() == 0 && s.errors@.len() == 0,
    {
        SyncSummary {
            created: 0,
            updated: 0,
            completed: 0,
            reopened: 0,
            deleted: 0,
            skipped: 0,
            moved: 0,
            reordered: 0,
            warnings: Vec::new(),
            errors: Vec::new(),
        }
    }
}

impl SyncSummary {
    /// The counted kinds that change tasks on the server.
    pub open spec fn change_count(&self) -> int {
        self.created + self.updated + self.completed + self.reopened + self.deleted
    }

    /// Whether anything was created, updated, completed, reopened or deleted.
    pub fn has_changes(&self) -> (r: bool)
        requires
            self.change_count() <= usize::MAX,
        ensures
            r == (self.change_count() > 0),
    {
        self.created + self.updated + self.completed + self.reopened + self.deleted > 0
    }
}


/// `{label}{n}` on a line of its own when `n` is not zero.
pub open spec fn count_line(label: Seq<char>, n: usize) -> Seq<char> {
    if n > 0 {
        label + dec(n as nat) + "\n"@
    } else {
        Seq::empty()
    }
}

/// One line `{prefix}{v[i]}` for each of the first `k` messages.
pub open spec fn prefixed_lines(prefix: Seq<char>, v: Seq<Seq<char>>, k: int) -> Seq<char>
    decreases k,
{
    if k <= 0 {
        Seq::empty()
    } else {
        prefixed_lines(prefix, v, k - 1) + prefix + v[k - 1] + "\n"@
    }
}

impl SyncSummary {
    /// What a sync reports: "No changes detected." when nothing changed and nothing went
    /// wrong; else "Sync complete:" with each non-zero count, then the warnings and errors.
    pub open spec fn report_spec(&self) -> Seq<char> {
        if !(self.change_count() > 0) && self.warnings@.len() == 0 && self.errors@.len() == 0 {
            "No changes detected.\n"@
        } else {
            "Sync complete:\n"@ + count_line("  Created:   "@, self.created) + count_line(
                "  Updated:   "@,
                self.updated,
            ) + count_line("  Completed: "@, self.completed) + count_line(
                "  Reopened:  "@,
                self.reopened,
            ) + count_line("  Deleted:   "@, self.deleted) + count_line(
                "  Skipped:   "@,
                self.skipped,
            ) + prefixed_lines("  WARNING: "@, strs(self.warnings@), self.warnings@.len() as int)
                + prefixed_lines("  ERROR: "@, strs(self.errors@), self.errors@.len() as int)
        }
    }

    /// The text of the sync report, as a sync prints it at the end.
    pub fn report(&self) -> (r: String)
        requires
            self.change_count() <= usize::MAX,
        ensures
            r@ == self.report_spec(),
    {
        if !self.has_changes() && self.warnings.len() == 0 && self.errors.len() == 0 {
            return String::from_str("No changes detected.\n");
        }
        let mut out = String::from_str("Sync complete:\n");
        push_count(&mut out, "  Created:   ", self.created);
        push_count(&mut out, "  Updated:   ", self.updated);
        push_count(&mut out, "  Completed: ", self.completed);
        push_count(&mut out, "  Reopened:  ", self.reopened);
        push_count(&mut out, "  Deleted:   ", self.deleted);
        push_count(&mut out, "  Skipped:   ", self.skipped);
        push_lines(&mut out, "  WARNING: ", &self.warnings);
        push_lines(&mut out, "  ERROR: ", &self.errors);
        assert(out@ =~= self.report_spec());
        out
    }
}

fn push_count(out: &mut String, label: &str, n: usize)
    ensures
        final(out)@ == old(out)@ + count_line(label@, n),
{
    if n > 0 {
        out.append(label);
        push_usize(out, n);
        out.append("\n");
    }
    assert(out@ =~= old(out)@ + count_line(label@, n));
}

fn push_lines(out: &mut String, prefix: &str, v: &Vec<String>)
    ensures
        final(out)@ == old(out)@ + prefixed_lines(prefix@, strs(v@), v@.len() as int),
{
    let mut i: usize = 0;
    while i < v.len()
        invariant
            i <= v@.len(),
            out@ =~= old(out)@ + prefixed_lines(prefix@, strs(v@), i as int),
        decreases v@.len() - i,
    {
        out.append(prefix);
        out.append(v[i].as_str());
        out.append("\n");
        assert(out@ =~= old(out)@ + prefixed_lines(prefix@, strs(v@), i + 1));
        i = i + 1;
    }
}

} // verus!
