use vstd::prelude::*;

verus! {

/// Identifier of a top-level window, as the window system hands it out.
pub type Window = u32;

/// One tracked top-level window.
pub struct Task {
    pub wid: Window,
    pub title: String,
    /// The `(instance, class)` pair, the key of the icon cache.
    pub class: (String, String),
}

/// What a task is, mathematically.
pub ghost struct TaskView {
    pub wid: Window,
    pub title: Seq<char>,
    pub instance: Seq<char>,
    pub class: Seq<char>,
}

impl View for Task {
    type V = TaskView;

    open spec fn view(&self) -> TaskView {
        TaskView {
            wid: self.wid,
            title: self.title@,
            instance: self.class.0@,
            class: self.class.1@,
        }
    }
}

impl Task {
    pub fn new(wid: Window, title: String, class: (String, String)) -> (r: Task)
        ensures
            r.wid == wid,
            r.title@ == title@,
            r.class.0@ == class.0@,
            r.class.1@ == class.1@,
    {
        Task { wid, title, class }
    }
}

impl PartialEq for Task {
    /// Tasks are the same task when they track the same window.
    fn eq(&self, other: &Task) -> (r: bool) {
        self.wid == other.wid
    }
}

impl vstd::std_specs::cmp::PartialEqSpecImpl for Task {
    open spec fn obeys_eq_spec() -> bool {
        true
    }

    open spec fn eq_spec(&self, other: &Task) -> bool {
        self.wid == other.wid
    }
}

pub open spec fn views(ts: Seq<Task>) -> Seq<TaskView> {
    ts.map_values(|t: Task| t@)
}

/// Whether some task of `ts` tracks window `wid`.
pub open spec fn has_id(ts: Seq<TaskView>, wid: Window) -> bool {
    exists|i: int| 0 <= i < ts.len() && #[trigger] ts[i].wid == wid
}

/// Index of the task that tracks `wid` (meaningful when `has_id`).
pub open spec fn index_of_id(ts: Seq<TaskView>, wid: Window) -> int {
    choose|i: int| 0 <= i < ts.len() && #[trigger] ts[i].wid == wid
}

/// No window is tracked twice.
pub open spec fn unique_ids(ts: Seq<TaskView>) -> bool {
    forall|i: int, j: int| 0 <= i < ts.len() && 0 <= j < ts.len() && i != j ==> ts[i].wid != ts[j].wid
}

/// The set of tracked windows.
pub open spec fn id_set(ts: Seq<TaskView>) -> Set<Window> {
    Set::new(|wid: Window| has_id(ts, wid))
}

/// The tasks of `ts` whose window is still listed in `wids`, in their order.
pub open spec fn kept(ts: Seq<TaskView>, wids: Seq<Window>) -> Seq<TaskView> {
    ts.filter(|t: TaskView| wids.contains(t.wid))
}

/// `ts` with `t` appended, unless its window is already tracked.
pub open spec fn adopt(ts: Seq<TaskView>, t: TaskView) -> Seq<TaskView> {
    if has_id(ts, t.wid) {
        ts
    } else {
        ts.push(t)
    }
}

/// `ts` after tracking, in order, each task of `found` whose window is listed in `wids`.
pub open spec fn adopt_all(ts: Seq<TaskView>, wids: Seq<Window>, found: Seq<TaskView>) -> Seq<TaskView>
    decreases found.len(),
{
    if found.len() == 0 {
        ts
    } else {
        let prev = adopt_all(ts, wids, found.drop_last());
        if wids.contains(found.last().wid) {
            adopt(prev, found.last())
        } else {
            prev
        }
    }
}

/// A selection index brought back into a sequence of `len` tasks.
pub open spec fn clamped(sel: Option<int>, len: int) -> Option<int> {
    match sel {
        None => None,
        Some(s) => if len == 0 {
            None
        } else if s < len {
            Some(s)
        } else {
            Some(len - 1)
        },
    }
}

/// The registry after reconciling it with the listed windows `wids`, given the
/// tasks `found` that introspection produced.
pub open spec fn reconciled(r: RegistryView, wids: Seq<Window>, found: Seq<TaskView>) -> RegistryView {
    let k = kept(r.tasks, wids);
    RegistryView { tasks: adopt_all(k, wids, found), selected: clamped(r.selected, k.len() as int) }
}

/// The registry, mathematically: tasks oldest-focused first, and the selection.
pub ghost struct RegistryView {
    pub tasks: Seq<TaskView>,
    pub selected: Option<int>,
}

impl RegistryView {
    /// No duplicate windows, and the selection, if any, indexes a task.
    pub open spec fn valid(self) -> bool {
        &&& unique_ids(self.tasks)
        &&& match self.selected {
            None => true,
            Some(s) => 0 <= s < self.tasks.len(),
        }
    }

    /// The selection as an index counted from the newest task.
    pub open spec fn descending_selected(self) -> Option<int> {
        match self.selected {
            None => None,
            Some(s) => Some(self.tasks.len() - 1 - s),
        }
    }
}


/// The selection after a move towards newer tasks, wrapping round.
pub open spec fn newer_selection(r: RegistryView) -> Option<int> {
    let n = r.tasks.len() as int;
    if n == 0 {
        r.selected
    } else {
        match r.selected {
            Some(s) => Some((s + 1) % n),
            None => Some(n - 1),
        }
    }
}

/// The selection after a move towards older tasks, wrapping round.
pub open spec fn older_selection(r: RegistryView) -> Option<int> {
    let n = r.tasks.len() as int;
    if n == 0 {
        r.selected
    } else {
        match r.selected {
            Some(s) => if s == 0 {
                Some(n - 1)
            } else {
                Some(s - 1)
            },
            None => Some(n - 1),
        }
    }
}

/// `ts` with the task at `i` taken out and put back at the newest end.
pub open spec fn moved_to_end(ts: Seq<TaskView>, i: int) -> Seq<TaskView> {
    ts.remove(i).push(ts[i])
}

proof fn lemma_views_remove(ts: Seq<Task>, i: int)
    requires
        0 <= i < ts.len(),
    ensures
        views(ts.remove(i)) == views(ts).remove(i),
{
    assert(views(ts.remove(i)) =~= views(ts).remove(i));
}

proof fn lemma_unique_remove(ts: Seq<TaskView>, i: int)
    requires
        unique_ids(ts),
        0 <= i < ts.len(),
    ensures
        unique_ids(ts.remove(i)),
{
    let r = ts.remove(i);
    assert forall|a: int, b: int| 0 <= a < r.len() && 0 <= b < r.len() && a != b implies r[a].wid != r[b].wid by {
        let oa = if a < i { a } else { a + 1 };
        let ob = if b < i { b } else { b + 1 };
        assert(r[a] == ts[oa]);
        assert(r[b] == ts[ob]);
    }
}

proof fn lemma_unique_index(ts: Seq<TaskView>, i: int, j: int)
    requires
        unique_ids(ts),
        0 <= i < ts.len(),
        0 <= j < ts.len(),
        ts[i].wid == ts[j].wid,
    ensures
        i == j,
{
}

proof fn lemma_index_of_id(ts: Seq<TaskView>, i: int)
    requires
        unique_ids(ts),
        0 <= i < ts.len(),
    ensures
        has_id(ts, ts[i].wid),
        index_of_id(ts, ts[i].wid) == i,
{
    let j = index_of_id(ts, ts[i].wid);
    lemma_unique_index(ts, i, j);
}

proof fn lemma_unique_push(ts: Seq<TaskView>, t: TaskView)
    requires
        unique_ids(ts),
        !has_id(ts, t.wid),
    ensures
        unique_ids(ts.push(t)),
{
    let r = ts.push(t);
    assert forall|a: int, b: int| 0 <= a < r.len() && 0 <= b < r.len() && a != b implies r[a].wid != r[b].wid by {
        if a < ts.len() && b < ts.len() {
            assert(r[a] == ts[a] && r[b] == ts[b]);
        } else if a < ts.len() {
            assert(r[a] == ts[a]);
        } else {
            assert(r[b] == ts[b]);
        }
    }
}

/// The window list that the registry reconciles against may hold an id twice:
/// a lookup over it answers membership.
fn listed(wids: &Vec<Window>, wid: Window) -> (r: bool)
    ensures
        r == wids@.contains(wid),
{
    let mut i: usize = 0;
    while i < wids.len()
        invariant
            0 <= i <= wids.len(),
            forall|k: int| 0 <= k < i ==> wids@[k] != wid,
        decreases wids.len() - i,
    {
        if wids[i] == wid {
            return true;
        }
        i += 1;
    }
    false
}

/// The tracked windows and the selection cursor.
pub struct TaskList {
    tasks: Vec<Task>,
    selected: Option<usize>,
}

impl View for TaskList {
    type V = RegistryView;

    closed spec fn view(&self) -> RegistryView {
        RegistryView {
            tasks: views(self.tasks@),
            selected: match self.selected {
                None => None,
                Some(s) => Some(s as int),
            },
        }
    }
}


impl TaskList {
    pub fn new() -> (r: TaskList)
        ensures
            r@.tasks == Seq::<TaskView>::empty(),
            r@.selected is None,
            r@.valid(),
    {
        let r = TaskList { tasks: Vec::with_capacity(64), selected: None };
        assert(r@.tasks =~= Seq::<TaskView>::empty());
        r
    }

    /// The selected task, if any.
    pub fn selected(&self) -> (r: Option<&Task>)
        requires
            self@.valid(),
        ensures
            r is None <==> self@.selected is None,
            r matches Some(t) ==> t@ == self@.tasks[self@.selected->0],
    {
        match self.selected {
            Some(sel) => Some(&self.tasks[sel]),
            None => None,
        }
    }

    /// The task that tracks window `wid`, if any.
    pub fn get_task_by_id(&self, wid: Window) -> (r: Option<&Task>)
        requires
            self@.valid(),
        ensures
            r is Some <==> has_id(self@.tasks, wid),
            r matches Some(t) ==> t.wid == wid && t@ == self@.tasks[index_of_id(self@.tasks, wid)],
    {
        let mut i: usize = 0;
        while i < self.tasks.len()
            invariant
                self@.valid(),
                0 <= i <= self.tasks.len(),
                forall|k: int| 0 <= k < i ==> self@.tasks[k].wid != wid,
            decreases self.tasks.len() - i,
        {
            if self.tasks[i].wid == wid {
                proof {
                    lemma_index_of_id(self@.tasks, i as int);
                }
                return Some(&self.tasks[i]);
            }
            i += 1;
        }
        None
    }

    /// The tasks oldest first, with the selection indexed the same way.
    pub fn list_ascending(&self) -> (r: (&Vec<Task>, Option<usize>))
        ensures
            views(r.0@) == self@.tasks,
            r.1 is None <==> self@.selected is None,
            r.1 matches Some(s) ==> self@.selected == Some(s as int),
    {
        (&self.tasks, self.selected)
    }

    /// The tasks newest first, with the selection indexed the same way.
    pub fn list_descending(&self) -> (r: (Vec<&Task>, Option<usize>))
        requires
            self@.valid(),
        ensures
            r.0@.len() == self@.tasks.len(),
            forall|i: int| 0 <= i < r.0@.len() ==> r.0@[i]@ == self@.tasks[self@.tasks.len() - 1 - i],
            r.1 is None <==> self@.selected is None,
            r.1 matches Some(s) ==> self@.descending_selected() == Some(s as int),
    {
        let n = self.tasks.len();
        let mut out: Vec<&Task> = Vec::with_capacity(n);
        let mut i: usize = 0;
        while i < n
            invariant
                n == self.tasks.len(),
                0 <= i <= n,
                out@.len() == i,
                forall|k: int| 0 <= k < i ==> out@[k]@ == self@.tasks[n - 1 - k],
            decreases n - i,
        {
            out.push(&self.tasks[n - 1 - i]);
            i += 1;
        }
        let sel = match self.selected {
            Some(s) => Some(n - 1 - s),
            None => None,
        };
        (out, sel)
    }

    pub fn is_empty(&self) -> (r: bool)
        ensures
            r == (self@.tasks.len() == 0),
    {
        self.tasks.len() == 0
    }

    pub fn len(&self) -> (r: usize)
        ensures
            r == self@.tasks.len(),
    {
        self.tasks.len()
    }

    /// Whether window `wid` is tracked.
    pub fn contains(&self, wid: Window) -> (r: bool)
        ensures
            r == has_id(self@.tasks, wid),
    {
        let mut i: usize = 0;
        while i < self.tasks.len()
            invariant
                0 <= i <= self.tasks.len(),
                forall|k: int| 0 <= k < i ==> self@.tasks[k].wid != wid,
            decreases self.tasks.len() - i,
        {
            if self.tasks[i].wid == wid {
                assert(self@.tasks[i as int].wid == wid);
                return true;
            }
            i += 1;
        }
        false
    }

    /// Replaces the title of the task that tracks `wid`; nothing happens when
    /// no task does.
    pub fn update_title(&mut self, wid: Window, title: String)
        requires
            old(self)@.valid(),
        ensures
            final(self)@.valid(),
            final(self)@.selected == old(self)@.selected,
            !has_id(old(self)@.tasks, wid) ==> final(self)@.tasks == old(self)@.tasks,
            has_id(old(self)@.tasks, wid) ==> final(self)@.tasks == old(self)@.tasks.update(
                index_of_id(old(self)@.tasks, wid),
                TaskView { title: title@, ..old(self)@.tasks[index_of_id(old(self)@.tasks, wid)] },
            ),
    {
        let mut i: usize = 0;
        while i < self.tasks.len()
            invariant
                self@ == old(self)@,
                self@.valid(),
                0 <= i <= self.tasks.len(),
                forall|k: int| 0 <= k < i ==> self@.tasks[k].wid != wid,
            decreases self.tasks.len() - i,
        {
            if self.tasks[i].wid == wid {
                let ghost before = self@.tasks;
                proof {
                    lemma_index_of_id(before, i as int);
                }
                self.tasks[i].title = title;
                proof {
                    let want = before.update(i as int, TaskView { title: title@, ..before[i as int] });
                    assert(self@.tasks =~= want);
                    assert forall|a: int, b: int|
                        0 <= a < want.len() && 0 <= b < want.len() && a != b implies want[a].wid != want[b].wid by {
                        assert(want[a].wid == before[a].wid);
                        assert(want[b].wid == before[b].wid);
                        if before[a].wid == before[b].wid {
                            lemma_unique_index(before, a, b);
                        }
                    }
                }
                return;
            }
            i += 1;
        }
    }

    /// The listed windows that no task tracks yet, in the order of `wids`:
    /// those that introspection should be asked about.
    pub fn untracked(&self, wids: &Vec<Window>) -> (r: Vec<Window>)
        ensures
            r@ == wids@.filter(|w: Window| !has_id(self@.tasks, w)),
    {
        let mut out: Vec<Window> = Vec::new();
        let mut i: usize = 0;
        while i < wids.len()
            invariant
                0 <= i <= wids.len(),
                out@ == wids@.subrange(0, i as int).filter(|w: Window| !has_id(self@.tasks, w)),
            decreases wids.len() - i,
        {
            proof {
                assert(wids@.subrange(0, i + 1) =~= wids@.subrange(0, i as int).push(wids@[i as int]));
                wids@.subrange(0, i as int).lemma_filter_push(wids@[i as int], |w: Window| !has_id(self@.tasks, w));
            }
            if !self.contains(wids[i]) {
                out.push(wids[i]);
            }
            i += 1;
        }
        assert(wids@.subrange(0, wids@.len() as int) =~= wids@);
        out
    }

    /// Appends `task`, unless its window is tracked already.
    pub fn track(&mut self, task: Task)
        requires
            old(self)@.valid(),
        ensures
            final(self)@.valid(),
            final(self)@.tasks == adopt(old(self)@.tasks, task@),
            final(self)@.selected == old(self)@.selected,
    {
        if !self.contains(task.wid) {
            proof {
                lemma_unique_push(self@.tasks, task@);
            }
            self.tasks.push(task);
            assert(self@.tasks =~= old(self)@.tasks.push(task@));
        }
    }

    /// Drops the tasks whose window is not listed in `wids`; the selection is
    /// left as it was.
    fn retain_listed(&mut self, wids: &Vec<Window>)
        requires
            old(self)@.valid(),
        ensures
            unique_ids(final(self)@.tasks),
            final(self)@.tasks == kept(old(self)@.tasks, wids@),
            final(self)@.selected == old(self)@.selected,
    {
        let ghost before = old(self)@.tasks;
        let mut i: usize = 0;
        let ghost mut j: int = 0;
        while i < self.tasks.len()
            invariant
                0 <= i <= self.tasks.len(),
                0 <= j <= before.len(),
                self.tasks.len() - i == before.len() - j,
                self@.tasks.subrange(0, i as int) == kept(before.subrange(0, j), wids@),
                self@.tasks.subrange(i as int, self@.tasks.len() as int) == before.subrange(j, before.len() as int),
                unique_ids(self@.tasks),
                self.selected == old(self).selected,
            decreases self.tasks.len() - i,
        {
            let ghost cur = self@.tasks;
            let ghost raw = self.tasks@;
            proof {
                let tail = cur.subrange(i as int, cur.len() as int);
                assert forall|m: int| i < m < cur.len() implies #[trigger] cur[m] == before[m - i + j] by {
                    assert(tail[m - i] == cur[m]);
                }
                assert(cur[i as int] == before[j]) by {
                    assert(cur.subrange(i as int, cur.len() as int)[0] == cur[i as int]);
                }
                assert(before.subrange(0, j + 1) =~= before.subrange(0, j).push(before[j]));
                before.subrange(0, j).lemma_filter_push(before[j], |t: TaskView| wids@.contains(t.wid));
            }
            if listed(wids, self.tasks[i].wid) {
                i += 1;
                assert(self@.tasks.subrange(0, i as int) =~= cur.subrange(0, i - 1).push(cur[i - 1]));
                assert(self@.tasks.subrange(i as int, self@.tasks.len() as int) =~= before.subrange(j + 1, before.len() as int));
            } else {
                proof {
                    lemma_unique_remove(cur, i as int);
                }
                self.tasks.remove(i);
                proof {
                    lemma_views_remove(raw, i as int);
                    assert(self@.tasks =~= cur.remove(i as int));
                    assert(self@.tasks.subrange(0, i as int) =~= cur.subrange(0, i as int));
                    assert(self@.tasks.subrange(i as int, self@.tasks.len() as int) =~= before.subrange(j + 1, before.len() as int));
                }
            }
            proof {
                j = j + 1;
            }
        }
        assert(before.subrange(0, j) =~= before);
        assert(self@.tasks.subrange(0, i as int) =~= self@.tasks);
    }

    /// Brings the selection back into range after tasks were removed.
    fn clamp_selection(&mut self)
        requires
            unique_ids(old(self)@.tasks),
        ensures
            final(self)@.tasks == old(self)@.tasks,
            final(self)@.selected == clamped(old(self)@.selected, old(self)@.tasks.len() as int),
            final(self)@.valid(),
    {
        if let Some(sel) = self.selected {
            if self.tasks.len() == 0 {
                self.selected = None;
            } else if sel >= self.tasks.len() {
                self.selected = Some(self.tasks.len() - 1);
            }
        }
    }

    /// Stops tracking window `wid`, and brings the selection back into range.
    pub fn untrack(&mut self, wid: Window)
        requires
            old(self)@.valid(),
        ensures
            final(self)@.valid(),
            !has_id(old(self)@.tasks, wid) ==> final(self)@.tasks == old(self)@.tasks,
            has_id(old(self)@.tasks, wid) ==> final(self)@.tasks == old(self)@.tasks.remove(
                index_of_id(old(self)@.tasks, wid),
            ),
            final(self)@.selected == clamped(old(self)@.selected, final(self)@.tasks.len() as int),
    {
        let mut i: usize = 0;
        while i < self.tasks.len()
            invariant
                self@ == old(self)@,
                self@.valid(),
                0 <= i <= self.tasks.len(),
                forall|k: int| 0 <= k < i ==> self@.tasks[k].wid != wid,
            decreases self.tasks.len() - i,
        {
            if self.tasks[i].wid == wid {
                let ghost raw = self.tasks@;
                proof {
                    lemma_index_of_id(self@.tasks, i as int);
                    lemma_unique_remove(self@.tasks, i as int);
                    lemma_views_remove(raw, i as int);
                }
                self.tasks.remove(i);
                self.clamp_selection();
                return;
            }
            i += 1;
        }
    }

    /// Reconciles the registry with `wids`, the windows that are listed now:
    /// the tasks whose window is gone are dropped, then each task of `found`
    /// (what introspection made of the windows that `untracked` named) is
    /// appended in order when its window is listed and not tracked yet.
    pub fn diff_update(&mut self, wids: &Vec<Window>, found: Vec<Task>)
        requires
            old(self)@.valid(),
        ensures
            final(self)@.valid(),
            final(self)@ == reconciled(old(self)@, wids@, views(found@)),
    {
        self.retain_listed(wids);
        self.clamp_selection();
        let ghost k = self@.tasks;
        let ghost sel = self@.selected;
        let ghost fv = views(found@);
        let mut found = found;
        let ghost mut i: int = 0;
        while found.len() > 0
            invariant
                0 <= i <= fv.len(),
                views(found@) == fv.subrange(i, fv.len() as int),
                self@.tasks == adopt_all(k, wids@, fv.subrange(0, i)),
                self@.selected == sel,
                self@.valid(),
            decreases found.len(),
        {
            let ghost raw = found@;
            let t = found.remove(0);
            proof {
                lemma_views_remove(raw, 0);
                assert(views(found@) =~= fv.subrange(i + 1, fv.len() as int));
                assert(views(raw)[0] == fv.subrange(i, fv.len() as int)[0]);
                assert(t@ == fv[i]);
                assert(fv.subrange(0, i + 1).drop_last() =~= fv.subrange(0, i));
            }
            if listed(wids, t.wid) {
                self.track(t);
            }
            proof {
                i = i + 1;
            }
        }
        assert(fv.subrange(0, i) =~= fv);
    }

    /// Moves the selection one step towards newer tasks, wrapping round; with
    /// nothing selected, selects the newest task.
    pub fn select_newer(&mut self)
        requires
            old(self)@.valid(),
        ensures
            final(self)@.valid(),
            final(self)@.tasks == old(self)@.tasks,
            final(self)@.selected == newer_selection(old(self)@),
    {
        let n = self.tasks.len();
        if n > 0 {
            match self.selected {
                Some(sel) => {
                    self.selected = Some((sel + 1) % n);
                },
                None => {
                    self.selected = Some(n - 1);
                },
            }
        }
    }

    /// Moves the selection one step towards older tasks, wrapping round; with
    /// nothing selected, selects the newest task.
    pub fn select_older(&mut self)
        requires
            old(self)@.valid(),
        ensures
            final(self)@.valid(),
            final(self)@.tasks == old(self)@.tasks,
            final(self)@.selected == older_selection(old(self)@),
    {
        let n = self.tasks.len();
        if n > 0 {
            match self.selected {
                Some(sel) => {
                    if sel == 0 {
                        self.selected = Some(n - 1);
                    } else {
                        self.selected = Some(sel - 1);
                    }
                },
                None => {
                    self.selected = Some(n - 1);
                },
            }
        }
    }

    /// Selects the newest task, when there is one.
    pub fn select_end(&mut self)
        requires
            old(self)@.valid(),
        ensures
            final(self)@.valid(),
            final(self)@.tasks == old(self)@.tasks,
            old(self)@.tasks.len() == 0 ==> final(self)@.selected == old(self)@.selected,
            old(self)@.tasks.len() > 0 ==> final(self)@.selected == Some(old(self)@.tasks.len() - 1),
    {
        if self.tasks.len() > 0 {
            self.selected = Some(self.tasks.len() - 1);
        }
    }

    /// Makes the task at `idx` the newest and selects it; nothing happens when
    /// `idx` is out of range.
    pub fn focus_by_index(&mut self, idx: usize)
        requires
            old(self)@.valid(),
        ensures
            final(self)@.valid(),
            idx >= old(self)@.tasks.len() ==> final(self)@ == old(self)@,
            idx < old(self)@.tasks.len() ==> final(self)@.tasks == moved_to_end(old(self)@.tasks, idx as int)
                && final(self)@.selected == Some(old(self)@.tasks.len() - 1),
    {
        if idx < self.tasks.len() {
            let ghost before = self@.tasks;
            let ghost raw = self.tasks@;
            proof {
                lemma_unique_remove(before, idx as int);
                lemma_views_remove(raw, idx as int);
                let r = before.remove(idx as int);
                if has_id(r, before[idx as int].wid) {
                    let k = choose|k: int| 0 <= k < r.len() && #[trigger] r[k].wid == before[idx as int].wid;
                    let ok = if k < idx { k } else { k + 1 };
                    assert(r[k] == before[ok]);
                    lemma_unique_index(before, ok, idx as int);
                }
                lemma_unique_push(r, before[idx as int]);
            }
            let task = self.tasks.remove(idx);
            self.tasks.push(task);
            assert(self@.tasks =~= moved_to_end(before, idx as int));
            self.select_end();
        }
    }

    /// Makes the selected task the newest, keeping it selected.
    pub fn focus_by_selection(&mut self)
        requires
            old(self)@.valid(),
        ensures
            final(self)@.valid(),
            old(self)@.selected is None ==> final(self)@ == old(self)@,
            old(self)@.selected matches Some(s) ==> final(self)@.tasks == moved_to_end(old(self)@.tasks, s)
                && final(self)@.selected == Some(old(self)@.tasks.len() - 1),
    {
        if let Some(sel) = self.selected {
            self.focus_by_index(sel);
        }
    }

    /// Makes the task that tracks `wid` the newest and selects it; nothing
    /// happens when no task does.
    pub fn focus_by_wid(&mut self, wid: Window)
        requires
            old(self)@.valid(),
        ensures
            final(self)@.valid(),
            !has_id(old(self)@.tasks, wid) ==> final(self)@ == old(self)@,
            has_id(old(self)@.tasks, wid) ==> final(self)@.tasks == moved_to_end(
                old(self)@.tasks,
                index_of_id(old(self)@.tasks, wid),
            ) && final(self)@.selected == Some(old(self)@.tasks.len() - 1),
    {
        let mut i: usize = 0;
        while i < self.tasks.len()
            invariant
                self@ == old(self)@,
                self@.valid(),
                0 <= i <= self.tasks.len(),
                forall|k: int| 0 <= k < i ==> self@.tasks[k].wid != wid,
            decreases self.tasks.len() - i,
        {
            if self.tasks[i].wid == wid {
                proof {
                    lemma_index_of_id(self@.tasks, i as int);
                }
                self.focus_by_index(i);
                return;
            }
            i += 1;
        }
    }

    /// Clears the selection.
    pub fn unfocus(&mut self)
        ensures
            final(self)@.tasks == old(self)@.tasks,
            final(self)@.selected is None,
    {
        self.selected = None;
    }
}


proof fn lemma_filter_all(s: Seq<TaskView>, wids: Seq<Window>)
    requires
        forall|i: int| 0 <= i < s.len() ==> wids.contains(#[trigger] s[i].wid),
    ensures
        kept(s, wids) == s,
    decreases s.len(),
{
    reveal(Seq::filter);
    if s.len() > 0 {
        lemma_filter_all(s.drop_last(), wids);
        assert(s.drop_last().push(s.last()) =~= s);
    }
}

proof fn lemma_kept_listed(s: Seq<TaskView>, wids: Seq<Window>)
    ensures
        forall|i: int| 0 <= i < kept(s, wids).len() ==> wids.contains(#[trigger] kept(s, wids)[i].wid),
{
    assert forall|i: int| 0 <= i < kept(s, wids).len() implies wids.contains(#[trigger] kept(s, wids)[i].wid) by {
        s.lemma_filter_pred(|t: TaskView| wids.contains(t.wid), i);
    }
}

proof fn lemma_kept_unique(s: Seq<TaskView>, wids: Seq<Window>)
    requires
        unique_ids(s),
    ensures
        unique_ids(kept(s, wids)),
        forall|wid: Window| has_id(kept(s, wids), wid) ==> has_id(s, wid),
    decreases s.len(),
{
    reveal(Seq::filter);
    if s.len() > 0 {
        let d = s.drop_last();
        assert(unique_ids(d)) by {
            assert forall|a: int, b: int| 0 <= a < d.len() && 0 <= b < d.len() && a != b implies d[a].wid != d[b].wid by {
                assert(d[a] == s[a] && d[b] == s[b]);
            }
        }
        lemma_kept_unique(d, wids);
        let kd = kept(d, wids);
        if wids.contains(s.last().wid) {
            assert(kept(s, wids) == kd.push(s.last()));
            if has_id(kd, s.last().wid) {
                let k = choose|k: int| 0 <= k < kd.len() && #[trigger] kd[k].wid == s.last().wid;
                assert(has_id(d, s.last().wid));
                let m = choose|m: int| 0 <= m < d.len() && #[trigger] d[m].wid == s.last().wid;
                assert(d[m] == s[m]);
                lemma_unique_index(s, m, s.len() - 1);
            }
            lemma_unique_push(kd, s.last());
            assert forall|wid: Window| has_id(kept(s, wids), wid) implies has_id(s, wid) by {
                let k = choose|k: int| 0 <= k < kept(s, wids).len() && #[trigger] kept(s, wids)[k].wid == wid;
                if k < kd.len() {
                    assert(kept(s, wids)[k] == kd[k]);
                    assert(has_id(d, wid));
                    let m = choose|m: int| 0 <= m < d.len() && #[trigger] d[m].wid == wid;
                    assert(d[m] == s[m]);
                } else {
                    assert(s[s.len() - 1].wid == wid);
                }
            }
        } else {
            assert(kept(s, wids) == kd);
            assert forall|wid: Window| has_id(kept(s, wids), wid) implies has_id(s, wid) by {
                assert(has_id(d, wid));
                let m = choose|m: int| 0 <= m < d.len() && #[trigger] d[m].wid == wid;
                assert(d[m] == s[m]);
            }
        }
    }
}

proof fn lemma_adopt_all_facts(ts: Seq<TaskView>, wids: Seq<Window>, found: Seq<TaskView>)
    ensures
        adopt_all(ts, wids, found).len() >= ts.len(),
        forall|wid: Window| has_id(ts, wid) ==> has_id(adopt_all(ts, wids, found), wid),
        forall|m: int| 0 <= m < found.len() && wids.contains(#[trigger] found[m].wid)
            ==> has_id(adopt_all(ts, wids, found), found[m].wid),
        unique_ids(ts) ==> unique_ids(adopt_all(ts, wids, found)),
        (forall|i: int| 0 <= i < ts.len() ==> wids.contains(#[trigger] ts[i].wid)) ==> (forall|i: int|
            0 <= i < adopt_all(ts, wids, found).len() ==> wids.contains(#[trigger] adopt_all(ts, wids, found)[i].wid)),
    decreases found.len(),
{
    if found.len() > 0 {
        let f = found.drop_last();
        let prev = adopt_all(ts, wids, f);
        lemma_adopt_all_facts(ts, wids, f);
        let last = found.last();
        let cur = adopt_all(ts, wids, found);
        if wids.contains(last.wid) && !has_id(prev, last.wid) {
            assert(cur == prev.push(last));
            assert forall|wid: Window| has_id(prev, wid) implies has_id(cur, wid) by {
                let k = choose|k: int| 0 <= k < prev.len() && #[trigger] prev[k].wid == wid;
                assert(cur[k] == prev[k]);
            }
            assert(cur[prev.len() as int] == last);
            assert forall|m: int| 0 <= m < found.len() && wids.contains(#[trigger] found[m].wid) implies has_id(cur, found[m].wid) by {
                if m < f.len() {
                    assert(found[m] == f[m]);
                }
            }
            if unique_ids(ts) {
                lemma_unique_push(prev, last);
            }
        } else {
            assert(cur == prev);
            assert forall|m: int| 0 <= m < found.len() && wids.contains(#[trigger] found[m].wid) implies has_id(cur, found[m].wid) by {
                if m < f.len() {
                    assert(found[m] == f[m]);
                }
            }
        }
    }
}

proof fn lemma_adopt_all_known(ts: Seq<TaskView>, wids: Seq<Window>, found: Seq<TaskView>)
    requires
        forall|m: int| 0 <= m < found.len() && wids.contains(#[trigger] found[m].wid) ==> has_id(ts, found[m].wid),
    ensures
        adopt_all(ts, wids, found) == ts,
    decreases found.len(),
{
    if found.len() > 0 {
        let f = found.drop_last();
        assert forall|m: int| 0 <= m < f.len() && wids.contains(#[trigger] f[m].wid) implies has_id(ts, f[m].wid) by {
            assert(f[m] == found[m]);
        }
        lemma_adopt_all_known(ts, wids, f);
        if wids.contains(found.last().wid) {
            assert(found.last() == found[found.len() - 1]);
        }
    }
}

/// Reconciling keeps the registry valid: no window is tracked twice and the
/// selection, if any, indexes a task.
pub proof fn law_reconcile_keeps_valid(r: RegistryView, wids: Seq<Window>, found: Seq<TaskView>)
    requires
        r.valid(),
    ensures
        reconciled(r, wids, found).valid(),
{
    let k = kept(r.tasks, wids);
    lemma_kept_unique(r.tasks, wids);
    lemma_adopt_all_facts(k, wids, found);
}

/// Reconciling is idempotent: a second reconciliation with the same listed
/// windows and the same introspection results changes nothing.
pub proof fn law_reconcile_idempotent(r: RegistryView, wids: Seq<Window>, found: Seq<TaskView>)
    requires
        r.valid(),
    ensures
        reconciled(reconciled(r, wids, found), wids, found) == reconciled(r, wids, found),
{
    let once = reconciled(r, wids, found);
    let k = kept(r.tasks, wids);
    lemma_kept_listed(r.tasks, wids);
    lemma_adopt_all_facts(k, wids, found);
    lemma_filter_all(once.tasks, wids);
    lemma_adopt_all_known(once.tasks, wids, found);
}

/// Moving the selection towards older tasks and then back towards newer ones
/// (or the other way round) returns to the task first selected.
pub proof fn law_select_inverse(r: RegistryView)
    requires
        r.valid(),
        r.selected is Some,
    ensures
        newer_selection(RegistryView { selected: older_selection(r), ..r }) == r.selected,
        older_selection(RegistryView { selected: newer_selection(r), ..r }) == r.selected,
{
    let n = r.tasks.len() as int;
    let s = r.selected->0;
    vstd::arithmetic::div_mod::lemma_small_mod((n - 1) as nat, n as nat);
    if s == 0 {
        vstd::arithmetic::div_mod::lemma_mod_self_0(n);
    } else {
        vstd::arithmetic::div_mod::lemma_small_mod(s as nat, n as nat);
    }
    if s + 1 < n {
        vstd::arithmetic::div_mod::lemma_small_mod((s + 1) as nat, n as nat);
    } else {
        vstd::arithmetic::div_mod::lemma_mod_self_0(n);
    }
}

proof fn lemma_move_to_end_multiset<A>(s: Seq<A>, i: int)
    requires
        0 <= i < s.len(),
    ensures
        s.remove(i).push(s[i]).to_multiset() == s.to_multiset(),
{
    broadcast use vstd::multiset::group_multiset_axioms;
    vstd::seq_lib::to_multiset_remove(s, i);
    vstd::seq_lib::to_multiset_build(s.remove(i), s[i]);
    vstd::seq_lib::to_multiset_contains(s, s[i]);
    assert(s.to_multiset().contains(s[i]));
    assert(s.to_multiset().remove(s[i]).insert(s[i]) =~= s.to_multiset());
}

/// Committing the selection moves exactly the selected task to the newest
/// end: the others keep their order, the set of windows is unchanged, and
/// every task, with its title and class, occurs as often as before.
pub proof fn law_commit_moves_selected(r: RegistryView)
    requires
        r.valid(),
        r.selected is Some,
    ensures
        ({
            let s = r.selected->0;
            let t = moved_to_end(r.tasks, s);
            &&& t.len() == r.tasks.len()
            &&& t.last() == r.tasks[s]
            &&& t.drop_last() == r.tasks.remove(s)
            &&& id_set(t) == id_set(r.tasks)
            &&& t.to_multiset() == r.tasks.to_multiset()
            &&& t.map_values(|v: TaskView| v.wid).to_multiset() == r.tasks.map_values(|v: TaskView| v.wid).to_multiset()
        }),
{
    let s = r.selected->0;
    let t = moved_to_end(r.tasks, s);
    lemma_move_to_end_multiset(r.tasks, s);
    let ids = r.tasks.map_values(|v: TaskView| v.wid);
    assert(t.map_values(|v: TaskView| v.wid) =~= ids.remove(s).push(ids[s]));
    lemma_move_to_end_multiset(ids, s);
    assert(t.drop_last() =~= r.tasks.remove(s));
    assert forall|wid: Window| has_id(t, wid) <==> has_id(r.tasks, wid) by {
        if has_id(t, wid) {
            let k = choose|k: int| 0 <= k < t.len() && #[trigger] t[k].wid == wid;
            if k == t.len() - 1 {
                assert(r.tasks[s].wid == wid);
            } else if k < s {
                assert(r.tasks[k].wid == wid);
            } else {
                assert(r.tasks[k + 1].wid == wid);
            }
        }
        if has_id(r.tasks, wid) {
            let k = choose|k: int| 0 <= k < r.tasks.len() && #[trigger] r.tasks[k].wid == wid;
            if k == s {
                assert(t[t.len() - 1].wid == wid);
            } else if k < s {
                assert(t[k].wid == wid);
            } else {
                assert(t[k - 1].wid == wid);
            }
        }
    }
    assert(id_set(t) =~= id_set(r.tasks));
}

} // verus!
