use vstd::prelude::*;
use crate::frame::{Frame, FrameView};
use crate::tasks::{Task, TaskList, TaskView};

verus! {

/// The `(instance, class)` pair that icons are cached by.
pub type ClassKey = (Seq<char>, Seq<char>);

pub open spec fn class_key(c: &(String, String)) -> ClassKey {
    (c.0@, c.1@)
}

pub open spec fn task_key(t: TaskView) -> ClassKey {
    (t.instance, t.class)
}

/// The "no icon found" bitmap: a frame of no pixels.
pub open spec fn empty_icon() -> FrameView {
    FrameView { width: 0, height: 0, pixels: Seq::empty() }
}

/// What resolving an icon gives: the window's own icon, else the theme's,
/// else the icon already cached for the parent window's class, else the
/// empty icon.
pub open spec fn resolved(
    cache: Map<ClassKey, FrameView>,
    window_icon: Option<FrameView>,
    theme_icon: Option<FrameView>,
    parent: Option<ClassKey>,
) -> FrameView {
    match window_icon {
        Some(f) => f,
        None => match theme_icon {
            Some(f) => f,
            None => match parent {
                Some(k) => if cache.contains_key(k) {
                    cache[k]
                } else {
                    empty_icon()
                },
                None => empty_icon(),
            },
        },
    }
}

/// Resolved icons by class pair. Entries are set by `refresh` alone, so an
/// icon once resolved is handed out unchanged until its class is refreshed.
pub struct IconCache {
    classes: Vec<(String, String)>,
    icons: Vec<Frame>,
}

impl View for IconCache {
    type V = Map<ClassKey, FrameView>;

    closed spec fn view(&self) -> Map<ClassKey, FrameView> {
        Map::new(
            |k: ClassKey| exists|i: int| 0 <= i < self.classes@.len() && class_key(&self.classes@[i]) == k,
            |k: ClassKey|
                self.icons@[choose|i: int| 0 <= i < self.classes@.len() && class_key(&self.classes@[i]) == k]@,
        )
    }
}

impl IconCache {
    pub closed spec fn wf(&self) -> bool {
        &&& self.classes@.len() == self.icons@.len()
        &&& forall|i: int, j: int|
            0 <= i < self.classes@.len() && 0 <= j < self.classes@.len() && i != j ==> class_key(&self.classes@[i])
                != class_key(&self.classes@[j])
        &&& forall|i: int| 0 <= i < self.icons@.len() ==> (#[trigger] self.icons@[i]).wf()
    }

    proof fn lemma_entry(&self, i: int)
        requires
            self.wf(),
            0 <= i < self.classes@.len(),
        ensures
            self@.contains_key(class_key(&self.classes@[i])),
            self@[class_key(&self.classes@[i])] == self.icons@[i]@,
    {
        let k = class_key(&self.classes@[i]);
        assert(exists|j: int| 0 <= j < self.classes@.len() && class_key(&self.classes@[j]) == k);
        let j = choose|j: int| 0 <= j < self.classes@.len() && class_key(&self.classes@[j]) == k;
        assert(i == j);
    }

    pub fn new() -> (r: IconCache)
        ensures
            r.wf(),
            r@ == Map::<ClassKey, FrameView>::empty(),
    {
        let r = IconCache { classes: Vec::new(), icons: Vec::new() };
        assert(r@ =~= Map::<ClassKey, FrameView>::empty());
        r
    }

    /// Position of the entry for `class`, if there is one.
    fn find(&self, class: &(String, String)) -> (r: Option<usize>)
        requires
            self.wf(),
        ensures
            r is Some <==> self@.contains_key(class_key(class)),
            r matches Some(i) ==> i < self.classes@.len() && class_key(&self.classes@[i as int]) == class_key(class),
    {
        let mut i: usize = 0;
        while i < self.classes.len()
            invariant
                self.wf(),
                0 <= i <= self.classes@.len(),
                forall|j: int| 0 <= j < i ==> class_key(&self.classes@[j]) != class_key(class),
            decreases self.classes.len() - i,
        {
            let c = &self.classes[i];
            if c.0 == class.0 && c.1 == class.1 {
                proof {
                    self.lemma_entry(i as int);
                }
                return Some(i);
            }
            i += 1;
        }
        None
    }

    /// Whether an icon is cached for `class`.
    pub fn contains(&self, class: &(String, String)) -> (r: bool)
        requires
            self.wf(),
        ensures
            r == self@.contains_key(class_key(class)),
    {
        self.find(class).is_some()
    }

    /// The icon cached for the task's class.
    pub fn get(&self, task: &Task) -> (r: &Frame)
        requires
            self.wf(),
            self@.contains_key(class_key(&task.class)),
        ensures
            r.wf(),
            r@ == self@[class_key(&task.class)],
    {
        match self.find(&task.class) {
            Some(i) => {
                proof {
                    self.lemma_entry(i as int);
                }
                &self.icons[i]
            },
            None => {
                assert(false);
                &self.icons[0]
            },
        }
    }

    /// Sets the entry for `class` to `icon`, replacing any earlier one.
    fn set(&mut self, class: (String, String), icon: Frame)
        requires
            old(self).wf(),
            icon.wf(),
        ensures
            final(self).wf(),
            final(self)@ == old(self)@.insert(class_key(&class), icon@),
    {
        let ghost k = class_key(&class);
        let ghost f = icon@;
        match self.find(&class) {
            Some(i) => {
                self.icons.set(i, icon);
                proof {
                    assert forall|j: int| 0 <= j < self.icons@.len() implies (#[trigger] self.icons@[j]).wf() by {
                        if j != i {
                            assert(self.icons@[j] == old(self).icons@[j]);
                        }
                    }
                    assert forall|kk: ClassKey| #[trigger] self@.contains_key(kk) == old(self)@.insert(k, f).contains_key(kk) by {
                        if old(self)@.contains_key(kk) {
                            let j = choose|j: int| 0 <= j < old(self).classes@.len() && class_key(&old(self).classes@[j]) == kk;
                            assert(class_key(&self.classes@[j]) == kk);
                        }
                    }
                    assert forall|kk: ClassKey| #[trigger] self@.contains_key(kk) implies self@[kk] == old(self)@.insert(k, f)[kk] by {
                        let j = choose|j: int| 0 <= j < self.classes@.len() && class_key(&self.classes@[j]) == kk;
                        self.lemma_entry(j);
                        if kk != k {
                            old(self).lemma_entry(j);
                            assert(j != i);
                        }
                    }
                    assert(self@ =~= old(self)@.insert(k, f));
                }
            },
            None => {
                self.classes.push(class);
                self.icons.push(icon);
                proof {
                    let n = old(self).classes@.len() as int;
                    assert forall|j: int| 0 <= j < self.icons@.len() implies (#[trigger] self.icons@[j]).wf() by {
                        if j < n {
                            assert(self.icons@[j] == old(self).icons@[j]);
                        }
                    }
                    assert forall|a: int, b: int|
                        0 <= a < self.classes@.len() && 0 <= b < self.classes@.len() && a != b implies class_key(&self.classes@[a])
                            != class_key(&self.classes@[b]) by {
                        if a < n && b < n {
                            assert(self.classes@[a] == old(self).classes@[a]);
                            assert(self.classes@[b] == old(self).classes@[b]);
                        } else if a < n {
                            assert(self.classes@[a] == old(self).classes@[a]);
                            old(self).lemma_entry(a);
                        } else {
                            assert(self.classes@[b] == old(self).classes@[b]);
                            old(self).lemma_entry(b);
                        }
                    }
                    assert forall|kk: ClassKey| #[trigger] self@.contains_key(kk) == old(self)@.insert(k, f).contains_key(kk) by {
                        if old(self)@.contains_key(kk) {
                            let j = choose|j: int| 0 <= j < old(self).classes@.len() && class_key(&old(self).classes@[j]) == kk;
                            assert(self.classes@[j] == old(self).classes@[j]);
                        }
                        if kk == k {
                            assert(class_key(&self.classes@[n]) == k);
                        }
                        if self@.contains_key(kk) {
                            let j = choose|j: int| 0 <= j < self.classes@.len() && class_key(&self.classes@[j]) == kk;
                            if j < n {
                                assert(self.classes@[j] == old(self).classes@[j]);
                            }
                        }
                    }
                    assert forall|kk: ClassKey| #[trigger] self@.contains_key(kk) implies self@[kk] == old(self)@.insert(k, f)[kk] by {
                        let j = choose|j: int| 0 <= j < self.classes@.len() && class_key(&self.classes@[j]) == kk;
                        self.lemma_entry(j);
                        if j < n {
                            assert(self.classes@[j] == old(self).classes@[j]);
                            assert(self.icons@[j] == old(self).icons@[j]);
                            old(self).lemma_entry(j);
                        }
                    }
                    assert(self@ =~= old(self)@.insert(k, f));
                }
            },
        }
    }

    /// Resolves the icon of `task`'s class and caches it, replacing what was
    /// cached for that class: the window's own icon if it has one, else the
    /// theme's, else the icon cached for the parent window's class (if the
    /// window has a parent and that class is cached), else the empty icon.
    pub fn refresh(
        &mut self,
        task: &Task,
        window_icon: Option<Frame>,
        theme_icon: Option<Frame>,
        parent_class: Option<&(String, String)>,
    )
        requires
            old(self).wf(),
            window_icon matches Some(f) ==> f.wf(),
            theme_icon matches Some(f) ==> f.wf(),
        ensures
            final(self).wf(),
            final(self)@ == old(self)@.insert(
                class_key(&task.class),
                resolved(
                    old(self)@,
                    match window_icon {
                        Some(f) => Some(f@),
                        None => None,
                    },
                    match theme_icon {
                        Some(f) => Some(f@),
                        None => None,
                    },
                    match parent_class {
                        Some(c) => Some(class_key(c)),
                        None => None,
                    },
                ),
            ),
    {
        let icon = match window_icon {
            Some(f) => f,
            None => match theme_icon {
                Some(f) => f,
                None => {
                    let mut alias: Option<Frame> = None;
                    if let Some(pc) = parent_class {
                        if let Some(i) = self.find(pc) {
                            proof {
                                self.lemma_entry(i as int);
                            }
                            alias = Some(self.icons[i].duplicate());
                        }
                    }
                    match alias {
                        Some(f) => f,
                        None => {
                            let f = Frame::new(0, 0);
                            assert(f@.pixels =~= Seq::<crate::frame::Color>::empty());
                            f
                        },
                    }
                },
            },
        };
        let class = (task.class.0.clone(), task.class.1.clone());
        self.set(class, icon);
    }

    /// Positions, oldest task first, of the tasks whose class has no cached
    /// icon yet, one per class (its first task): the tasks to resolve.
    pub fn missing(&self, tasks: &TaskList) -> (r: Vec<usize>)
        requires
            self.wf(),
        ensures
            forall|a: int, b: int| 0 <= a < b < r@.len() ==> r@[a] < r@[b],
            forall|k: int|
                0 <= k < r@.len() ==> #[trigger] r@[k] < tasks@.tasks.len() && !self@.contains_key(
                    task_key(tasks@.tasks[r@[k] as int]),
                ) && first_of_class(tasks@.tasks, r@[k] as int),
            forall|i: int|
                0 <= i < tasks@.tasks.len() && !self@.contains_key(task_key(tasks@.tasks[i])) && first_of_class(
                    tasks@.tasks,
                    i,
                ) ==> r@.contains(i as usize),
    {
        let (list, _) = tasks.list_ascending();
        let ghost ts = tasks@.tasks;
        let mut out: Vec<usize> = Vec::new();
        let mut i: usize = 0;
        while i < list.len()
            invariant
                self.wf(),
                crate::tasks::views(list@) == ts,
                0 <= i <= list@.len(),
                forall|a: int, b: int| 0 <= a < b < out@.len() ==> out@[a] < out@[b],
                forall|k: int|
                    0 <= k < out@.len() ==> #[trigger] out@[k] < i && !self@.contains_key(task_key(ts[out@[k] as int]))
                        && first_of_class(ts, out@[k] as int),
                forall|j: int|
                    0 <= j < i && !self@.contains_key(task_key(ts[j])) && first_of_class(ts, j) ==> out@.contains(
                        j as usize,
                    ),
            decreases list.len() - i,
        {
            let c = &list[i].class;
            assert(task_key(ts[i as int]) == class_key(c));
            let mut first = true;
            let mut j: usize = 0;
            while j < i
                invariant
                    crate::tasks::views(list@) == ts,
                    0 <= j <= i < list@.len(),
                    c == &list@[i as int].class,
                    self.wf(),
                    first == (forall|m: int| 0 <= m < j ==> task_key(ts[m]) != task_key(ts[i as int])),
                decreases i - j,
            {
                let d = &list[j].class;
                assert(task_key(ts[j as int]) == class_key(d));
                if d.0 == c.0 && d.1 == c.1 {
                    first = false;
                }
                j += 1;
            }
            let ghost prev = out@;
            let absent = !self.contains(c);
            proof {
                assert(first == first_of_class(ts, i as int));
                assert(absent == !self@.contains_key(task_key(ts[i as int])));
            }
            if first && absent {
                out.push(i);
            }
            proof {
                assert forall|jj: int|
                    0 <= jj < i + 1 && !self@.contains_key(task_key(ts[jj])) && first_of_class(ts, jj) implies out@.contains(
                        jj as usize,
                    ) by {
                    if jj < i {
                        let k = choose|k: int| 0 <= k < prev.len() && prev[k] == jj as usize;
                        assert(out@[k] == jj as usize);
                    } else {
                        assert(out@[prev.len() as int] == i);
                    }
                }
            }
            i += 1;
        }
        assert(list@.len() == ts.len());
        out
    }
}

/// Whether no task before position `i` has the class of task `i`.
pub open spec fn first_of_class(ts: Seq<TaskView>, i: int) -> bool {
    forall|j: int| 0 <= j < i ==> task_key(ts[j]) != task_key(ts[i])
}

/// The cache after refreshing, in order, each class of `refreshes` with the
/// icon paired with it.
pub open spec fn refreshed_all(
    m: Map<ClassKey, FrameView>,
    refreshes: Seq<(ClassKey, FrameView)>,
) -> Map<ClassKey, FrameView>
    decreases refreshes.len(),
{
    if refreshes.len() == 0 {
        m
    } else {
        refreshed_all(m, refreshes.drop_last()).insert(refreshes.last().0, refreshes.last().1)
    }
}

/// Resolution is memoized: once an icon is cached for a class, refreshing
/// other classes, any number of times, leaves it as it was, so every lookup
/// until that class itself is refreshed gives the same bitmap.
pub proof fn law_icon_memoized(m: Map<ClassKey, FrameView>, k: ClassKey, refreshes: Seq<(ClassKey, FrameView)>)
    requires
        m.contains_key(k),
        forall|i: int| 0 <= i < refreshes.len() ==> (#[trigger] refreshes[i]).0 != k,
    ensures
        refreshed_all(m, refreshes).contains_key(k),
        refreshed_all(m, refreshes)[k] == m[k],
    decreases refreshes.len(),
{
    if refreshes.len() > 0 {
        let d = refreshes.drop_last();
        assert forall|i: int| 0 <= i < d.len() implies (#[trigger] d[i]).0 != k by {
            assert(d[i] == refreshes[i]);
        }
        law_icon_memoized(m, k, d);
        assert(refreshes.last() == refreshes[refreshes.len() - 1]);
    }
}

} // verus!
