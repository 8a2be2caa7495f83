use vstd::prelude::*;
use crate::tasks::{
    Task, TaskList, TaskView, Window, newer_selection, older_selection, moved_to_end, has_id, index_of_id,
    reconciled, views,
};

verus! {

/// What changed since the overlay was last drawn.
#[derive(Clone, Copy, Debug, PartialEq, Eq, Structural)]
pub struct Dirty {
    pub title: bool,
    pub icons: bool,
    pub size: bool,
    pub focus: bool,
    pub window: bool,
}

impl Dirty {
    pub fn new() -> (d: Dirty)
        ensures
            d == (Dirty { title: false, icons: false, size: false, focus: false, window: false }),
    {
        Dirty { title: false, icons: false, size: false, focus: false, window: false }
    }

    /// Whether anything visible changed.
    pub open spec fn spec_visible(self) -> bool {
        self.focus || self.title || self.icons || self.window
    }
}

/// A key event, as the overlay's key bindings classify it; the keys other
/// than the modifier's release only count while the modifier is held.
#[derive(Clone, Copy, Debug, PartialEq, Eq, Structural)]
pub enum KeyEvent {
    /// Select the next (older) task.
    Next,
    /// Select the previous (newer) task.
    Prev,
    /// Close the selected task's window.
    Kill,
    /// Dismiss the overlay; `active` says whether some window is active.
    Quit { active: bool },
    /// The modifier was released: commit the selection.
    ModifierReleased,
}

/// What the window system is to be asked after an event.
#[derive(Clone, Copy, Debug, PartialEq, Eq, Structural)]
pub enum Request {
    Nothing,
    Close(Window),
    Focus(Window),
}

/// The overlay's state between events: whether it is shown, and what changed
/// since it was last drawn.
pub struct Controller {
    pub mapped: bool,
    pub dirty: Dirty,
}

impl Controller {
    pub fn new() -> (c: Controller)
        ensures
            !c.mapped,
            c.dirty == (Dirty { title: false, icons: false, size: false, focus: false, window: false }),
    {
        Controller { mapped: false, dirty: Dirty::new() }
    }

    /// Starts a new round of events: nothing has changed yet.
    pub fn begin_cycle(&mut self)
        ensures
            final(self).mapped == old(self).mapped,
            final(self).dirty == (Dirty { title: false, icons: false, size: false, focus: false, window: false }),
    {
        self.dirty = Dirty::new();
    }

    /// The overlay was exposed and must be drawn again.
    pub fn on_expose(&mut self)
        ensures
            final(self).mapped == old(self).mapped,
            final(self).dirty == (Dirty { window: true, ..old(self).dirty }),
    {
        self.dirty.window = true;
    }

    /// The window list changed: reconciles the registry with `wids` and the
    /// tasks introspection `found`, and notes what changed.
    pub fn on_client_list(&mut self, tasks: &mut TaskList, wids: &Vec<Window>, found: Vec<Task>)
        requires
            old(tasks)@.valid(),
        ensures
            final(tasks)@.valid(),
            final(tasks)@ == reconciled(old(tasks)@, wids@, views(found@)),
            final(self).mapped == old(self).mapped,
            final(self).dirty == (Dirty {
                size: old(self).dirty.size || final(tasks)@.tasks.len() != old(tasks)@.tasks.len(),
                focus: true,
                ..old(self).dirty
            }),
    {
        let before = tasks.len();
        tasks.diff_update(wids, found);
        self.dirty.size = self.dirty.size || before != tasks.len();
        self.dirty.focus = true;
    }

    /// The icons were resolved again.
    pub fn on_icons_changed(&mut self)
        ensures
            final(self).mapped == old(self).mapped,
            final(self).dirty == (Dirty { icons: true, ..old(self).dirty }),
    {
        self.dirty.icons = true;
    }

    /// The active window changed to `active`, or to none.
    pub fn on_active_window(&mut self, tasks: &mut TaskList, active: Option<Window>)
        requires
            old(tasks)@.valid(),
        ensures
            final(tasks)@.valid(),
            final(self).mapped == old(self).mapped,
            active is None ==> final(tasks)@.tasks == old(tasks)@.tasks && final(tasks)@.selected is None
                && final(self).dirty == old(self).dirty,
            active matches Some(w) ==> final(self).dirty == (Dirty { focus: true, ..old(self).dirty }) && (if has_id(
                old(tasks)@.tasks,
                w,
            ) {
                final(tasks)@.tasks == moved_to_end(old(tasks)@.tasks, index_of_id(old(tasks)@.tasks, w))
                    && final(tasks)@.selected == Some(old(tasks)@.tasks.len() - 1)
            } else {
                final(tasks)@ == old(tasks)@
            }),
    {
        match active {
            Some(w) => {
                tasks.focus_by_wid(w);
                self.dirty.focus = true;
            },
            None => {
                tasks.unfocus();
            },
        }
    }

    /// The title of window `wid` is now `title`.
    pub fn on_title(&mut self, tasks: &mut TaskList, wid: Window, title: String)
        requires
            old(tasks)@.valid(),
        ensures
            final(tasks)@.valid(),
            final(tasks)@.selected == old(tasks)@.selected,
            !has_id(old(tasks)@.tasks, wid) ==> final(tasks)@.tasks == old(tasks)@.tasks,
            has_id(old(tasks)@.tasks, wid) ==> final(tasks)@.tasks == old(tasks)@.tasks.update(
                index_of_id(old(tasks)@.tasks, wid),
                TaskView { title: title@, ..old(tasks)@.tasks[index_of_id(old(tasks)@.tasks, wid)] },
            ),
            final(self).mapped == old(self).mapped,
            final(self).dirty == (Dirty { title: true, ..old(self).dirty }),
    {
        tasks.update_title(wid, title);
        self.dirty.title = true;
    }

    /// Handles a key event and says what to ask of the window system.
    pub fn on_key(&mut self, tasks: &mut TaskList, key: KeyEvent) -> (r: Request)
        requires
            old(tasks)@.valid(),
        ensures
            final(tasks)@.valid(),
            final(tasks)@.tasks == old(tasks)@.tasks,
            match key {
                KeyEvent::Next => final(tasks)@.selected == older_selection(old(tasks)@) && final(self).mapped
                    && final(self).dirty == (Dirty { focus: true, ..old(self).dirty }) && r == Request::Nothing,
                KeyEvent::Prev => final(tasks)@.selected == newer_selection(old(tasks)@) && final(self).mapped
                    && final(self).dirty == (Dirty { focus: true, ..old(self).dirty }) && r == Request::Nothing,
                KeyEvent::Kill => final(tasks)@ == old(tasks)@ && final(self).mapped == old(self).mapped
                    && final(self).dirty == old(self).dirty && r == (if old(self).mapped && old(
                    tasks,
                )@.selected is Some {
                    Request::Close(old(tasks)@.tasks[old(tasks)@.selected->0].wid)
                } else {
                    Request::Nothing
                }),
                KeyEvent::Quit { active } => final(self).dirty == old(self).dirty && r == Request::Nothing && (if old(
                    self,
                ).mapped {
                    !final(self).mapped && final(tasks)@.selected == (if active {
                        if old(tasks)@.tasks.len() > 0 {
                            Some(old(tasks)@.tasks.len() - 1)
                        } else {
                            old(tasks)@.selected
                        }
                    } else {
                        None
                    })
                } else {
                    final(self).mapped == old(self).mapped && final(tasks)@ == old(tasks)@
                }),
                KeyEvent::ModifierReleased => final(tasks)@ == old(tasks)@ && final(self).dirty == old(self).dirty
                    && (if old(self).mapped {
                    !final(self).mapped && r == (if old(tasks)@.selected is Some {
                        Request::Focus(old(tasks)@.tasks[old(tasks)@.selected->0].wid)
                    } else {
                        Request::Nothing
                    })
                } else {
                    final(self).mapped == old(self).mapped && r == Request::Nothing
                }),
            },
    {
        match key {
            KeyEvent::Next => {
                tasks.select_older();
                self.dirty.focus = true;
                self.mapped = true;
                Request::Nothing
            },
            KeyEvent::Prev => {
                tasks.select_newer();
                self.dirty.focus = true;
                self.mapped = true;
                Request::Nothing
            },
            KeyEvent::Kill => {
                if self.mapped {
                    if let Some(t) = tasks.selected() {
                        return Request::Close(t.wid);
                    }
                }
                Request::Nothing
            },
            KeyEvent::Quit { active } => {
                if self.mapped {
                    if active {
                        tasks.select_end();
                    } else {
                        tasks.unfocus();
                    }
                    self.mapped = false;
                }
                Request::Nothing
            },
            KeyEvent::ModifierReleased => {
                if self.mapped {
                    self.mapped = false;
                    if let Some(t) = tasks.selected() {
                        return Request::Focus(t.wid);
                    }
                }
                Request::Nothing
            },
        }
    }

    /// The window system answered a close request.
    pub fn on_close_result(&mut self, ok: bool)
        ensures
            final(self).mapped == old(self).mapped,
            final(self).dirty == (if ok {
                Dirty { focus: true, size: true, ..old(self).dirty }
            } else {
                old(self).dirty
            }),
    {
        if ok {
            self.dirty.focus = true;
            self.dirty.size = true;
        }
    }

    /// The window system answered a focus request: on success the selected
    /// task becomes the newest; on failure nothing changes, so that the
    /// commit can be tried again.
    pub fn on_focus_result(&mut self, tasks: &mut TaskList, ok: bool)
        requires
            old(tasks)@.valid(),
        ensures
            final(tasks)@.valid(),
            final(self).mapped == old(self).mapped,
            final(self).dirty == old(self).dirty,
            !ok ==> final(tasks)@ == old(tasks)@,
            ok && old(tasks)@.selected is None ==> final(tasks)@ == old(tasks)@,
            ok && old(tasks)@.selected is Some ==> final(tasks)@.tasks == moved_to_end(
                old(tasks)@.tasks,
                old(tasks)@.selected->0,
            ) && final(tasks)@.selected == Some(old(tasks)@.tasks.len() - 1),
    {
        if ok {
            tasks.focus_by_selection();
        }
    }

    /// The overlay's geometry was computed again after a change of size:
    /// without one (no task) the overlay is hidden and not drawn this round.
    /// Returns whether to go on to draw.
    pub fn on_geometry(&mut self, has_geometry: bool) -> (r: bool)
        ensures
            r == has_geometry,
            !has_geometry ==> !final(self).mapped && final(self).dirty == old(self).dirty,
            has_geometry ==> final(self).mapped == old(self).mapped && final(self).dirty == (Dirty {
                window: true,
                ..old(self).dirty
            }),
    {
        if has_geometry {
            self.dirty.window = true;
        } else {
            self.mapped = false;
        }
        has_geometry
    }

    /// Whether to draw the overlay at the end of a round: it is shown, there
    /// is a task, and something visible changed.
    pub fn should_draw(&self, tasks: &TaskList) -> (r: bool)
        ensures
            r == (self.mapped && tasks@.tasks.len() > 0 && self.dirty.spec_visible()),
    {
        self.mapped && !tasks.is_empty() && (self.dirty.focus || self.dirty.title || self.dirty.icons
            || self.dirty.window)
    }
}

} // verus!
