use vstd::prelude::*;

verus! {

/// Which way the task list runs.
#[derive(Clone, Copy, Debug, PartialEq, Eq, Structural)]
pub enum ListLayout {
    /// One task per row, the list running down.
    Rows,
    /// One task per column, the list running across.
    Columns,
}

/// Where on the screen the overlay is anchored.
#[derive(Clone, Copy, Debug, PartialEq, Eq, Structural)]
pub enum WindowLocation {
    NorthWest,
    North,
    NorthEast,
    West,
    Center,
    East,
    SouthWest,
    South,
    SouthEast,
}

/// A rectangle in screen pixels.
#[derive(Clone, Copy, Debug, PartialEq, Eq, Structural)]
pub struct Rect {
    pub x: i64,
    pub y: i64,
    pub w: u32,
    pub h: u32,
}

/// The offset that centres an extent `a` in an extent `b`, truncated towards
/// zero.
pub open spec fn centred(a: int, b: int) -> int {
    if b >= a {
        (b - a) / 2
    } else {
        -((a - b) / 2)
    }
}

fn centre(a: u32, b: u32) -> (r: i64)
    ensures
        r == centred(a as int, b as int),
{
    if b >= a {
        ((b - a) / 2) as i64
    } else {
        -(((a - b) / 2) as i64)
    }
}

impl WindowLocation {
    /// The position, on a screen of `b` pixels, of a window of `a` pixels.
    pub open spec fn spec_resolve(self, a: (int, int), b: (int, int)) -> (int, int) {
        let (aw, ah) = a;
        let (bw, bh) = b;
        match self {
            WindowLocation::NorthWest => (0, 0),
            WindowLocation::North => (centred(aw, bw), 0),
            WindowLocation::NorthEast => (bw - aw, 0),
            WindowLocation::West => (0, centred(ah, bh)),
            WindowLocation::Center => (centred(aw, bw), centred(ah, bh)),
            WindowLocation::East => (bw - aw, centred(ah, bh)),
            WindowLocation::SouthWest => (0, bh - ah),
            WindowLocation::South => (centred(aw, bw), bh - ah),
            WindowLocation::SouthEast => (bw - aw, bh - ah),
        }
    }

    /// Places a window of `a = (width, height)` on a screen of `b`: at a
    /// corner, at the middle of an edge, or centred.
    pub fn resolve(&self, a: (u32, u32), b: (u32, u32)) -> (r: (i64, i64))
        ensures
            (r.0 as int, r.1 as int) == self.spec_resolve((a.0 as int, a.1 as int), (b.0 as int, b.1 as int)),
    {
        let (aw, ah) = a;
        let (bw, bh) = b;
        let right = bw as i64 - aw as i64;
        let bottom = bh as i64 - ah as i64;
        match self {
            WindowLocation::NorthWest => (0, 0),
            WindowLocation::North => (centre(aw, bw), 0),
            WindowLocation::NorthEast => (right, 0),
            WindowLocation::West => (0, centre(ah, bh)),
            WindowLocation::Center => (centre(aw, bw), centre(ah, bh)),
            WindowLocation::East => (right, centre(ah, bh)),
            WindowLocation::SouthWest => (0, bottom),
            WindowLocation::South => (centre(aw, bw), bottom),
            WindowLocation::SouthEast => (right, bottom),
        }
    }
}

/// What the overlay's size and place depend on, in pixels.
#[derive(Clone, Copy, Debug, PartialEq, Eq, Structural)]
pub struct LayoutConfig {
    pub layout: ListLayout,
    pub location: WindowLocation,
    /// Extent of one task along a column list.
    pub task_width: u32,
    /// Extent of one task along a row list.
    pub task_height: u32,
    /// Width of a row list.
    pub width: u32,
    /// Height of a column list.
    pub height: u32,
    pub border_width: u32,
}

/// Room for the list along its axis: the screen less a border at each end.
pub open spec fn available(screen_size: int, border_width: int) -> int {
    if screen_size >= 2 * border_width {
        screen_size - 2 * border_width
    } else {
        0
    }
}

/// Extent of the whole list along its axis: `tasks` times the configured
/// size, unless that exceeds the available room, in which case each task
/// shrinks alike so that the list fills the room exactly.
pub open spec fn list_extent(screen_size: int, border_width: int, task_size: int, tasks: int) -> int {
    if task_size * tasks <= available(screen_size, border_width) {
        task_size * tasks
    } else {
        available(screen_size, border_width)
    }
}

/// The size of one task along the list, as the fraction `(numerator,
/// denominator)`: the configured size, or the available room shared out
/// among the tasks when the list would not fit.
pub fn compute_task_size(screen_size: u32, border_width: u32, task_size: u32, tasks: u32) -> (r: (u64, u64))
    requires
        tasks > 0,
    ensures
        r.1 > 0,
        task_size * tasks <= available(screen_size as int, border_width as int) ==> r == (task_size as u64, 1u64),
        task_size * tasks > available(screen_size as int, border_width as int) ==> r == (
            available(screen_size as int, border_width as int) as u64,
            tasks as u64,
        ),
        r.0 * tasks == r.1 * list_extent(screen_size as int, border_width as int, task_size as int, tasks as int),
{
    let avail: u64 = if screen_size as u64 >= 2 * border_width as u64 {
        screen_size as u64 - 2 * border_width as u64
    } else {
        0
    };
    proof {
        assert(task_size * tasks <= u32::MAX * u32::MAX) by (nonlinear_arith)
            requires
                task_size <= u32::MAX,
                tasks <= u32::MAX,
        ;
    }
    if task_size as u64 * tasks as u64 <= avail {
        assert(task_size * tasks == 1 * (task_size * tasks)) by (nonlinear_arith);
        (task_size as u64, 1)
    } else {
        assert(avail * tasks == tasks * avail) by (nonlinear_arith);
        (avail, tasks as u64)
    }
}

/// Width and height of the overlay for `tasks` tasks on a screen of
/// `screen = (width, height)`.
pub open spec fn window_size(conf: LayoutConfig, screen: (int, int), tasks: int) -> (int, int) {
    match conf.layout {
        ListLayout::Rows => (
            conf.width as int,
            list_extent(screen.1, conf.border_width as int, conf.task_height as int, tasks),
        ),
        ListLayout::Columns => (
            list_extent(screen.0, conf.border_width as int, conf.task_width as int, tasks),
            conf.height as int,
        ),
    }
}

/// The overlay's rectangle on a screen of `screen = (width, height)`
/// pixels, or none when there is no task or the rectangle would be empty.
pub fn compute_window_geometry(conf: &LayoutConfig, screen: (u32, u32), tasks: usize) -> (r: Option<Rect>)
    ensures
        ({
            let (w, h) = window_size(*conf, (screen.0 as int, screen.1 as int), tasks as int);
            &&& r is None <==> (tasks == 0 || w == 0 || h == 0)
            &&& r matches Some(g) ==> {
                &&& g.w == w
                &&& g.h == h
                &&& (g.x as int, g.y as int) == conf.location.spec_resolve((w, h), (screen.0 as int, screen.1 as int))
            }
        }),
{
    if tasks == 0 {
        return None;
    }
    let (sw, sh) = screen;
    let (w, h): (u32, u32) = match conf.layout {
        ListLayout::Rows => (conf.width, list_extent_of(sh, conf.border_width, conf.task_height, tasks)),
        ListLayout::Columns => (list_extent_of(sw, conf.border_width, conf.task_width, tasks), conf.height),
    };
    if w == 0 || h == 0 {
        return None;
    }
    let (x, y) = conf.location.resolve((w, h), screen);
    Some(Rect { x, y, w, h })
}

fn list_extent_of(screen_size: u32, border_width: u32, task_size: u32, tasks: usize) -> (r: u32)
    ensures
        r == list_extent(screen_size as int, border_width as int, task_size as int, tasks as int),
{
    let avail: u64 = if screen_size as u64 >= 2 * border_width as u64 {
        screen_size as u64 - 2 * border_width as u64
    } else {
        0
    };
    if task_size == 0 {
        assert(task_size * tasks == 0);
        return 0;
    }
    if tasks as u64 > avail / task_size as u64 {
        proof {
            vstd::arithmetic::div_mod::lemma_fundamental_div_mod(avail as int, task_size as int);
            vstd::arithmetic::div_mod::lemma_mod_bound(avail as int, task_size as int);
            let (a, t, n) = (avail as int, task_size as int, tasks as int);
            assert(t * n > a) by (nonlinear_arith)
                requires
                    n >= a / t + 1,
                    a == t * (a / t) + a % t,
                    a % t < t,
                    t > 0,
            ;
        }
        avail as u32
    } else {
        proof {
            vstd::arithmetic::div_mod::lemma_fundamental_div_mod(avail as int, task_size as int);
            vstd::arithmetic::div_mod::lemma_mod_bound(avail as int, task_size as int);
            let (a, t, n) = (avail as int, task_size as int, tasks as int);
            assert(t * n <= a) by (nonlinear_arith)
                requires
                    n <= a / t,
                    a == t * (a / t) + a % t,
                    0 <= a % t,
                    t > 0,
            ;
        }
        (task_size as u64 * tasks as u64) as u32
    }
}

} // verus!
