//! Where the window appears, and when it goes away.

use vstd::prelude::*;

verus! {

/// A rectangle on the screen, in any one unit of length.
#[derive(Clone, Copy, Debug, PartialEq, Eq, Structural)]
pub struct Rect {
    pub x: i64,
    pub y: i64,
    pub width: i64,
    pub height: i64,
}

/// The size of the window.
#[derive(Clone, Copy, Debug, PartialEq, Eq, Structural)]
pub struct Size {
    pub width: i64,
    pub height: i64,
}

/// A point, in halves of the unit of length.
#[derive(Clone, Copy, Debug, PartialEq, Eq, Structural)]
pub struct HalfPoint {
    pub x: i128,
    pub y: i128,
}

/// The middle of a rectangle, in halves of the unit.
pub open spec fn center(rect: Rect) -> (int, int) {
    (2 * rect.x + rect.width, 2 * rect.y + rect.height)
}

/// Whether a point, in halves of the unit, lies in a rectangle.
pub open spec fn contains_point(rect: Rect, point: (int, int)) -> bool {
    &&& 2 * rect.x <= point.0 < 2 * (rect.x + rect.width)
    &&& 2 * rect.y <= point.1 < 2 * (rect.y + rect.height)
}

/// Whether the monitor at `i` is the first one that the point lies on.
pub open spec fn is_first_containing(monitors: Seq<Rect>, point: (int, int), i: int) -> bool {
    &&& 0 <= i < monitors.len()
    &&& contains_point(monitors[i], point)
    &&& forall|k: int| 0 <= k < i ==> !contains_point(#[trigger] monitors[k], point)
}

fn lies_in(rect: &Rect, x: i128, y: i128) -> (yes: bool)
    ensures
        yes == contains_point(*rect, (x as int, y as int)),
{
    let left: i128 = 2 * (rect.x as i128);
    let right: i128 = left + 2 * (rect.width as i128);
    let top: i128 = 2 * (rect.y as i128);
    let bottom: i128 = top + 2 * (rect.height as i128);
    left <= x && x < right && top <= y && y < bottom
}

/// The first monitor that the middle of the icon lies on.
pub fn monitor_containing(monitors: &Vec<Rect>, icon: &Rect) -> (found: Option<usize>)
    ensures
        match found {
            Some(i) => is_first_containing(monitors@, center(*icon), i as int),
            None => forall|k: int|
                0 <= k < monitors@.len() ==> !contains_point(
                    #[trigger] monitors@[k],
                    center(*icon),
                ),
        },
{
    let x: i128 = 2 * (icon.x as i128) + icon.width as i128;
    let y: i128 = 2 * (icon.y as i128) + icon.height as i128;
    let mut i: usize = 0;
    while i < monitors.len()
        invariant
            i <= monitors@.len(),
            (x as int, y as int) == center(*icon),
            forall|k: int|
                0 <= k < i ==> !contains_point(#[trigger] monitors@[k], center(*icon)),
        decreases monitors@.len() - i,
    {
        if lies_in(&monitors[i], x, y) {
            return Some(i);
        }
        i += 1;
    }
    None
}

/// `v` moved into `low..=high`, or to `low` where there is no such range.
pub open spec fn kept_within(v: int, low: int, high: int) -> int {
    if v < low || high < low {
        low
    } else if v > high {
        high
    } else {
        v
    }
}

/// Whether the window opens below the icon: the icon is at least as close to the top of
/// the monitor as to its bottom.
pub open spec fn opens_downward(icon: Rect, monitor: Rect) -> bool {
    let (_, y) = center(icon);
    y - 2 * monitor.y <= 2 * (monitor.y + monitor.height) - y
}

/// Where the window goes, in halves of the unit: centered below or above the icon with
/// a gap, and kept on the monitor.
pub open spec fn placed(
    icon: Rect,
    window: Size,
    monitor: Option<Rect>,
    gap: int,
) -> (int, int) {
    let x = center(icon).0 - window.width;
    let below = 2 * (icon.y + icon.height + gap);
    match monitor {
        Some(m) => {
            let above = 2 * (icon.y - window.height - gap);
            let y = if opens_downward(icon, m) {
                below
            } else {
                above
            };
            (
                kept_within(x, 2 * m.x, 2 * (m.x + m.width - window.width)),
                kept_within(y, 2 * m.y, 2 * (m.y + m.height - window.height)),
            )
        },
        None => (x, below),
    }
}

fn keep_within(v: i128, low: i128, high: i128) -> (kept: i128)
    ensures
        kept == kept_within(v as int, low as int, high as int),
{
    if v < low || high < low {
        low
    } else if v > high {
        high
    } else {
        v
    }
}

/// Where the window goes when it opens next to the tray icon.
pub fn position_window_under_tray(
    icon: &Rect,
    window: &Size,
    monitor: Option<Rect>,
    gap: u32,
) -> (position: HalfPoint)
    ensures
        (position.x as int, position.y as int) == placed(*icon, *window, monitor, gap as int),
{
    let icon_y: i128 = icon.y as i128;
    let icon_height: i128 = icon.height as i128;
    let width: i128 = window.width as i128;
    let height: i128 = window.height as i128;
    let gap: i128 = gap as i128;
    let center_x: i128 = 2 * (icon.x as i128) + icon.width as i128;
    let center_y: i128 = 2 * icon_y + icon_height;
    let x: i128 = center_x - width;
    let below: i128 = 2 * (icon_y + icon_height + gap);
    match monitor {
        Some(m) => {
            let left: i128 = 2 * (m.x as i128);
            let top: i128 = 2 * (m.y as i128);
            let right: i128 = left + 2 * (m.width as i128);
            let bottom: i128 = top + 2 * (m.height as i128);
            let y: i128 = if center_y - top <= bottom - center_y {
                below
            } else {
                2 * (icon_y - height - gap)
            };
            HalfPoint {
                x: keep_within(x, left, right - 2 * width),
                y: keep_within(y, top, bottom - 2 * height),
            }
        },
        None => HalfPoint { x, y: below },
    }
}

/// A window that fits on the monitor is placed wholly on it.
pub proof fn law_window_stays_on_the_monitor(icon: Rect, window: Size, monitor: Rect, gap: int)
    requires
        0 <= window.width <= monitor.width,
        0 <= window.height <= monitor.height,
    ensures
        ({
            let (x, y) = placed(icon, window, Some(monitor), gap);
            &&& 2 * monitor.x <= x && x + 2 * window.width <= 2 * (monitor.x + monitor.width)
            &&& 2 * monitor.y <= y && y + 2 * window.height <= 2 * (monitor.y + monitor.height)
        }),
{
}

/// Where there is room, the window neither covers the icon nor is off its center.
pub proof fn law_window_is_next_to_the_icon(icon: Rect, window: Size, monitor: Rect, gap: int)
    requires
        gap >= 0,
        2 * monitor.x <= center(icon).0 - window.width,
        center(icon).0 + window.width <= 2 * (monitor.x + monitor.width),
        opens_downward(icon, monitor) ==> monitor.y <= icon.y + icon.height + gap && icon.y
            + icon.height + gap + window.height <= monitor.y + monitor.height,
        !opens_downward(icon, monitor) ==> monitor.y <= icon.y - window.height - gap && icon.y - gap
            <= monitor.y + monitor.height,
    ensures
        ({
            let (x, y) = placed(icon, window, Some(monitor), gap);
            &&& x + window.width == center(icon).0
            &&& opens_downward(icon, monitor) ==> y == 2 * (icon.y + icon.height + gap)
            &&& !opens_downward(icon, monitor) ==> y + 2 * window.height == 2 * (icon.y - gap)
        }),
{
}

/// For how long, in nanoseconds, a loss of focus is ignored after the window was shown.
pub const POST_SHOW_BLUR_GUARD_NANOS: u64 = 400_000_000;

/// What is remembered of the window. Times are in nanoseconds.
#[derive(Clone, Copy, Debug, PartialEq, Eq, Structural)]
pub struct WindowShowState {
    pub last_shown_at: Option<u64>,
    /// Where it was last placed next to the tray icon.
    pub last_tray_position: Option<HalfPoint>,
    pub has_shown_before: bool,
}

/// What a click on the tray icon does.
#[derive(Clone, Copy, Debug, PartialEq, Eq, Structural)]
pub enum ShowAction {
    /// Get the window out of the way.
    Dismiss,
    /// Show the window, at the given place if there is one.
    Show(Option<HalfPoint>),
}

/// Where the window would go next to the tray icon: the icon is where it was clicked, and
/// the place may be missing though the icon is known.
#[derive(Clone, Copy, Debug, PartialEq, Eq, Structural)]
pub enum TrayPlace {
    /// It is not known where the icon is.
    Unknown,
    /// The icon is known, but not the window's size.
    Unplaced,
    Placed(HalfPoint),
}

/// What a click on the tray icon does, and what is remembered then. On some systems the
/// window is placed next to the icon each time, on others only at first.
pub open spec fn clicked(
    state: WindowShowState,
    is_open: bool,
    always_anchor: bool,
    place: TrayPlace,
    now: u64,
) -> (WindowShowState, ShowAction) {
    if is_open {
        (state, ShowAction::Dismiss)
    } else {
        let anchor = always_anchor || !state.has_shown_before;
        let position = if !anchor {
            None
        } else {
            match place {
                TrayPlace::Placed(p) => Some(p),
                TrayPlace::Unplaced => None,
                TrayPlace::Unknown => state.last_tray_position,
            }
        };
        (
            WindowShowState {
                last_shown_at: Some(now),
                last_tray_position: if anchor && place is Placed {
                    position
                } else {
                    state.last_tray_position
                },
                has_shown_before: true,
            },
            ShowAction::Show(position),
        )
    }
}

/// Whether the window was shown so recently that a loss of focus does not count.
pub open spec fn recently_shown(state: WindowShowState, now: u64) -> bool {
    state.last_shown_at matches Some(at) && now < at + POST_SHOW_BLUR_GUARD_NANOS
}

/// Whether a window is on the screen: a minimized one may count as visible.
pub fn is_open(is_visible: bool, is_minimized: bool) -> (open: bool)
    ensures
        open <==> is_visible && !is_minimized,
{
    is_visible && !is_minimized
}

impl WindowShowState {
    pub fn new() -> (state: Self)
        ensures
            state == (WindowShowState {
                last_shown_at: None,
                last_tray_position: None,
                has_shown_before: false,
            }),
    {
        WindowShowState { last_shown_at: None, last_tray_position: None, has_shown_before: false }
    }

    /// What a click on the tray icon does.
    pub fn show_near_tray(
        &mut self,
        is_open: bool,
        always_anchor: bool,
        place: TrayPlace,
        now: u64,
    ) -> (action: ShowAction)
        ensures
            (*final(self), action) == clicked(*old(self), is_open, always_anchor, place, now),
    {
        if is_open {
            return ShowAction::Dismiss;
        }
        let mut position: Option<HalfPoint> = None;
        if always_anchor || !self.has_shown_before {
            match place {
                TrayPlace::Placed(p) => {
                    self.last_tray_position = Some(p);
                    position = Some(p);
                },
                TrayPlace::Unplaced => {},
                TrayPlace::Unknown => {
                    position = self.last_tray_position;
                },
            }
        }
        self.has_shown_before = true;
        self.last_shown_at = Some(now);
        ShowAction::Show(position)
    }

    /// Notes that the window is about to be dragged, which may cost it the focus for a
    /// moment.
    pub fn begin_window_drag(&mut self, now: u64)
        ensures
            *final(self) == (WindowShowState { last_shown_at: Some(now), ..*old(self) }),
    {
        self.last_shown_at = Some(now);
    }

    /// Whether a loss of focus hides the window: only where it behaves like a popover,
    /// and not right after it was shown.
    pub fn hides_on_blur(&self, is_popover: bool, now: u64) -> (hides: bool)
        ensures
            hides <==> is_popover && !recently_shown(*self, now),
    {
        if !is_popover {
            return false;
        }
        match self.last_shown_at {
            Some(at) => !(now < at || now - at < POST_SHOW_BLUR_GUARD_NANOS),
            None => true,
        }
    }
}

impl Default for WindowShowState {
    fn default() -> (state: Self)
        ensures
            state == (WindowShowState {
                last_shown_at: None,
                last_tray_position: None,
                has_shown_before: false,
            }),
    {
        WindowShowState::new()
    }
}

/// A loss of focus right after the window was shown or dragged does not hide it.
pub proof fn law_blur_right_after_showing_is_ignored(
    state: WindowShowState,
    always_anchor: bool,
    place: TrayPlace,
    shown: u64,
    blurred: u64,
)
    requires
        shown <= blurred < shown + POST_SHOW_BLUR_GUARD_NANOS,
    ensures
        recently_shown(clicked(state, false, always_anchor, place, shown).0, blurred),
        recently_shown(WindowShowState { last_shown_at: Some(shown), ..state }, blurred),
{
}

/// Once the window has been placed next to the icon, a click that does not say where the
/// icon is places it at the same spot again, as far as it is placed at all.
pub proof fn law_last_place_is_reused(
    state: WindowShowState,
    position: HalfPoint,
    first: u64,
    second: u64,
)
    ensures
        ({
            let after = clicked(state, false, true, TrayPlace::Placed(position), first).0;
            clicked(after, false, true, TrayPlace::Unknown, second).1 == ShowAction::Show(
                Some(position),
            )
        }),
{
}

/// Where the window is only placed at first, showing it again leaves it where the user
/// has put it.
pub proof fn law_user_placement_is_kept(state: WindowShowState, place: TrayPlace, now: u64)
    requires
        state.has_shown_before,
    ensures
        clicked(state, false, false, place, now).1 == ShowAction::Show(None),
        clicked(state, false, false, place, now).0.last_tray_position == state.last_tray_position,
{
}

/// Whether `v` is the place in `low..=high` that is nearest to `wanted`, or `low` where there
/// is no such place.
pub open spec fn is_nearest(v: int, wanted: int, low: int, high: int) -> bool {
    &&& low <= high ==> low <= v <= high
    &&& low > high ==> v == low
    &&& low <= wanted <= high ==> v == wanted
    &&& low <= high && wanted < low ==> v == low
    &&& low <= high && wanted > high ==> v == high
}

/// On a monitor the window goes as near as it can to where it is centered on the icon, a gap
/// below the icon where the middle of that is in the upper half of the monitor, and a gap
/// above it otherwise.
pub proof fn law_where_the_window_goes(icon: Rect, window: Size, monitor: Rect, gap: int)
    ensures
        ({
            let (x, y) = placed(icon, window, Some(monitor), gap);
            let middle = 2 * icon.y + icon.height;
            let upper_half = middle <= 2 * monitor.y + monitor.height;
            let wanted_y = if upper_half {
                2 * icon.y + 2 * icon.height + 2 * gap
            } else {
                2 * icon.y - 2 * gap - 2 * window.height
            };
            &&& is_nearest(
                x,
                2 * icon.x + icon.width - window.width,
                2 * monitor.x,
                2 * monitor.x + 2 * monitor.width - 2 * window.width,
            )
            &&& is_nearest(
                y,
                wanted_y,
                2 * monitor.y,
                2 * monitor.y + 2 * monitor.height - 2 * window.height,
            )
        }),
{
}

/// Without a monitor the window goes a gap below the icon, centered on it.
pub proof fn law_where_the_window_goes_without_a_monitor(icon: Rect, window: Size, gap: int)
    ensures
        ({
            let (x, y) = placed(icon, window, None, gap);
            &&& x + window.width == 2 * icon.x + icon.width
            &&& y == 2 * icon.y + 2 * icon.height + 2 * gap
        }),
{
}

/// A monitor is found exactly if the middle of the icon is on one: not left of it or above
/// it, and before its right and lower edges.
pub proof fn law_which_monitor_is_found(monitors: Seq<Rect>, icon: Rect, i: int)
    requires
        0 <= i < monitors.len(),
    ensures
        contains_point(monitors[i], center(icon)) <==> {
            &&& 2 * monitors[i].x <= 2 * icon.x + icon.width
            &&& 2 * icon.x + icon.width < 2 * monitors[i].x + 2 * monitors[i].width
            &&& 2 * monitors[i].y <= 2 * icon.y + icon.height
            &&& 2 * icon.y + icon.height < 2 * monitors[i].y + 2 * monitors[i].height
        },
        forall|k: int|
            0 <= k < monitors.len() && is_first_containing(monitors, center(icon), i)
                && contains_point(#[trigger] monitors[k], center(icon)) ==> i <= k,
        is_first_containing(monitors, center(icon), i) ==> contains_point(
            monitors[i],
            center(icon),
        ),
{
}

/// Of two monitors side by side, every point at the height of both is on at most one, and
/// on one if it is between their outer edges.
pub proof fn law_monitors_do_not_share_an_edge(left: Rect, right: Rect, x: int, y: int)
    requires
        right.x == left.x + left.width,
        left.width > 0,
        right.width > 0,
        left.y == right.y,
        left.height == right.height,
        2 * left.y <= y < 2 * (left.y + left.height),
    ensures
        !(contains_point(left, (x, y)) && contains_point(right, (x, y))),
        2 * left.x <= x < 2 * (right.x + right.width) ==> contains_point(left, (x, y))
            || contains_point(right, (x, y)),
{
}

/// A click on the icon gets an open window out of the way, and nothing is noted.
pub proof fn law_a_click_dismisses_an_open_window(
    state: WindowShowState,
    always_anchor: bool,
    place: TrayPlace,
    now: u64,
)
    ensures
        clicked(state, true, always_anchor, place, now) == (state, ShowAction::Dismiss),
{
}

/// A click on the icon shows a window that is not open, and the time is noted. Where it is
/// placed at all, it goes to the place next to the icon, which is noted; where the icon is
/// not known, to the last such place; and where there is none, it is shown where it is.
pub proof fn law_a_click_shows_a_closed_window(
    state: WindowShowState,
    always_anchor: bool,
    place: TrayPlace,
    now: u64,
)
    ensures
        ({
            let (after, action) = clicked(state, false, always_anchor, place, now);
            let first = state.has_shown_before == false;
            &&& after.last_shown_at == Some(now)
            &&& after.has_shown_before
            &&& action matches ShowAction::Show(position)
            &&& !always_anchor && !first ==> position is None && after.last_tray_position
                == state.last_tray_position
            &&& always_anchor || first ==> match place {
                TrayPlace::Placed(p) => position == Some(p) && after.last_tray_position == Some(p),
                TrayPlace::Unplaced => position is None && after.last_tray_position
                    == state.last_tray_position,
                TrayPlace::Unknown => position == state.last_tray_position
                    && after.last_tray_position == state.last_tray_position,
            }
        }),
{
}

/// A loss of focus is ignored for four tenths of a second after the window was shown, and no
/// longer; if it never was, it is not ignored.
pub proof fn law_how_long_a_blur_is_ignored(state: WindowShowState, shown: u64, now: u64)
    requires
        shown <= now,
    ensures
        state.last_shown_at == Some(shown) ==> (recently_shown(state, now) <==> now - shown
            < 400_000_000),
        state.last_shown_at is None ==> !recently_shown(state, now),
{
}

} // verus!
