//! The mouse, and the frame rate in the corner.

use vstd::prelude::*;

use crate::menu;
use crate::menu::{Hit, Menu};
use crate::session::Session;
use crate::viewer;
use crate::viewer::{Work, WorkView};

verus! {

/// The mouse buttons that mean something.
#[derive(Clone, Copy, Debug, PartialEq, Eq, Structural)]
pub enum Button {
    Left,
    Right,
    Middle,
    Other,
}

/// What dragging the mouse does to the camera.
#[derive(Clone, Copy, Debug, PartialEq, Eq, Structural)]
pub enum Drag {
    Orbit,
    Pan,
}

/// Which mouse buttons are held, and whether it is known where the cursor was
/// last seen.
#[derive(Clone, Copy, Debug, PartialEq, Eq, Structural)]
pub struct Mouse {
    pub left: bool,
    pub pan: bool,
    pub seen: bool,
}

impl Default for Mouse {
    fn default() -> (r: Mouse)
        ensures
            r == (Mouse { left: false, pan: false, seen: false }),
    {
        Mouse { left: false, pan: false, seen: false }
    }
}

impl Mouse {
    /// The mouse after a button went down or up. Once none is held, the next
    /// drag starts from where the cursor is then.
    pub open spec fn after(self, button: Button, down: bool) -> Mouse {
        let left = if button is Left {
            down
        } else {
            self.left
        };
        let pan = if button is Right || button is Middle {
            down
        } else {
            self.pan
        };
        Mouse { left, pan, seen: self.seen && (down || left || pan) }
    }

    /// A button went down or up.
    pub fn button(&mut self, button: Button, down: bool)
        ensures
            *final(self) == old(self).after(button, down),
    {
        match button {
            Button::Left => self.left = down,
            Button::Right | Button::Middle => self.pan = down,
            Button::Other => {},
        }
        if !down && !self.left && !self.pan {
            self.seen = false;
        }
    }

    /// The cursor moved. Says what that drags, if anything: a drag needs a
    /// button held and somewhere to have come from.
    pub fn moved(&mut self) -> (r: Option<Drag>)
        ensures
            *final(self) == (Mouse { seen: true, ..*old(self) }),
            r == (if !old(self).seen {
                None
            } else if old(self).left {
                Some(Drag::Orbit)
            } else if old(self).pan {
                Some(Drag::Pan)
            } else {
                None
            }),
    {
        let seen = self.seen;
        self.seen = true;
        if !seen {
            None
        } else if self.left {
            Some(Drag::Orbit)
        } else if self.pan {
            Some(Drag::Pan)
        } else {
            None
        }
    }

    /// The cursor left the window.
    pub fn lost(&mut self)
        ensures
            *final(self) == (Mouse { seen: false, ..*old(self) }),
    {
        self.seen = false;
    }
}

impl Session {
    /// A press of the left button in the viewer. One inside the menu picks a
    /// file; it must not also start an orbit, so it is swallowed here. Returns
    /// nothing where the menu is not under it.
    pub fn press_menu(&mut self, x: i64, y: i64) -> (r: Option<Work>)
        requires
            old(self).wf(),
        ensures
            final(self).wf(),
            match old(self).menu.under(x, y) {
                Some(Hit::Row(index)) => r is Some && (r->0)@ == viewer::turn_work(
                    *old(self),
                    index,
                ) && viewer::turned_to(*final(self), *old(self), index),
                Some(Hit::Panel) => r is Some && (r->0)@ == WorkView::Nothing && *final(self)
                    == *old(self),
                None => r is None && *final(self) == *old(self),
            },
    {
        match self.menu.hit(x, y) {
            Some(Hit::Row(index)) => Some(self.show(index)),
            Some(Hit::Panel) => Some(Work::Nothing),
            None => None,
        }
    }

    /// A turn of the wheel in the viewer, in rows of the menu. Over the menu it
    /// scrolls the list without moving the cursor, so it does not load a file
    /// per notch. Returns whether it was over the menu.
    pub fn wheel_menu(&mut self, x: i64, y: i64, rows: isize) -> (r: bool)
        requires
            old(self).wf(),
        ensures
            final(self).wf(),
            r == (old(self).menu.under(x, y) is Some),
            !r ==> *final(self) == *old(self),
            r ==> ({
                let (was, now) = (old(self).menu, final(self).menu);
                &&& now.scroll == menu::clamped(was.scroll + rows, 0, was.farthest())
                &&& now == (Menu { scroll: now.scroll, ..was })
                &&& *final(self) == (Session { menu: now, ..*old(self) })
            }),
    {
        if self.menu.hit(x, y).is_some() {
            self.menu.scroll_by(rows);
            true
        } else {
            false
        }
    }
}

// ---- the frame rate ---------------------------------------------------------
/// How often the frame rate is worked out anew, in microseconds.
pub const FPS_MICROS: u64 = 500_000;

/// A rolling frame-rate estimate.
#[derive(Clone, Copy, Debug, PartialEq, Eq, Structural)]
pub struct Fps {
    pub frames: u32,
    /// When counting began, in microseconds.
    pub since: u64,
    /// Frames per second, to the nearest whole number.
    pub value: u64,
}

/// A quotient to the nearest whole number; halfway, to the even one.
pub open spec fn nearest(n: int, by: int) -> int {
    let (q, rem) = (n / by, n % by);
    if 2 * rem > by || 2 * rem == by && q % 2 == 1 {
        q + 1
    } else {
        q
    }
}

impl Fps {
    pub fn new(now: u64) -> (r: Fps)
        ensures
            r == (Fps { frames: 0, since: now, value: 0 }),
    {
        Fps { frames: 0, since: now, value: 0 }
    }

    /// Count a frame; every half second, work out the rate and count anew.
    pub fn tick(&mut self, now: u64)
        requires
            old(self).frames < u32::MAX,
        ensures
            now - old(self).since < 500_000 ==> final(self).value == old(self).value,
            now - old(self).since >= 500_000 ==> final(self).frames == 0 && final(self).since == now,
            *final(self) == (if now - old(self).since >= FPS_MICROS {
                Fps {
                    frames: 0,
                    since: now,
                    value: nearest(
                        (old(self).frames + 1) * 1_000_000,
                        now - old(self).since,
                    ) as u64,
                }
            } else {
                Fps { frames: (old(self).frames + 1) as u32, ..*old(self) }
            }),
    {
        self.frames += 1;
        if now >= self.since && now - self.since >= FPS_MICROS {
            let by: u64 = now - self.since;
            let n: u64 = self.frames as u64 * 1_000_000;
            let (q, rem): (u64, u64) = (n / by, n % by);
            let up = rem > by - rem || (rem == by - rem && q % 2 == 1);
            assert(q <= n) by (nonlinear_arith)
                requires
                    q == n / by,
                    by >= 1,
            ;
            self.value = if up {
                q + 1
            } else {
                q
            };
            self.frames = 0;
            self.since = now;
        }
    }
}

/// Whether an event is for the window to act on: one that the browser used is
/// not, unless it is the window's business whoever used it.
pub fn reaches_the_window(consumed: bool, plumbing: bool) -> (r: bool)
    ensures
        r == (!consumed || plumbing),
{
    !consumed || plumbing
}

/// Holding a button counts for that button alone: the left one turns the scene
/// and either of the others moves it, until it is let go.
pub proof fn lemma_a_button_counts_while_held(mouse: Mouse, button: Button, down: bool)
    ensures
        button is Left ==> mouse.after(button, down).left == down,
        button is Left ==> mouse.after(button, down).pan == mouse.pan,
        button is Right || button is Middle ==> mouse.after(button, down).pan == down,
        button is Right || button is Middle ==> mouse.after(button, down).left == mouse.left,
        button is Other ==> mouse.after(button, down).left == mouse.left && mouse.after(
            button,
            down,
        ).pan == mouse.pan,
        down ==> mouse.after(button, down).seen == mouse.seen,
        !down && !mouse.after(button, down).left && !mouse.after(button, down).pan ==> !mouse.after(
            button,
            down,
        ).seen,
        !down && (mouse.after(button, down).left || mouse.after(button, down).pan) ==> mouse.after(
            button,
            down,
        ).seen == mouse.seen,
{
}

/// A count is rounded to the nearest whole number, and to the even one of two
/// that are as near.
pub proof fn lemma_counts_are_rounded(n: int, by: int)
    requires
        0 <= n,
        0 < by,
    ensures
        -by <= 2 * (nearest(n, by) * by - n) <= by,
        2 * (nearest(n, by) * by - n) == by || 2 * (n - nearest(n, by) * by) == by ==> nearest(
            n,
            by,
        ) % 2 == 0,
{
    let (q, rem) = (n / by, n % by);
    vstd::arithmetic::div_mod::lemma_fundamental_div_mod(n, by);
    assert((q + 1) * by == by * q + by) by (nonlinear_arith);
    assert(q * by == by * q) by (nonlinear_arith);
}

} // verus!
