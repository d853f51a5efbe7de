use vstd::prelude::*;

verus! {

/// Two presses of the stylus button closer together than this switch tools.
pub const DOUBLE_CLICK_MS: u64 = 300;

/// The state of the stylus button: whether it is held, and when it was last
/// pressed (milliseconds on the caller's clock).
#[derive(Clone, Copy, Debug, PartialEq, Eq, Structural)]
pub struct StylusButton {
    pub pressed: bool,
    pub last_press_ms: Option<u64>,
}

/// Milliseconds from `then` to `now`; none when the clock went back.
pub open spec fn elapsed(then: u64, now: u64) -> int {
    if now >= then {
        now - then
    } else {
        0
    }
}

impl StylusButton {
    pub fn new() -> (b: StylusButton)
        ensures
            !b.pressed,
            b.last_press_ms.is_none(),
    {
        StylusButton { pressed: false, last_press_ms: None }
    }

    /// The button went down at `now_ms`. Returns whether this press completes a
    /// double click; a press while the button is held changes nothing.
    pub fn press(&mut self, now_ms: u64) -> (double_click: bool)
        ensures
            old(self).pressed ==> !double_click && *final(self) == *old(self),
            !old(self).pressed ==> double_click == (old(self).last_press_ms matches Some(t)
                && elapsed(t, now_ms) < DOUBLE_CLICK_MS) && *final(self) == (StylusButton {
                pressed: true,
                last_press_ms: Some(now_ms),
            }),
    {
        if self.pressed {
            return false;
        }
        let double_click = match self.last_press_ms {
            Some(t) => {
                let gap = if now_ms >= t { now_ms - t } else { 0 };
                gap < DOUBLE_CLICK_MS
            },
            None => false,
        };
        self.pressed = true;
        self.last_press_ms = Some(now_ms);
        double_click
    }

    /// The button went up.
    pub fn release(&mut self)
        ensures
            *final(self) == (StylusButton { pressed: false, ..*old(self) }),
    {
        self.pressed = false;
    }
}

} // verus!
