//! Screen regions selected by the user, and the hotkeys that steer painting.

use vstd::prelude::*;
use vstd::string::StringExecFns;
use crate::strings::{decimal, push_char, push_decimal};
use super::capture::PaletteEntry;

verus! {

/// A rectangle on screen.
#[derive(Debug, Clone, Copy)]
pub struct ScreenRegion {
    pub x: i32,
    pub y: i32,
    pub width: u32,
    pub height: u32,
}

impl ScreenRegion {
    /// The x coordinate just right of the region.
    pub fn right(&self) -> (r: i32)
        requires
            self.width <= i32::MAX,
            self.x + self.width <= i32::MAX,
        ensures
            r == self.x + self.width,
    {
        self.x + self.width as i32
    }

    /// The y coordinate just below the region.
    pub fn bottom(&self) -> (b: i32)
        requires
            self.height <= i32::MAX,
            self.y + self.height <= i32::MAX,
        ensures
            b == self.y + self.height,
    {
        self.y + self.height as i32
    }
}

/// The canvas and palette regions captured from the screen, with the palette's colors.
#[derive(Debug, Clone)]
pub struct CapturedLayout {
    pub canvas: ScreenRegion,
    pub palette: ScreenRegion,
    pub palette_colors: Vec<PaletteEntry>,
}

/// Distance between two coordinates.
pub open spec fn span(a: i32, b: i32) -> int {
    if a >= b { a - b } else { b - a }
}

/// The region spanned by two corner points, or the message for one smaller than
/// 10 pixels either way.
pub open spec fn region_between(p1: (i32, i32), p2: (i32, i32)) -> Result<ScreenRegion, Seq<char>> {
    let w = span(p1.0, p2.0);
    let h = span(p1.1, p2.1);
    if w < 10 || h < 10 {
        Err("Region too small ("@ + decimal(w as nat) + seq!['x'] + decimal(h as nat)
            + ("). Please select a larger area."@))
    } else {
        Ok(ScreenRegion {
            x: if p1.0 <= p2.0 { p1.0 } else { p2.0 },
            y: if p1.1 <= p2.1 { p1.1 } else { p2.1 },
            width: w as u32,
            height: h as u32,
        })
    }
}

/// The region between two corners the user marked; regions smaller than 10 pixels
/// either way are refused.
pub fn region_from_corners(p1: (i32, i32), p2: (i32, i32)) -> (r: Result<ScreenRegion, String>)
    ensures
        match region_between(p1, p2) {
            Ok(reg) => r == Ok::<ScreenRegion, String>(reg),
            Err(m) => r is Err && r->Err_0@ == m,
        },
{
    let x = if p1.0 <= p2.0 { p1.0 } else { p2.0 };
    let y = if p1.1 <= p2.1 { p1.1 } else { p2.1 };
    let width: u32 = if p1.0 >= p2.0 { (p1.0 as i64 - p2.0 as i64) as u32 } else { (p2.0 as i64 - p1.0 as i64) as u32 };
    let height: u32 = if p1.1 >= p2.1 { (p1.1 as i64 - p2.1 as i64) as u32 } else { (p2.1 as i64 - p1.1 as i64) as u32 };
    if width < 10 || height < 10 {
        let mut msg = String::from_str("Region too small (");
        push_decimal(&mut msg, width as u64);
        push_char(&mut msg, 'x');
        push_decimal(&mut msg, height as u64);
        msg.append("). Please select a larger area.");
        assert(msg@ =~= "Region too small ("@ + decimal(width as nat) + seq!['x'] + decimal(height as nat)
            + ("). Please select a larger area."@));
        return Err(msg);
    }
    Ok(ScreenRegion { x, y, width, height })
}

/// What a poll of the hotkeys asks for.
pub struct HotkeyAction {
    /// F10 was just pressed: toggle pause.
    pub toggle_pause: bool,
    /// Escape was just pressed: cancel painting and stop listening.
    pub cancel: bool,
}

/// Whether each hotkey was down at the previous poll.
pub struct HotkeyState {
    pub pause_was_down: bool,
    pub cancel_was_down: bool,
}

impl HotkeyState {
    /// No key down yet.
    pub fn new() -> (s: Self)
        ensures
            !s.pause_was_down,
            !s.cancel_was_down,
    {
        HotkeyState { pause_was_down: false, cancel_was_down: false }
    }

    /// One poll: a key acts when it goes down, not while it is held.
    pub fn poll(&mut self, pause_down: bool, cancel_down: bool) -> (a: HotkeyAction)
        ensures
            a.toggle_pause == (pause_down && !old(self).pause_was_down),
            a.cancel == (cancel_down && !old(self).cancel_was_down),
            final(self).pause_was_down == pause_down,
            final(self).cancel_was_down == cancel_down,
    {
        let toggle_pause = pause_down && !self.pause_was_down;
        self.pause_was_down = pause_down;
        let cancel = cancel_down && !self.cancel_was_down;
        self.cancel_was_down = cancel_down;
        HotkeyAction { toggle_pause, cancel }
    }
}

} // verus!
