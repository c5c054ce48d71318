//! The click simulator's planning step: turns a screen-center-relative
//! offset into the exact ordered batch of four input events to inject —
//! move to the target, button down, button up, move back — in the
//! normalized 0..65535 injection coordinate space. Injection itself is the
//! caller's; this module fixes what is injected.

use crate::config::ClickType;
use vstd::prelude::*;

verus! {

/// One synthetic input event in the injection protocol.
#[derive(Clone, Copy, PartialEq, Eq, Structural, Debug)]
pub enum InputEvent {
    MoveAbs { x: i32, y: i32 },
    ButtonDown { kind: ClickType },
    ButtonUp { kind: ClickType },
}

/// A pixel coordinate scaled into the 0..65535 injection space:
/// `pixel * 65535 / dim`, rounded to the nearest unit, halves away from
/// zero. Off-screen pixels scale to values outside 0..65535; they are not
/// clamped here.
pub open spec fn norm_coord(pixel: int, dim: int) -> int
    recommends
        dim > 0,
{
    if pixel >= 0 {
        (2 * pixel * 65535 + dim) / (2 * dim)
    } else {
        -((2 * (-pixel) * 65535 + dim) / (2 * dim))
    }
}

/// Saturation into the injection field's 32-bit range.
pub open spec fn sat_i32(v: int) -> int {
    if v > i32::MAX {
        i32::MAX as int
    } else if v < i32::MIN {
        i32::MIN as int
    } else {
        v
    }
}

/// The four events of one simulated click, in order: move to the normalized
/// target, button down, button up, move back to the normalized original
/// position. The restoration coordinate carries a fixed +1 unit bias, which
/// compensates a one-pixel rounding drift when re-landing on the original
/// pixel; the target coordinate carries no such bias.
pub open spec fn click_events(
    dx: int,
    dy: int,
    kind: ClickType,
    w: int,
    h: int,
    ox: int,
    oy: int,
) -> Seq<InputEvent>
    recommends
        w > 0,
        h > 0,
{
    seq![
        InputEvent::MoveAbs {
            x: sat_i32(norm_coord(w / 2 + dx, w)) as i32,
            y: sat_i32(norm_coord(h / 2 + dy, h)) as i32,
        },
        InputEvent::ButtonDown { kind },
        InputEvent::ButtonUp { kind },
        InputEvent::MoveAbs {
            x: sat_i32(norm_coord(ox, w) + 1) as i32,
            y: sat_i32(norm_coord(oy, h) + 1) as i32,
        },
    ]
}

/// The exact normalized coordinate, before saturation.
fn norm_i64(pixel: i64, dim: i64) -> (r: i64)
    requires
        1 <= dim <= 0x8000_0000,
        -0x4_0000_0000 <= pixel <= 0x4_0000_0000,
    ensures
        r == norm_coord(pixel as int, dim as int),
        -0x8_0000_0000_0000 <= r <= 0x8_0000_0000_0000,
{
    proof {
        let p = if pixel as int >= 0 { pixel as int } else { -(pixel as int) };
        vstd::arithmetic::div_mod::lemma_div_pos_is_pos(2 * p * 65535 + dim as int, 2 * dim as int);
    }
    if pixel >= 0 {
        let num = 2 * pixel * 65535 + dim;
        let q = num / (2 * dim);
        proof {
            vstd::arithmetic::div_mod::lemma_div_is_ordered_by_denominator(num as int, 1, 2 * dim as int);
        }
        q
    } else {
        let num = 2 * (-pixel) * 65535 + dim;
        let q = num / (2 * dim);
        proof {
            vstd::arithmetic::div_mod::lemma_div_is_ordered_by_denominator(num as int, 1, 2 * dim as int);
        }
        -q
    }
}

/// Saturates an exact normalized value into the 32-bit injection field.
fn sat_to_i32(v: i64) -> (r: i32)
    ensures
        r as int == sat_i32(v as int),
{
    if v > 2147483647 {
        2147483647
    } else if v < -2147483648 {
        -2147483648
    } else {
        v as i32
    }
}

/// Plans one simulated click. With a zero screen dimension there is no
/// display to click on, so no events are planned; otherwise the plan is
/// exactly the four-event batch of `click_events` — at most one logical
/// click per invocation, with the cursor restored afterwards.
pub fn plan_click(
    dx: i32,
    dy: i32,
    kind: ClickType,
    screen_w: i32,
    screen_h: i32,
    orig_x: i32,
    orig_y: i32,
) -> (r: Option<Vec<InputEvent>>)
    requires
        screen_w >= 0,
        screen_h >= 0,
    ensures
        r is None <==> (screen_w == 0 || screen_h == 0),
        r is Some ==> r->Some_0@ == click_events(
            dx as int,
            dy as int,
            kind,
            screen_w as int,
            screen_h as int,
            orig_x as int,
            orig_y as int,
        ),
{
    if screen_w == 0 || screen_h == 0 {
        return None;
    }
    let w = screen_w as i64;
    let h = screen_h as i64;
    let tx = sat_to_i32(norm_i64(w / 2 + dx as i64, w));
    let ty = sat_to_i32(norm_i64(h / 2 + dy as i64, h));
    let rx = sat_to_i32(norm_i64(orig_x as i64, w) + 1);
    let ry = sat_to_i32(norm_i64(orig_y as i64, h) + 1);
    let mut events: Vec<InputEvent> = Vec::new();
    events.push(InputEvent::MoveAbs { x: tx, y: ty });
    events.push(InputEvent::ButtonDown { kind });
    events.push(InputEvent::ButtonUp { kind });
    events.push(InputEvent::MoveAbs { x: rx, y: ry });
    proof {
        assert(w / 2 + dx as i64 == screen_w as int / 2 + dx as int) by {
            assert(w as int / 2 == screen_w as int / 2);
        }
        assert(events@ =~= click_events(
            dx as int,
            dy as int,
            kind,
            screen_w as int,
            screen_h as int,
            orig_x as int,
            orig_y as int,
        ));
    }
    Some(events)
}

} // verus!
