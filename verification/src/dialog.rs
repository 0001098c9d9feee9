//! The window in which a text is entered: where it goes, and where everything in it goes.
use crate::geometry::{
    clamp_of, dpi_scale, lemma_px_range, lemma_scaled_px_bound, max_of, place_within, scaled, scaled_px, Rect, BASE_DPI, MAX_DPI,
};
use crate::message::PromptMessage;
use vstd::prelude::*;

verus! {

/// A part of a window by its corner and its size.
#[derive(Clone, Copy, Debug, PartialEq, Eq, Structural)]
pub struct Area {
    pub x: i32,
    pub y: i32,
    pub w: i32,
    pub h: i32,
}

/// The inside of the window: a field, and two buttons below it at the right.
#[derive(Clone, Copy, Debug, PartialEq, Eq, Structural)]
pub struct PromptLayout {
    pub width: i32,
    pub height: i32,
    pub edit: Area,
    pub ok: Area,
    pub cancel: Area,
    /// The height of the letters, negative as the system wants it.
    pub font: i32,
}

/// The inside of the window on a display.
pub open spec fn prompt_layout_of(dpi: int) -> PromptLayout {
    let pad = scaled_px(18, dpi);
    let width = scaled_px(360, dpi);
    let edit_h = scaled_px(30, dpi);
    let button_w = scaled_px(88, dpi);
    let button_h = scaled_px(32, dpi);
    let button_y = pad + edit_h + scaled_px(22, dpi);
    PromptLayout {
        width: width as i32,
        height: (button_y + button_h + pad) as i32,
        edit: Area { x: pad as i32, y: pad as i32, w: (width - pad * 2) as i32, h: edit_h as i32 },
        ok: Area {
            x: (width - pad - button_w * 2 - scaled_px(12, dpi)) as i32,
            y: button_y as i32,
            w: button_w as i32,
            h: button_h as i32,
        },
        cancel: Area {
            x: (width - pad - button_w) as i32,
            y: button_y as i32,
            w: button_w as i32,
            h: button_h as i32,
        },
        font: (-scaled_px(15, dpi)) as i32,
    }
}

/// Whether the inside of the window is within the machine's integers on a display.
pub open spec fn prompt_drawable(dpi: int) -> bool {
    &&& 2 * scaled_px(18, dpi) + scaled_px(30, dpi) + scaled_px(22, dpi) + scaled_px(32, dpi) <= i32::MAX
    &&& scaled_px(18, dpi) + 2 * scaled_px(88, dpi) + scaled_px(12, dpi) <= i32::MAX
}

proof fn lemma_prompt_range(dpi: int)
    requires
        0 <= dpi,
    ensures
        0 <= scaled_px(12, dpi) <= i32::MAX,
        0 <= scaled_px(15, dpi) <= i32::MAX,
        0 <= scaled_px(18, dpi) <= i32::MAX,
        0 <= scaled_px(22, dpi) <= i32::MAX,
        0 <= scaled_px(30, dpi) <= i32::MAX,
        0 <= scaled_px(32, dpi) <= i32::MAX,
        0 <= scaled_px(88, dpi) <= i32::MAX,
        0 <= scaled_px(360, dpi) <= i32::MAX,
{
    lemma_px_range(12, dpi);
    lemma_px_range(15, dpi);
    lemma_px_range(18, dpi);
    lemma_px_range(22, dpi);
    lemma_px_range(30, dpi);
    lemma_px_range(32, dpi);
    lemma_px_range(88, dpi);
    lemma_px_range(360, dpi);
}

/// The window can be laid out on every display that a window can report.
pub proof fn lemma_prompt_drawable(dpi: int)
    requires
        0 <= dpi <= MAX_DPI,
    ensures
        prompt_drawable(dpi),
{
    lemma_scaled_px_bound(12, dpi);
    lemma_scaled_px_bound(18, dpi);
    lemma_scaled_px_bound(22, dpi);
    lemma_scaled_px_bound(30, dpi);
    lemma_scaled_px_bound(32, dpi);
    lemma_scaled_px_bound(88, dpi);
}

/// Whether the inside of the window is within the machine's integers on the display of its parent.
pub fn can_layout_prompt(reported_dpi: u32) -> (r: bool)
    ensures
        r == prompt_drawable(max_of(reported_dpi as int, BASE_DPI as int)),
{
    let dpi: u32 = dpi_scale(reported_dpi);
    let pad: i64 = scaled(18, dpi) as i64;
    let down: i64 = 2 * pad + scaled(30, dpi) as i64 + scaled(22, dpi) as i64 + scaled(32, dpi) as i64;
    let across: i64 = pad + 2 * scaled(88, dpi) as i64 + scaled(12, dpi) as i64;
    down <= i32::MAX as i64 && across <= i32::MAX as i64
}

/// The inside of the window on the display of its parent.
pub fn prompt_layout(reported_dpi: u32) -> (r: PromptLayout)
    requires
        prompt_drawable(max_of(reported_dpi as int, BASE_DPI as int)),
    ensures
        r == prompt_layout_of(max_of(reported_dpi as int, BASE_DPI as int)),
{
    let dpi: u32 = dpi_scale(reported_dpi);
    proof {
        lemma_prompt_range(dpi as int);
    }
    let pad: i32 = scaled(18, dpi);
    let width: i32 = scaled(360, dpi);
    let edit_h: i32 = scaled(30, dpi);
    let button_w: i32 = scaled(88, dpi);
    let button_h: i32 = scaled(32, dpi);
    let gap: i32 = scaled(12, dpi);
    let button_y: i32 = pad + edit_h + scaled(22, dpi);
    PromptLayout {
        width,
        height: button_y + button_h + pad,
        edit: Area { x: pad, y: pad, w: width - pad * 2, h: edit_h },
        ok: Area { x: width - pad - button_w * 2 - gap, y: button_y, w: button_w, h: button_h },
        cancel: Area { x: width - pad - button_w, y: button_y, w: button_w, h: button_h },
        font: -scaled(15, dpi),
    }
}

/// The buttons stand in one row below the field, side by side, with the same margin on the right as
/// the field has on the left and as there is below them.
pub proof fn lemma_prompt_layout(dpi: int)
    requires
        0 <= dpi,
        prompt_drawable(dpi),
    ensures
        ({
            let p = prompt_layout_of(dpi);
            &&& p.edit.x + p.edit.w + p.edit.x == p.width
            &&& p.cancel.x + p.cancel.w + p.edit.x == p.width
            &&& p.ok.x + p.ok.w + scaled_px(12, dpi) == p.cancel.x
            &&& p.ok.y == p.cancel.y
            &&& p.edit.y + p.edit.h + scaled_px(22, dpi) == p.ok.y
            &&& p.ok.y + p.ok.h + p.edit.y == p.height
        }),
{
    lemma_prompt_range(dpi);
}

/// `n / d`, toward zero; `d` is positive.
pub open spec fn cut_quotient(n: int, d: int) -> int {
    if n < 0 {
        -((-n) / d)
    } else {
        n / d
    }
}

/// Where the window goes: in the middle of its parent across, a third of the way down, and kept in
/// the work area.
pub open spec fn prompt_place_of(parent: Rect, wa: Rect, w: int, h: int) -> (int, int) {
    (
        clamp_of(
            parent.left + cut_quotient(parent.right - parent.left - w, 2),
            wa.left as int,
            wa.right - w,
        ),
        clamp_of(
            parent.top + cut_quotient(parent.bottom - parent.top - h, 3),
            wa.top as int,
            wa.bottom - h,
        ),
    )
}

/// Whether the window fits in the work area.
pub open spec fn prompt_fits(wa: Rect, w: int, h: int) -> bool {
    wa.left <= wa.right - w <= i32::MAX && wa.top <= wa.bottom - h <= i32::MAX
}

fn cut(n: i64, d: i64) -> (r: i64)
    requires
        0 < d <= 3,
        -0x4_0000_0000 <= n <= 0x4_0000_0000,
    ensures
        r == cut_quotient(n as int, d as int),
        -0x4_0000_0000 <= r <= 0x4_0000_0000,
{
    if n < 0 {
        -((-n) / d)
    } else {
        n / d
    }
}

/// Where the window goes, given its outer size.
pub fn prompt_place(parent: Rect, wa: Rect, w: i32, h: i32) -> (r: (i32, i32))
    requires
        prompt_fits(wa, w as int, h as int),
    ensures
        (r.0 as int, r.1 as int) == prompt_place_of(parent, wa, w as int, h as int),
{
    let dx: i64 = cut(parent.right as i64 - parent.left as i64 - w as i64, 2);
    let dy: i64 = cut(parent.bottom as i64 - parent.top as i64 - h as i64, 3);
    (
        place_within(parent.left as i64 + dx, wa.left, wa.right, w as i64),
        place_within(parent.top as i64 + dy, wa.top, wa.bottom, h as i64),
    )
}

/// Whether the window fits in the work area.
pub fn can_place_prompt(wa: Rect, w: i32, h: i32) -> (r: bool)
    ensures
        r == prompt_fits(wa, w as int, h as int),
{
    let right: i64 = wa.right as i64 - w as i64;
    let bottom: i64 = wa.bottom as i64 - h as i64;
    wa.left as i64 <= right && right <= i32::MAX as i64 && wa.top as i64 <= bottom && bottom <= i32::MAX as i64
}

/// A window that fits in the work area lies inside it.
pub proof fn lemma_prompt_inside(parent: Rect, wa: Rect, w: int, h: int)
    requires
        prompt_fits(wa, w, h),
    ensures
        ({
            let p = prompt_place_of(parent, wa, w, h);
            wa.left <= p.0 && p.0 + w <= wa.right && wa.top <= p.1 && p.1 + h <= wa.bottom
        }),
{
}

/// What a prompt gives: the text that was entered where it was accepted, and nothing where it ended in
/// any other way.
pub fn prompt_result(end: PromptMessage, text: String) -> (r: Option<String>)
    ensures
        r == (if end == PromptMessage::Accept { Some(text) } else { None }),
{
    match end {
        PromptMessage::Accept => Some(text),
        _ => None,
    }
}

/// How many units of an entered text are taken: as many as the system reports, and no more than
/// there is room for.
pub fn entered_len(reported: i32, room: usize) -> (r: usize)
    ensures
        r == (if reported < 0 {
            0
        } else if reported > room {
            room as int
        } else {
            reported as int
        }),
{
    if reported < 0 {
        0
    } else if reported as u128 > room as u128 {
        room
    } else {
        reported as usize
    }
}

/// How many units stand before the first zero.
pub fn until_zero(units: &Vec<u16>) -> (r: usize)
    ensures
        r <= units@.len(),
        forall|i: int| 0 <= i < r ==> #[trigger] units@[i] != 0,
        r < units@.len() ==> units@[r as int] == 0,
{
    let n: usize = units.len();
    let mut i: usize = 0;
    while i < n
        invariant
            i <= n,
            n == units@.len(),
            forall|j: int| 0 <= j < i ==> #[trigger] units@[j] != 0,
        decreases n - i,
    {
        if units[i] == 0 {
            return i;
        }
        i = i + 1;
    }
    n
}

} // verus!
