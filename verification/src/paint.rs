//! What a fence looks like: where everything on it goes, and the colours of its pixels.
use crate::bits::{decode, decoded, fraction_bits, is_special};
use crate::fence::{grid_dims, total_pages, Fence};
use crate::float::{
    canonical, distance, float_abs, float_add, float_div, float_floor, float_le, float_mul, float_neg, float_round,
    float_trunc, saturate, Float, SINGLE,
};
use crate::geometry::{
    cell_h, cell_h_of, clamp_of, dpi_ratio, drawable, icon, icon_of, label_h, larger, lemma_cell_bounds,
    lemma_cell_range, margin, max_of, rail, ratio, scaled_px, single, title_h, MAX_DPI, MAX_ICON,
};
use crate::order::{lemma_le_total, lemma_le_zero};
use crate::precision::{lemma_exact_quotient, lemma_int_add, lemma_int_parts, lemma_int_product};
use crate::opacity::{alpha_of, background_alpha};
use crate::text::{label_lines, label_units, split_label, text_units};
use vstd::prelude::*;

verus! {

/// A rectangle in single precision.
#[derive(Clone, Copy, Debug)]
pub struct RectF {
    pub x: Float,
    pub y: Float,
    pub w: Float,
    pub h: Float,
}

impl RectF {
    pub open spec fn is(self, x: (int, int), y: (int, int), w: (int, int), h: (int, int)) -> bool {
        self.x@ == x && self.y@ == y && self.w@ == w && self.h@ == h
    }

    pub open spec fn fits(self, k: int) -> bool {
        self.x.fits(SINGLE as nat, k) && self.y.fits(SINGLE as nat, k) && self.w.fits(SINGLE as nat, k)
            && self.h.fits(SINGLE as nat, k)
    }
}

pub open spec fn plus(a: (int, int), b: (int, int)) -> (int, int) {
    float_add(SINGLE as nat, a, b)
}

pub open spec fn minus(a: (int, int), b: (int, int)) -> (int, int) {
    float_add(SINGLE as nat, a, float_neg(b))
}

pub open spec fn times(a: (int, int), b: (int, int)) -> (int, int) {
    float_mul(SINGLE as nat, a, b)
}

/// The quotient; `b` is positive.
pub open spec fn over(a: (int, int), b: (int, int)) -> (int, int) {
    float_div(SINGLE as nat, a, b)
}

fn whole(v: i64) -> (r: Float)
    ensures
        r@ == single(v as int),
        r.fits(SINGLE as nat, 200),
        v > 0 ==> r.mant > 0,
{
    Float::from_int(SINGLE, v as i128)
}

fn sum(a: Float, b: Float) -> (r: Float)
    requires
        a.fits(SINGLE as nat, 20000),
        b.fits(SINGLE as nat, 20000),
    ensures
        r@ == plus(a@, b@),
        canonical(SINGLE as nat, r@),
        distance(r.exp as int) <= distance(a.exp as int) + distance(b.exp as int) + 200,
{
    a.add(SINGLE, b)
}

fn difference(a: Float, b: Float) -> (r: Float)
    requires
        a.fits(SINGLE as nat, 20000),
        b.fits(SINGLE as nat, 20000),
    ensures
        r@ == minus(a@, b@),
        canonical(SINGLE as nat, r@),
        distance(r.exp as int) <= distance(a.exp as int) + distance(b.exp as int) + 200,
{
    proof {
        vstd::arithmetic::power2::lemma2_to64();
    }
    a.add(SINGLE, b.neg())
}

fn product(a: Float, b: Float) -> (r: Float)
    requires
        a.fits(SINGLE as nat, 20000),
        b.fits(SINGLE as nat, 20000),
    ensures
        r@ == times(a@, b@),
        canonical(SINGLE as nat, r@),
        distance(r.exp as int) <= distance(a.exp as int) + distance(b.exp as int) + 200,
{
    a.mul(SINGLE, b)
}

fn quotient(a: Float, b: Float) -> (r: Float)
    requires
        a.fits(SINGLE as nat, 20000),
        b.fits(SINGLE as nat, 20000),
        b.mant > 0,
    ensures
        r@ == over(a@, b@),
        canonical(SINGLE as nat, r@),
        distance(r.exp as int) <= distance(a.exp as int) + distance(b.exp as int) + 200,
{
    a.div(SINGLE, b)
}

/// The opacity of a fence that fades while the mouse is elsewhere.
pub const GHOST_ALPHA: u8 = 40;

/// How a fence is drawn.
#[derive(Clone, Copy, Debug, PartialEq, Eq, Structural)]
pub struct Frame {
    pub w: i32,
    pub h: i32,
    /// The opacity of the panel.
    pub background: u8,
    /// The opacity of the whole.
    pub global: u8,
}

/// How a fence is drawn, where it can be: the panel has the opacity of the fence, and the whole fades
/// in ghost mode unless the mouse is over it.
pub open spec fn frame_of(f: Fence, ghost_mode: bool) -> Option<Frame> {
    if f.cfg.w <= 0 || f.cfg.h <= 0 || f.hwnd == 0 {
        None
    } else {
        Some(
            Frame {
                w: f.cfg.w,
                h: f.cfg.h,
                background: alpha_of(f.cfg.opacity as int) as u8,
                global: if ghost_mode && !f.hover_visible { GHOST_ALPHA } else { 255 },
            },
        )
    }
}

/// How a fence is drawn, where it can be.
pub fn render_fence(f: &Fence, ghost_mode: bool) -> (r: Option<Frame>)
    ensures
        r == frame_of(*f, ghost_mode),
{
    if f.cfg.w <= 0 || f.cfg.h <= 0 || f.hwnd == 0 {
        return None;
    }
    let global: u8 = if ghost_mode && !f.hover_visible { GHOST_ALPHA } else { 255 };
    Some(Frame { w: f.cfg.w, h: f.cfg.h, background: background_alpha(f.cfg.opacity), global })
}

/// Whether the surface that a fence was drawn on last has another size than the one needed.
pub fn needs_surface(f: &Fence, w: i32, h: i32) -> (r: bool)
    ensures
        r == (f.cache != Some((w, h))),
{
    match f.cache {
        Some(c) => c.0 != w || c.1 != h,
        None => true,
    }
}

/// Notes the surface that was made for a fence, or that none could be made.
pub fn ensure_cache(f: &mut Fence, w: i32, h: i32, made: bool) -> (r: bool)
    ensures
        r == (old(f).cache == Some((w, h)) || made),
        *final(f) == (Fence { cache: if r { Some((w, h)) } else { None }, ..*old(f) }),
{
    if needs_surface(f, w, h) {
        f.cache = if made { Some((w, h)) } else { None };
        made
    } else {
        true
    }
}

/// The colour of the panel.
pub open spec fn tint_of(background: int) -> int {
    (background * 170 / 255) * 0x100_0000 + 0x1a_1c20
}

/// The colour of the panel.
pub fn tint(background: u8) -> (r: u32)
    ensures
        r == tint_of(background as int),
{
    let a: u32 = (background as u32) * 170 / 255;
    a * 0x100_0000 + 0x1a_1c20
}

/// The size of the title's letters.
pub open spec fn title_size_of(dpi: int) -> (int, int) {
    times((0xb8_0000, -20), dpi_ratio(dpi))
}

/// The size of the title's letters: 11.5 logical pixels.
pub fn font_title(dpi: u32) -> (r: Float)
    ensures
        r@ == title_size_of(dpi as int),
{
    product(constant(0xb8_0000, -20), ratio(dpi))
}

/// The size of a label's letters: 12 logical pixels.
pub fn font_label(dpi: u32) -> (r: Float)
    ensures
        r@ == times(single(12), dpi_ratio(dpi as int)),
{
    product(whole(12), ratio(dpi))
}

/// The rectangle of the title: the whole width but for the rail.
pub fn title_rect(f: &Fence) -> (r: RectF)
    ensures
        r.is(
            single(0),
            single(0),
            single(max_of(f.cfg.w - scaled_px(22, f.dpi as int), 1)),
            single(scaled_px(30, f.dpi as int)),
        ),
{
    let w: i64 = f.cfg.w as i64 - rail(f.dpi) as i64;
    let w: i64 = if w >= 1 { w } else { 1 };
    RectF { x: whole(0), y: whole(0), w: whole(w), h: whole(title_h(f.dpi) as i64) }
}

/// The title that is shown: the fence's own, and for a folder without one the folder's name.
pub fn display_title(f: &Fence, folder_name: Option<String>) -> (r: String)
    ensures
        r@ == (if f.cfg.folder is Some && f.cfg.title@.len() == 0 {
            match folder_name {
                Some(n) => n@,
                None => Seq::empty(),
            }
        } else {
            f.cfg.title@
        }),
{
    if f.cfg.folder.is_some() && f.cfg.title.as_str().unicode_len() == 0 {
        match folder_name {
            Some(n) => n,
            None => String::new(),
        }
    } else {
        f.cfg.title.clone()
    }
}

/// What an empty fence says.
pub fn empty_hint(f: &Fence) -> (r: &'static str)
    ensures
        r@ == (if f.cfg.folder is Some { "空文件夹"@ } else { "将文件拖入此处收纳"@ }),
{
    if f.cfg.folder.is_some() {
        "空文件夹"
    } else {
        "将文件拖入此处收纳"
    }
}

/// Where an empty fence says so.
pub fn hint_rect(f: &Fence) -> (r: RectF)
    ensures
        r.is(
            single(10),
            plus(single(scaled_px(30, f.dpi as int)), single(10)),
            single(max_of(f.cfg.w - 20, 1)),
            single(max_of(f.cfg.h - scaled_px(30, f.dpi as int) - 20, 1)),
        ),
{
    let th: i64 = title_h(f.dpi) as i64;
    let w: i64 = f.cfg.w as i64 - 20;
    let w: i64 = if w >= 1 { w } else { 1 };
    let h: i64 = f.cfg.h as i64 - th - 20;
    let h: i64 = if h >= 1 { h } else { 1 };
    RectF { x: whole(10), y: sum(whole(th), whole(10)), w: whole(w), h: whole(h) }
}

/// The width of a column as it is drawn: the columns share the width between them.
pub open spec fn column_width(f: Fence, icon_px: u32) -> (int, int) {
    over(
        single(f.cfg.w - 2 * scaled_px(10, f.dpi as int) - scaled_px(22, f.dpi as int)),
        single(f.cols(icon_px)),
    )
}

/// Where a column starts.
pub open spec fn column_x(f: Fence, icon_px: u32, col: int) -> (int, int) {
    plus(single(scaled_px(10, f.dpi as int)), times(single(col), column_width(f, icon_px)))
}

/// Where a row starts; it moves with the row at the top.
pub open spec fn row_y(f: Fence, icon_px: u32, row: int) -> (int, int) {
    plus(
        plus(single(scaled_px(30, f.dpi as int)), single(scaled_px(10, f.dpi as int))),
        times(minus(single(row), f.top_row@), single(cell_h_of(icon_px as int, f.dpi as int))),
    )
}

/// The first row that is drawn: one above the row at the top.
pub open spec fn first_row(f: Fence) -> int {
    saturate(float_floor(f.top_row@)) - 1
}

/// The colour behind a selected entry, and behind one that the mouse is over.
pub const SELECTED_COLOR: u32 = 0x55ff_ffff;

pub const HOVER_COLOR: u32 = 0x22ff_ffff;

/// The colour behind an entry.
pub open spec fn highlight_of(f: Fence, idx: int) -> Option<u32> {
    if f.selected is Some && f.selected->0 == idx {
        Some(SELECTED_COLOR)
    } else if f.hover is Some && f.hover->0 == idx {
        Some(HOVER_COLOR)
    } else {
        None
    }
}

/// An entry as it is drawn.
#[derive(Clone, Copy, Debug)]
pub struct Cell {
    pub index: usize,
    /// The colour behind it.
    pub highlight: Option<u32>,
    /// Where that colour goes.
    pub panel: RectF,
    /// Where its icon goes.
    pub icon: (i32, i32),
    /// Where its name goes.
    pub label: RectF,
}

impl Cell {
    /// Whether this is the entry in a row and a column.
    pub open spec fn is(self, f: Fence, icon_px: u32, row: int, col: int) -> bool {
        let x = column_x(f, icon_px, col);
        let y = row_y(f, icon_px, row);
        let cw = column_width(f, icon_px);
        let size = icon_of(icon_px as int, f.dpi as int);
        let lh = scaled_px(38, f.dpi as int);
        &&& self.index == row * f.cols(icon_px) + col
        &&& self.highlight == highlight_of(f, self.index as int)
        &&& self.panel.is(
            minus(x, single(3)),
            minus(y, single(2)),
            plus(cw, single(6)),
            plus(single(size + lh), single(4)),
        )
        &&& self.icon.0 == saturate(float_round(plus(x, over(minus(cw, single(size)), single(2)))))
        &&& self.icon.1 == saturate(float_round(y))
        &&& self.label.is(
            minus(x, single(2)),
            plus(plus(y, single(size)), single(3)),
            plus(cw, single(4)),
            minus(single(lh), single(4)),
        )
        &&& self.panel.fits(9500)
        &&& self.label.fits(9800)
    }
}

/// The entries of a row from a column on, by row and column.
pub open spec fn row_cells(row: int, col: int, cols: int, n: int) -> Seq<(int, int)>
    decreases cols - col,
{
    if col >= cols || row * cols + col >= n {
        Seq::empty()
    } else {
        seq![(row, col)] + row_cells(row, col + 1, cols, n)
    }
}

/// The entries that are drawn from a row on, before the row `end`; rows below the fence are left out.
pub open spec fn drawn_cells(f: Fence, icon_px: u32, row: int, end: int) -> Seq<(int, int)>
    decreases end - row,
{
    if row >= end {
        Seq::empty()
    } else if row < 0 {
        drawn_cells(f, icon_px, row + 1, end)
    } else if float_le(single(f.cfg.h as int), row_y(f, icon_px, row)) {
        Seq::empty()
    } else {
        row_cells(row, 0, f.cols(icon_px), f.entries@.len() as int) + drawn_cells(f, icon_px, row + 1, end)
    }
}

/// All entries that are drawn: those of the page, and of a row above and one below it, which show
/// while the page moves.
pub open spec fn grid_cells(f: Fence, icon_px: u32) -> Seq<(int, int)> {
    if f.rows(icon_px) > 0 {
        drawn_cells(f, icon_px, first_row(f), first_row(f) + f.rows(icon_px) + 2)
    } else {
        Seq::empty()
    }
}

fn column_width_exec(f: &Fence, cols: i32) -> (r: Float)
    requires
        cols >= 1,
    ensures
        r@ == over(
            single(f.cfg.w - 2 * scaled_px(10, f.dpi as int) - scaled_px(22, f.dpi as int)),
            single(cols as int),
        ),
        r.fits(SINGLE as nat, 600),
{
    let m: i64 = margin(f.dpi) as i64;
    quotient(whole(f.cfg.w as i64 - 2 * m - rail(f.dpi) as i64), whole(cols as i64))
}

fn whole_sum(a: i64, b: i64) -> (r: Float)
    ensures
        r@ == plus(single(a as int), single(b as int)),
        r.fits(SINGLE as nat, 600),
{
    sum(whole(a), whole(b))
}

fn row_offset(top_row: Float, row: i64, height: i64) -> (r: Float)
    requires
        top_row.fits(SINGLE as nat, 7000),
    ensures
        r@ == times(minus(single(row as int), top_row@), single(height as int)),
        r.fits(SINGLE as nat, 8000),
{
    product(difference(whole(row), top_row), whole(height))
}

fn row_y_exec(f: &Fence, icon_px: u32, row: i64) -> (r: Float)
    requires
        drawable(icon_px, f.dpi),
        f.top_row.fits(SINGLE as nat, 7000),
    ensures
        r@ == row_y(*f, icon_px, row as int),
        r.fits(SINGLE as nat, 9000),
{
    proof {
        lemma_cell_range(icon_px as int, f.dpi as int);
    }
    let top = whole_sum(title_h(f.dpi) as i64, margin(f.dpi) as i64);
    sum(top, row_offset(f.top_row, row, cell_h(icon_px, f.dpi) as i64))
}

fn highlight(f: &Fence, idx: usize) -> (r: Option<u32>)
    ensures
        r == highlight_of(*f, idx as int),
{
    let selected: bool = match f.selected {
        Some(i) => i == idx,
        None => false,
    };
    let hover: bool = match f.hover {
        Some(i) => i == idx,
        None => false,
    };
    if selected {
        Some(SELECTED_COLOR)
    } else if hover {
        Some(HOVER_COLOR)
    } else {
        None
    }
}

fn cell_panel(x: Float, y: Float, cw: Float, extent: i64) -> (r: RectF)
    requires
        x.fits(SINGLE as nat, 2000),
        y.fits(SINGLE as nat, 9000),
        cw.fits(SINGLE as nat, 600),
    ensures
        r.is(minus(x@, single(3)), minus(y@, single(2)), plus(cw@, single(6)), plus(single(extent as int), single(4))),
        r.fits(9500),
{
    RectF {
        x: difference(x, whole(3)),
        y: difference(y, whole(2)),
        w: sum(cw, whole(6)),
        h: sum(whole(extent), whole(4)),
    }
}

fn cell_icon_x(x: Float, cw: Float, size: i64) -> (r: i32)
    requires
        x.fits(SINGLE as nat, 2000),
        cw.fits(SINGLE as nat, 600),
    ensures
        r == saturate(float_round(plus(x@, over(minus(cw@, single(size as int)), single(2))))),
{
    let inset = quotient(difference(cw, whole(size)), whole(2));
    sum(x, inset).round_i32(SINGLE)
}

fn cell_label(x: Float, y: Float, cw: Float, size: i64, lh: i64) -> (r: RectF)
    requires
        x.fits(SINGLE as nat, 2000),
        y.fits(SINGLE as nat, 9000),
        cw.fits(SINGLE as nat, 600),
    ensures
        r.is(
            minus(x@, single(2)),
            plus(plus(y@, single(size as int)), single(3)),
            plus(cw@, single(4)),
            minus(single(lh as int), single(4)),
        ),
        r.fits(9800),
{
    RectF {
        x: difference(x, whole(2)),
        y: sum(sum(y, whole(size)), whole(3)),
        w: sum(cw, whole(4)),
        h: difference(whole(lh), whole(4)),
    }
}

fn column_x_exec(f: &Fence, col: i32, cw: Float) -> (r: Float)
    requires
        cw.fits(SINGLE as nat, 600),
    ensures
        r@ == plus(single(scaled_px(10, f.dpi as int)), times(single(col as int), cw@)),
        r.fits(SINGLE as nat, 2000),
{
    sum(whole(margin(f.dpi) as i64), product(whole(col as i64), cw))
}

fn draw_cell(f: &Fence, icon_px: u32, row: i64, col: i32, idx: usize, y: Float, cw: Float) -> (r: Cell)
    requires
        drawable(icon_px, f.dpi),
        y@ == row_y(*f, icon_px, row as int),
        y.fits(SINGLE as nat, 9000),
        cw@ == column_width(*f, icon_px),
        cw.fits(SINGLE as nat, 600),
        idx == row * f.cols(icon_px) + col,
    ensures
        r.is(*f, icon_px, row as int, col as int),
{
    proof {
        lemma_cell_range(icon_px as int, f.dpi as int);
    }
    let size: i64 = icon(icon_px, f.dpi) as i64;
    let lh: i64 = label_h(f.dpi) as i64;
    let x = column_x_exec(f, col, cw);
    let panel = cell_panel(x, y, cw, size + lh);
    let ix: i32 = cell_icon_x(x, cw, size);
    let iy: i32 = y.round_i32(SINGLE);
    let label = cell_label(x, y, cw, size, lh);
    Cell { index: idx, highlight: highlight(f, idx), panel, icon: (ix, iy), label }
}

/// Whether cells are those of a list of rows and columns.
pub open spec fn cells_are(cells: Seq<Cell>, f: Fence, icon_px: u32, at: Seq<(int, int)>) -> bool {
    &&& cells.len() == at.len()
    &&& forall|i: int| 0 <= i < cells.len() ==> (#[trigger] cells[i]).is(f, icon_px, at[i].0, at[i].1)
}

fn draw_row(f: &Fence, icon_px: u32, row: i64, cols: i32, y: Float, cw: Float, out: &mut Vec<Cell>, done: Ghost<Seq<(int, int)>>)
    requires
        drawable(icon_px, f.dpi),
        0 <= row <= 0x1_0000_0000,
        cols == f.cols(icon_px),
        cols >= 1,
        y@ == row_y(*f, icon_px, row as int),
        y.fits(SINGLE as nat, 9000),
        cw@ == column_width(*f, icon_px),
        cw.fits(SINGLE as nat, 600),
        cells_are(old(out)@, *f, icon_px, done@),
    ensures
        cells_are(
            final(out)@,
            *f,
            icon_px,
            done@ + row_cells(row as int, 0, cols as int, f.entries@.len() as int),
        ),
{
    let n: i128 = f.entries.len() as i128;
    let mut col: i32 = 0;
    let ghost all = row_cells(row as int, 0, cols as int, n as int);
    let ghost mut at = done@;
    assert(at + all =~= done@ + all);
    while col < cols
        invariant
            drawable(icon_px, f.dpi),
            0 <= row <= 0x1_0000_0000,
            0 <= col <= cols,
            cols == f.cols(icon_px),
            cols >= 1,
            y@ == row_y(*f, icon_px, row as int),
            y.fits(SINGLE as nat, 9000),
            cw@ == column_width(*f, icon_px),
            cw.fits(SINGLE as nat, 600),
            n == f.entries@.len(),
            n <= usize::MAX,
            all == row_cells(row as int, 0, cols as int, n as int),
            cells_are(out@, *f, icon_px, at),
            at + row_cells(row as int, col as int, cols as int, n as int) == done@ + all,
        decreases cols - col,
    {
        assert(0 <= row as int * cols as int <= 0x1_0000_0000 * 0x8000_0000) by (nonlinear_arith)
            requires
                0 <= row <= 0x1_0000_0000,
                1 <= cols <= 0x7fff_ffff,
        ;
        let idx: i128 = row as i128 * cols as i128 + col as i128;
        assert(idx == row as int * f.cols(icon_px) + col);
        if idx >= n {
            assert(at + row_cells(row as int, col as int, cols as int, n as int) =~= at);
            return;
        }
        let ghost rest = row_cells(row as int, col + 1, cols as int, n as int);
        assert(at + (seq![(row as int, col as int)] + rest) =~= at.push((row as int, col as int)) + rest);
        let cell = draw_cell(f, icon_px, row, col, idx as usize, y, cw);
        out.push(cell);
        proof {
            at = at.push((row as int, col as int));
        }
        col = col + 1;
    }
    assert(at + row_cells(row as int, col as int, cols as int, n as int) =~= at);
}

/// Where the entries of a fence are drawn.
pub fn draw_grid(f: &Fence, icon_px: u32) -> (r: Vec<Cell>)
    requires
        drawable(icon_px, f.dpi),
        f.top_row.fits(SINGLE as nat, 7000),
    ensures
        cells_are(r@, *f, icon_px, grid_cells(*f, icon_px)),
{
    let mut out: Vec<Cell> = Vec::new();
    let (cols, rows) = grid_dims(f, icon_px);
    if rows <= 0 {
        return out;
    }
    let cw = column_width_exec(f, cols);
    let start: i64 = f.top_row.floor_i32(SINGLE) as i64 - 1;
    let end: i64 = start + rows as i64 + 2;
    let h = whole(f.cfg.h as i64);
    let mut row: i64 = start;
    let ghost all = drawn_cells(*f, icon_px, start as int, end as int);
    let ghost mut at: Seq<(int, int)> = Seq::empty();
    assert(at + all =~= all);
    while row < end
        invariant
            drawable(icon_px, f.dpi),
            f.top_row.fits(SINGLE as nat, 7000),
            start <= row <= end,
            end <= 0x1_0000_0000,
            start >= -0x1_0000_0000,
            all == grid_cells(*f, icon_px),
            cols == f.cols(icon_px),
            cols >= 1,
            h@ == single(f.cfg.h as int),
            h.fits(SINGLE as nat, 200),
            cw@ == column_width(*f, icon_px),
            cw.fits(SINGLE as nat, 600),
            cells_are(out@, *f, icon_px, at),
            at + drawn_cells(*f, icon_px, row as int, end as int) == all,
        decreases end - row,
    {
        if row >= 0 {
            let y = row_y_exec(f, icon_px, row);
            if h.le(SINGLE, y) {
                assert(at + drawn_cells(*f, icon_px, row as int, end as int) =~= at);
                return out;
            }
            draw_row(f, icon_px, row, cols, y, cw, &mut out, Ghost(at));
            proof {
                let cells = row_cells(row as int, 0, cols as int, f.entries@.len() as int);
                let rest = drawn_cells(*f, icon_px, row + 1, end as int);
                assert(at + (cells + rest) =~= (at + cells) + rest);
                at = at + cells;
            }
        }
        row = row + 1;
    }
    assert(at + drawn_cells(*f, icon_px, row as int, end as int) =~= at);
    out
}

/// The part of the fence that entries are drawn in: from the top of the page, over its rows. Rows of
/// the neighbouring pages lie just outside it while the page is at rest.
pub fn grid_clip(f: &Fence, icon_px: u32) -> (r: (Float, Float))
    requires
        drawable(icon_px, f.dpi),
    ensures
        r.0@ == single(scaled_px(30, f.dpi as int) + scaled_px(10, f.dpi as int)),
        r.1@ == times(single(f.rows(icon_px)), single(cell_h_of(icon_px as int, f.dpi as int))),
{
    proof {
        lemma_cell_range(icon_px as int, f.dpi as int);
    }
    let (_, rows) = grid_dims(f, icon_px);
    let top = whole(title_h(f.dpi) as i64 + margin(f.dpi) as i64);
    (top, product(whole(rows as i64), whole(cell_h(icon_px, f.dpi) as i64)))
}

/// The part of the fence that icons are drawn in, in whole pixels; nothing where there is no entry.
pub fn icon_clip(f: &Fence, icon_px: u32) -> (r: (i32, i64))
    requires
        drawable(icon_px, f.dpi),
    ensures
        r.0 == scaled_px(30, f.dpi as int) + scaled_px(10, f.dpi as int),
        r.1 == r.0 + (if f.entries@.len() > 0 {
            f.rows(icon_px) * cell_h_of(icon_px as int, f.dpi as int)
        } else {
            0
        }),
{
    proof {
        lemma_cell_range(icon_px as int, f.dpi as int);
    }
    let top: i32 = title_h(f.dpi) + margin(f.dpi);
    if f.entries.len() == 0 {
        return (top, top as i64);
    }
    let (_, rows) = grid_dims(f, icon_px);
    let ch: i32 = cell_h(icon_px, f.dpi);
    assert(0 <= rows as int * ch as int <= 0x7fff_ffff * 0x7fff_ffff) by (nonlinear_arith)
        requires
            0 <= rows <= 0x7fff_ffff,
            0 <= ch <= 0x7fff_ffff,
    ;
    (top, top as i64 + rows as i64 * ch as i64)
}

/// The entries of a row are in it, in their columns, and there.
pub proof fn lemma_row_cells(row: int, col: int, cols: int, n: int)
    requires
        row >= 0,
        0 <= col,
    ensures
        forall|i: int|
            0 <= i < row_cells(row, col, cols, n).len() ==> ({
                let p = #[trigger] row_cells(row, col, cols, n)[i];
                p.0 == row && col <= p.1 < cols && p.0 * cols + p.1 < n
            }),
    decreases cols - col,
{
    if col < cols && row * cols + col < n {
        lemma_row_cells(row, col + 1, cols, n);
        let rest = row_cells(row, col + 1, cols, n);
        let all = row_cells(row, col, cols, n);
        assert forall|i: int| 0 <= i < all.len() implies ({
            let p = #[trigger] all[i];
            p.0 == row && col <= p.1 < cols && p.0 * cols + p.1 < n
        }) by {
            if i > 0 {
                assert(all[i] == rest[i - 1]);
            }
        }
    }
}

/// Whatever the row at the top, only entries that there are get drawn, each in its own column.
pub proof fn lemma_drawn_cells(f: Fence, icon_px: u32, row: int, end: int)
    ensures
        forall|i: int|
            0 <= i < drawn_cells(f, icon_px, row, end).len() ==> ({
                let p = #[trigger] drawn_cells(f, icon_px, row, end)[i];
                &&& 0 <= p.0 < end
                &&& row <= p.0
                &&& 0 <= p.1 < f.cols(icon_px)
                &&& p.0 * f.cols(icon_px) + p.1 < f.entries@.len()
            }),
    decreases end - row,
{
    if row < end {
        if row < 0 {
            lemma_drawn_cells(f, icon_px, row + 1, end);
        } else if !float_le(single(f.cfg.h as int), row_y(f, icon_px, row)) {
            let n = f.entries@.len() as int;
            let cols = f.cols(icon_px);
            lemma_row_cells(row, 0, cols, n);
            lemma_drawn_cells(f, icon_px, row + 1, end);
            let cells = row_cells(row, 0, cols, n);
            let rest = drawn_cells(f, icon_px, row + 1, end);
            let all = drawn_cells(f, icon_px, row, end);
            assert forall|i: int| 0 <= i < all.len() implies ({
                let p = #[trigger] all[i];
                &&& 0 <= p.0 < end
                &&& row <= p.0
                &&& 0 <= p.1 < f.cols(icon_px)
                &&& p.0 * f.cols(icon_px) + p.1 < f.entries@.len()
            }) by {
                if i < cells.len() {
                    assert(all[i] == cells[i]);
                } else {
                    assert(all[i] == rest[i - cells.len()]);
                }
            }
        }
    }
}

/// While a page is at rest, its rows stand at whole pixels, one cell below the other from the top of
/// the part that entries are drawn in.
pub proof fn lemma_row_at_rest(f: Fence, icon_px: u32, row: int)
    requires
        drawable(icon_px, f.dpi),
        icon_px <= MAX_ICON,
        f.dpi <= MAX_DPI,
        f.top_row@ == f.page_row(icon_px),
        0 <= row < 0x40_0000,
        f.page * f.rows(icon_px) < 0x40_0000,
        f.page < 0x40_0000,
        f.rows(icon_px) < 0x40_0000,
        -0x40_0000 < (row - f.page * f.rows(icon_px)) * cell_h_of(icon_px as int, f.dpi as int) < 0x40_0000,
    ensures
        row_y(f, icon_px, row) == single(
            scaled_px(30, f.dpi as int) + scaled_px(10, f.dpi as int) + (row - f.page * f.rows(icon_px)) * cell_h_of(
                icon_px as int,
                f.dpi as int,
            ),
        ),
{
    vstd::arithmetic::power2::lemma2_to64();
    lemma_cell_bounds(icon_px as int, f.dpi as int);
    let p = SINGLE as nat;
    let rows = f.rows(icon_px);
    let top = f.page * rows;
    let ch = cell_h_of(icon_px as int, f.dpi as int);
    let rel = row - top;
    assert(rows >= 0) by {
        let len = f.cfg.h - scaled_px(30, f.dpi as int) - 2 * scaled_px(10, f.dpi as int);
        if len > 0 {
            assert(len / ch >= 0) by (nonlinear_arith)
                requires
                    len > 0,
                    ch > 0,
            ;
        }
    }
    assert(top >= 0) by (nonlinear_arith)
        requires
            top == f.page * rows,
            rows >= 0,
    ;
    lemma_int_product(p, f.page as int, rows);
    assert(f.top_row@ == single(top));
    lemma_single_neg(top);
    lemma_int_add(p, row, -top);
    lemma_int_product(p, rel, ch);
    lemma_int_add(p, scaled_px(30, f.dpi as int), scaled_px(10, f.dpi as int));
    lemma_int_add(p, scaled_px(30, f.dpi as int) + scaled_px(10, f.dpi as int), rel * ch);
}

proof fn lemma_single_neg(v: int)
    requires
        v >= 0,
    ensures
        float_neg(single(v)) == single(-v),
{
    if v == 0 {
        lemma_single_sign(0);
    }
}

/// While a page is at rest, exactly its own rows lie in the part that entries are drawn in: those of
/// the pages before end where it begins, those of the pages after begin where it ends.
pub proof fn lemma_rest_shows_page(f: Fence, icon_px: u32, row: int)
    requires
        drawable(icon_px, f.dpi),
        f.rows(icon_px) > 0,
    ensures
        ({
            let rows = f.rows(icon_px);
            let ch = cell_h_of(icon_px as int, f.dpi as int);
            let y = (row - f.page * rows) * ch;
            &&& f.page * rows <= row < (f.page + 1) * rows ==> 0 <= y && y + ch <= rows * ch
            &&& row < f.page * rows ==> y + ch <= 0
            &&& row >= (f.page + 1) * rows ==> y >= rows * ch
        }),
{
    lemma_cell_range(icon_px as int, f.dpi as int);
    let rows = f.rows(icon_px);
    let ch = cell_h_of(icon_px as int, f.dpi as int);
    let rel = row - f.page * rows;
    assert((f.page + 1) * rows == f.page * rows + rows) by (nonlinear_arith);
    let y = rel * ch;
    if 0 <= rel < rows {
        assert(0 <= y && y + ch <= rows * ch) by (nonlinear_arith)
            requires
                y == rel * ch,
                0 <= rel <= rows - 1,
                ch > 0,
        ;
    } else if rel < 0 {
        assert(y + ch <= 0) by (nonlinear_arith)
            requires
                y == rel * ch,
                rel <= -1,
                ch > 0,
        ;
    } else {
        assert(y >= rows * ch) by (nonlinear_arith)
            requires
                y == rel * ch,
                rel >= rows,
                ch > 0,
        ;
    }
}

/// A page dot.
#[derive(Clone, Copy, Debug)]
pub struct Dot {
    pub x: Float,
    pub y: Float,
    pub radius: Float,
    pub color: u32,
    /// The colour and radius of the glow round it.
    pub glow: Option<(u32, Float)>,
}

/// The numbers 2.5, 0.8 and 0.01 in single precision.
pub open spec fn dot_size() -> (int, int) {
    (0xa0_0000, -22)
}

pub open spec fn dot_growth() -> (int, int) {
    (0xcc_cccd, -24)
}

pub open spec fn glow_threshold() -> (int, int) {
    (0xa3_d70a, -30)
}

/// How near a page is to the row at the top, from 0 to 1.
pub open spec fn page_activity(f: Fence, icon_px: u32, page: int) -> (int, int) {
    let at = over(f.top_row@, single(f.rows(icon_px)));
    let v = minus(single(1), float_abs(minus(at, single(page))));
    if !float_le((0, 0), v) {
        (0, 0)
    } else if !float_le(v, single(1)) {
        single(1)
    } else {
        v
    }
}

/// Where the dots stand: in the middle of the rail.
pub open spec fn dot_x(f: Fence) -> (int, int) {
    minus(
        minus(single(f.cfg.w as int), single(scaled_px(10, f.dpi as int))),
        over(single(scaled_px(22, f.dpi as int)), single(2)),
    )
}

/// How far apart the dots are.
pub open spec fn dot_spacing(f: Fence) -> (int, int) {
    times(single(15), dpi_ratio(f.dpi as int))
}

/// Where the first dot stands: the dots are centred below the title.
pub open spec fn first_dot_y(f: Fence, pages: int) -> (int, int) {
    minus(
        over(plus(single(scaled_px(30, f.dpi as int)), single(f.cfg.h as int)), single(2)),
        over(times(dot_spacing(f), minus(single(pages), single(1))), single(2)),
    )
}

/// White with an opacity.
pub open spec fn white_of(alpha: int) -> int {
    alpha * 0x100_0000 + 0xff_ffff
}

impl Dot {
    /// Whether this is the dot of a page: larger and brighter the nearer the page is.
    pub open spec fn is(self, f: Fence, icon_px: u32, page: int) -> bool {
        let act = page_activity(f, icon_px, page);
        let size = times(dot_size(), dpi_ratio(f.dpi as int));
        let radius = plus(size, times(times(size, dot_growth()), act));
        &&& self.x@ == dot_x(f)
        &&& self.y@ == plus(first_dot_y(f, f.pages(icon_px)), times(single(page), dot_spacing(f)))
        &&& self.radius@ == radius
        &&& self.color == white_of(clamp_of(float_trunc(plus(single(0x4d), times(single(0xb2), act))), 0, 255))
        &&& match self.glow {
            Some(g) => {
                &&& !float_le(act, glow_threshold())
                &&& g.0 == white_of(clamp_of(float_trunc(times(single(0x40), act)), 0, 255))
                &&& g.1@ == times(radius, single(2))
            },
            None => float_le(act, glow_threshold()),
        }
        &&& self.x.fits(SINGLE as nat, 9500)
        &&& self.y.fits(SINGLE as nat, 9500)
        &&& self.radius.fits(SINGLE as nat, 15000)
        &&& self.glow is Some ==> (self.glow->Some_0).1.fits(SINGLE as nat, 15000)
    }
}

/// While a page is at rest, its dot alone is at its largest and brightest, and all others are at their
/// smallest and dimmest.
pub proof fn lemma_dots_at_rest(f: Fence, icon_px: u32, page: int)
    requires
        drawable(icon_px, f.dpi),
        f.top_row@ == f.page_row(icon_px),
        0 < f.rows(icon_px) < 0x80_0000,
        f.page < 0x80_0000,
        f.page * f.rows(icon_px) < 0x80_0000,
        0 <= page < 0x80_0000,
    ensures
        page_activity(f, icon_px, page) == (if page == f.page { single(1) } else { (0int, 0int) }),
{
    vstd::arithmetic::power2::lemma2_to64();
    let p = SINGLE as nat;
    let rows = f.rows(icon_px);
    lemma_int_product(p, f.page as int, rows);
    lemma_exact_quotient(p, f.page as int, rows);
    let at = over(f.top_row@, single(rows));
    assert(at == single(f.page as int));
    lemma_single_neg(page);
    lemma_int_add(p, f.page as int, -page);
    let gap = f.page - page;
    let d = if gap < 0 { -gap } else { gap };
    lemma_single_abs(gap);
    assert(float_abs(minus(at, single(page))) == single(d));
    lemma_single_neg(d);
    lemma_int_add(p, 1, -d);
    let v = minus(single(1), single(d));
    assert(v == single(1 - d));
    lemma_single_sign(1 - d);
    lemma_single_sign(1);
    lemma_le_zero(v);
    lemma_le_zero(single(1));
    lemma_le_total(single(1), single(1));
}

proof fn lemma_single_abs(v: int)
    requires
        -0x100_0000 < v < 0x100_0000,
    ensures
        float_abs(single(v)) == single(if v < 0 { -v } else { v }),
{
    lemma_single_sign(v);
    if v < 0 {
        lemma_single_neg(-v);
    }
}

proof fn lemma_single_sign(v: int)
    requires
        -0x100_0000 < v < 0x100_0000,
    ensures
        single(v).0 > 0 <==> v > 0,
        single(v).0 < 0 <==> v < 0,
        v == 0 ==> single(v) == (0int, 0int),
{
    vstd::arithmetic::power2::lemma2_to64();
    lemma_int_parts(SINGLE as nat, v);
}

fn activity(f: &Fence, rows: i32, page: usize) -> (r: Float)
    requires
        rows > 0,
        f.top_row.fits(SINGLE as nat, 7000),
    ensures
        ({
            let at = over(f.top_row@, single(rows as int));
            let v = minus(single(1), float_abs(minus(at, single(page as int))));
            r@ == if !float_le((0, 0), v) {
                (0, 0)
            } else if !float_le(v, single(1)) {
                single(1)
            } else {
                v
            }
        }),
        r.fits(SINGLE as nat, 9000),
{
    proof {
        vstd::arithmetic::power2::lemma2_to64();
    }
    let at = quotient(f.top_row, whole(rows as i64));
    let page = Float::from_int(SINGLE, page as i128);
    let gap = difference(at, page).abs();
    let one = whole(1);
    let v = difference(one, gap);
    let zero = Float { mant: 0, exp: 0 };
    if !zero.le(SINGLE, v) {
        zero
    } else if !v.le(SINGLE, one) {
        one
    } else {
        v
    }
}

fn white(v: Float) -> (r: u32)
    requires
        v.fits(SINGLE as nat, 60000),
    ensures
        r == white_of(clamp_of(float_trunc(v@), 0, 255)),
{
    let a: i32 = v.trunc_i32(SINGLE);
    let a: u32 = if a < 0 {
        0
    } else if a > 255 {
        255
    } else {
        a as u32
    };
    a * 0x100_0000 + 0xff_ffff
}

fn constant(mant: i64, exp: i32) -> (r: Float)
    requires
        0x80_0000 <= mant < 0x100_0000,
        -30 <= exp <= 0,
    ensures
        r@ == (mant as int, exp as int),
        r.fits(SINGLE as nat, 30),
        r.mant > 0,
{
    proof {
        vstd::arithmetic::power2::lemma2_to64();
    }
    Float { mant, exp }
}

fn dot_radius(dpi: u32, act: Float) -> (r: Float)
    requires
        act.fits(SINGLE as nat, 9000),
    ensures
        r@ == plus(
            times(dot_size(), dpi_ratio(dpi as int)),
            times(times(times(dot_size(), dpi_ratio(dpi as int)), dot_growth()), act@),
        ),
        r.fits(SINGLE as nat, 13000),
{
    let size = product(constant(0xa0_0000, -22), ratio(dpi));
    let grown = product(size, constant(0xcc_cccd, -24));
    sum(size, product(grown, act))
}

fn dot_color(act: Float) -> (r: u32)
    requires
        act.fits(SINGLE as nat, 9000),
    ensures
        r == white_of(clamp_of(float_trunc(plus(single(0x4d), times(single(0xb2), act@))), 0, 255)),
{
    white(sum(whole(0x4d), product(whole(0xb2), act)))
}

fn dot_glow(act: Float, radius: Float) -> (r: Option<(u32, Float)>)
    requires
        act.fits(SINGLE as nat, 9000),
        radius.fits(SINGLE as nat, 13000),
    ensures
        match r {
            Some(g) => {
                &&& !float_le(act@, glow_threshold())
                &&& g.0 == white_of(clamp_of(float_trunc(times(single(0x40), act@)), 0, 255))
                &&& g.1@ == times(radius@, single(2))
                &&& g.1.fits(SINGLE as nat, 15000)
            },
            None => float_le(act@, glow_threshold()),
        },
{
    let threshold = constant(0xa3_d70a, -30);
    if act.le(SINGLE, threshold) {
        None
    } else {
        Some((white(product(whole(0x40), act)), product(radius, whole(2))))
    }
}

fn spacing(dpi: u32) -> (r: Float)
    ensures
        r@ == times(single(15), dpi_ratio(dpi as int)),
        r.fits(SINGLE as nat, 1000),
{
    product(whole(15), ratio(dpi))
}

fn dots_middle(f: &Fence) -> (r: Float)
    ensures
        r@ == over(plus(single(scaled_px(30, f.dpi as int)), single(f.cfg.h as int)), single(2)),
        r.fits(SINGLE as nat, 1000),
{
    quotient(whole_sum(title_h(f.dpi) as i64, f.cfg.h as i64), whole(2))
}

#[verifier::rlimit(40)]
fn dots_extent(dpi: u32, pages: usize) -> (r: Float)
    ensures
        r@ == over(
            times(times(single(15), dpi_ratio(dpi as int)), minus(single(pages as int), single(1))),
            single(2),
        ),
        r.fits(SINGLE as nat, 2800),
{
    let steps = difference(Float::from_int(SINGLE, pages as i128), whole(1));
    quotient(product(spacing(dpi), steps), whole(2))
}

#[verifier::rlimit(40)]
fn dots_top(f: &Fence, pages: usize) -> (r: Float)
    ensures
        r@ == first_dot_y(*f, pages as int),
        r.fits(SINGLE as nat, 4000),
{
    difference(dots_middle(f), dots_extent(f.dpi, pages))
}

#[verifier::rlimit(40)]
fn dots_x(f: &Fence) -> (r: Float)
    ensures
        r@ == dot_x(*f),
        r.fits(SINGLE as nat, 2000),
{
    difference(
        difference(whole(f.cfg.w as i64), whole(margin(f.dpi) as i64)),
        quotient(whole(rail(f.dpi) as i64), whole(2)),
    )
}

fn draw_dot(f: &Fence, icon_px: u32, rows: i32, top: Float, page: usize) -> (r: Dot)
    requires
        drawable(icon_px, f.dpi),
        rows == f.rows(icon_px),
        rows > 0,
        f.top_row.fits(SINGLE as nat, 7000),
        top@ == first_dot_y(*f, f.pages(icon_px)),
        top.fits(SINGLE as nat, 4000),
    ensures
        r.is(*f, icon_px, page as int),
{
    let act = activity(f, rows, page);
    let radius = dot_radius(f.dpi, act);
    let down = product(Float::from_int(SINGLE, page as i128), spacing(f.dpi));
    Dot { x: dots_x(f), y: sum(top, down), radius, color: dot_color(act), glow: dot_glow(act, radius) }
}

/// The page dots of a fence: one for each page, where there is more than one and a page has a row.
pub fn draw_page_dots(f: &Fence, icon_px: u32) -> (r: Vec<Dot>)
    requires
        drawable(icon_px, f.dpi),
        f.top_row.fits(SINGLE as nat, 7000),
    ensures
        r@.len() == (if f.pages(icon_px) <= 1 || f.rows(icon_px) <= 0 { 0 } else { f.pages(icon_px) }),
        forall|i: int| 0 <= i < r@.len() ==> (#[trigger] r@[i]).is(*f, icon_px, i),
{
    let mut out: Vec<Dot> = Vec::new();
    let pages: usize = total_pages(f, icon_px);
    if pages <= 1 {
        return out;
    }
    let (_, rows) = grid_dims(f, icon_px);
    if rows <= 0 {
        return out;
    }
    let top = dots_top(f, pages);
    let mut p: usize = 0;
    while p < pages
        invariant
            p <= pages,
            out@.len() == p,
            drawable(icon_px, f.dpi),
            pages == f.pages(icon_px),
            rows == f.rows(icon_px),
            rows > 0,
            f.top_row.fits(SINGLE as nat, 7000),
            top@ == first_dot_y(*f, f.pages(icon_px)),
            top.fits(SINGLE as nat, 4000),
            forall|i: int| 0 <= i < p ==> (#[trigger] out@[i]).is(*f, icon_px, i),
        decreases pages - p,
    {
        out.push(draw_dot(f, icon_px, rows, top, p));
        p = p + 1;
    }
    out
}

/// The radius of a rounded corner: no more than half the width and half the height.
pub open spec fn corner_of(w: (int, int), h: (int, int), r: (int, int)) -> (int, int) {
    let half_w = over(w, single(2));
    let half_h = over(h, single(2));
    let a = if float_le(r, half_w) { r } else { half_w };
    if float_le(a, half_h) {
        a
    } else {
        half_h
    }
}

/// The radius of a rounded corner.
pub fn corner_radius(w: Float, h: Float, r: Float) -> (c: Float)
    requires
        w.fits(SINGLE as nat, 10000),
        h.fits(SINGLE as nat, 10000),
        r.fits(SINGLE as nat, 10000),
    ensures
        c@ == corner_of(w@, h@, r@),
        c.fits(SINGLE as nat, 11000),
{
    let half_w = quotient(w, whole(2));
    let half_h = quotient(h, whole(2));
    let a = if r.le(SINGLE, half_w) { r } else { half_w };
    if a.le(SINGLE, half_h) {
        a
    } else {
        half_h
    }
}

/// A quarter of a circle: the corner and the extent of the circle's square, and the angle at which it
/// starts.
#[derive(Clone, Copy, Debug)]
pub struct Arc {
    pub x: Float,
    pub y: Float,
    pub extent: Float,
    pub start: u32,
}

impl Arc {
    pub open spec fn is(self, x: (int, int), y: (int, int), extent: (int, int), start: u32) -> bool {
        self.x@ == x && self.y@ == y && self.extent@ == extent && self.start == start
    }
}

/// The far edge of a rounded side: its end, less the extent of the corner.
pub open spec fn far_corner(at: (int, int), side: (int, int), radius: (int, int)) -> (int, int) {
    minus(plus(at, side), times(radius, single(2)))
}

fn far(at: Float, side: Float, radius: Float) -> (r: Float)
    requires
        at.fits(SINGLE as nat, 9500),
        side.fits(SINGLE as nat, 9500),
        radius.fits(SINGLE as nat, 19000),
    ensures
        r@ == far_corner(at@, side@, radius@),
{
    difference(sum(at, side), product(radius, whole(2)))
}

/// The corners of a rounded rectangle, clockwise from the upper left.
pub fn add_rounded_path(r: RectF, radius: Float) -> (out: Vec<Arc>)
    requires
        r.fits(9500),
        radius.fits(SINGLE as nat, 9500),
    ensures
        ({
            let c = corner_of(r.w@, r.h@, radius@);
            let extent = times(c, single(2));
            let right = far_corner(r.x@, r.w@, c);
            let bottom = far_corner(r.y@, r.h@, c);
            &&& out@.len() == 4
            &&& out@[0].is(r.x@, r.y@, extent, 180)
            &&& out@[1].is(right, r.y@, extent, 270)
            &&& out@[2].is(right, bottom, extent, 0)
            &&& out@[3].is(r.x@, bottom, extent, 90)
        }),
{
    let c = corner_radius(r.w, r.h, radius);
    let extent = product(c, whole(2));
    let right = far(r.x, r.w, c);
    let bottom = far(r.y, r.h, c);
    let mut out: Vec<Arc> = Vec::new();
    out.push(Arc { x: r.x, y: r.y, extent, start: 180 });
    out.push(Arc { x: right, y: r.y, extent, start: 270 });
    out.push(Arc { x: right, y: bottom, extent, start: 0 });
    out.push(Arc { x: r.x, y: bottom, extent, start: 90 });
    out
}

/// The square round a circle.
pub fn circle_square(x: Float, y: Float, radius: Float) -> (r: RectF)
    requires
        x.fits(SINGLE as nat, 9500),
        y.fits(SINGLE as nat, 9500),
        radius.fits(SINGLE as nat, 15000),
    ensures
        r.is(minus(x@, radius@), minus(y@, radius@), times(radius@, single(2)), times(radius@, single(2))),
{
    let extent = product(radius, whole(2));
    RectF { x: difference(x, radius), y: difference(y, radius), w: extent, h: extent }
}

/// How a label is drawn: on one line, or on two.
#[derive(Debug)]
pub enum Label {
    One,
    Two(String, String),
}

/// Whether a measured width is no larger than a limit; `bits` are those of the width.
pub open spec fn no_wider(bits: int, limit: (int, int)) -> bool {
    if is_special(bits) {
        fraction_bits(bits) == 0 && bits >= 0x8000_0000
    } else {
        float_le(decoded(bits), limit)
    }
}

/// Whether a label fits on one line: all its code units fit, and its width is within half a pixel of
/// the room. A negative count stands for all of them.
pub open spec fn one_line(text: Seq<char>, fitted: int, width_bits: int, room: (int, int)) -> bool {
    (fitted < 0 || fitted >= text_units(text)) && no_wider(width_bits, plus(room, (0x80_0000, -24)))
}

fn is_no_wider(bits: u32, limit: Float) -> (r: bool)
    requires
        limit.fits(SINGLE as nat, 20000),
    ensures
        r == no_wider(bits as int, limit@),
{
    if (bits / 0x80_0000) % 0x100 == 0xff {
        bits % 0x80_0000 == 0 && bits >= 0x8000_0000
    } else {
        decode(bits).le(SINGLE, limit)
    }
}

/// How a label is drawn, given how many of its code units fit on a line and how wide it is measured
/// to be. Where it does not fit, the first line takes what fits.
pub fn draw_label(text: &str, fitted: i32, width_bits: u32, room: Float) -> (r: Label)
    requires
        room.fits(SINGLE as nat, 10000),
        text@.len() > 0 || one_line(text@, fitted as int, width_bits as int, room@),
        text_units(text@) <= u32::MAX,
    ensures
        match r {
            Label::One => one_line(text@, fitted as int, width_bits as int, room@),
            Label::Two(a, b) => {
                &&& !one_line(text@, fitted as int, width_bits as int, room@)
                &&& (a@, b@) == label_lines(text@, if fitted < 0 { text_units(text@) } else { fitted as int })
                &&& a@ + b@ == text@
                &&& a@.len() > 0
            },
        },
{
    let total: u32 = label_units(text);
    let limit = sum(room, constant(0x80_0000, -24));
    let units: u32 = if fitted < 0 { total } else { fitted as u32 };
    if units >= total && is_no_wider(width_bits, limit) {
        return Label::One;
    }
    let (a, b) = split_label(text, units);
    Label::Two(a, b)
}

/// The two halves of a label's rectangle, one above the other.
pub fn label_halves(r: RectF) -> (h: (RectF, RectF))
    requires
        r.fits(15000),
    ensures
        h.0.is(r.x@, r.y@, r.w@, over(r.h@, single(2))),
        h.1.is(r.x@, plus(r.y@, over(r.h@, single(2))), r.w@, over(r.h@, single(2))),
{
    let half = quotient(r.h, whole(2));
    (
        RectF { x: r.x, y: r.y, w: r.w, h: half },
        RectF { x: r.x, y: sum(r.y, half), w: r.w, h: half },
    )
}

/// The offsets at which the outline of a text is drawn: one pixel in each of eight directions.
pub open spec fn outline_offset(k: int) -> (int, int) {
    if k == 0 {
        (-1, 0)
    } else if k == 1 {
        (1, 0)
    } else if k == 2 {
        (0, -1)
    } else if k == 3 {
        (0, 1)
    } else if k == 4 {
        (-1, -1)
    } else if k == 5 {
        (1, -1)
    } else if k == 6 {
        (-1, 1)
    } else {
        (1, 1)
    }
}

fn offset(k: u32) -> (r: (i64, i64))
    ensures
        (r.0 as int, r.1 as int) == outline_offset(k as int),
{
    if k == 0 {
        (-1, 0)
    } else if k == 1 {
        (1, 0)
    } else if k == 2 {
        (0, -1)
    } else if k == 3 {
        (0, 1)
    } else if k == 4 {
        (-1, -1)
    } else if k == 5 {
        (1, -1)
    } else if k == 6 {
        (-1, 1)
    } else {
        (1, 1)
    }
}

/// Where the outline of a text is drawn, before the text itself.
pub fn draw_outlined_text(r: RectF) -> (out: Vec<RectF>)
    requires
        r.fits(15000),
    ensures
        out@.len() == 8,
        forall|k: int|
            0 <= k < 8 ==> (#[trigger] out@[k]).is(
                plus(r.x@, single(outline_offset(k).0)),
                plus(r.y@, single(outline_offset(k).1)),
                r.w@,
                r.h@,
            ),
{
    let mut out: Vec<RectF> = Vec::new();
    let mut k: u32 = 0;
    while k < 8
        invariant
            k <= 8,
            out@.len() == k,
            r.fits(15000),
            forall|j: int|
                0 <= j < k ==> (#[trigger] out@[j]).is(
                    plus(r.x@, single(outline_offset(j).0)),
                    plus(r.y@, single(outline_offset(j).1)),
                    r.w@,
                    r.h@,
                ),
        decreases 8 - k,
    {
        let (dx, dy) = offset(k);
        out.push(RectF { x: sum(r.x, whole(dx)), y: sum(r.y, whole(dy)), w: r.w, h: r.h });
        k = k + 1;
    }
    out
}

/// A text and where it is drawn.
#[derive(Debug)]
pub struct Hint {
    pub text: &'static str,
    pub rect: RectF,
}

/// A fence as it is drawn, before its pixels are premultiplied.
#[derive(Debug)]
pub struct Painting {
    /// The colour of the whole panel.
    pub tint: u32,
    pub title: RectF,
    pub title_size: Float,
    /// What an empty fence says, and where.
    pub hint: Option<Hint>,
    /// The top and the height of the part that entries are drawn in.
    pub clip: (Float, Float),
    pub label_size: Float,
    pub cells: Vec<Cell>,
    pub dots: Vec<Dot>,
    pub icon_size: i32,
    /// The top and the bottom of the part that icons are drawn in.
    pub icon_clip: (i32, i64),
}

impl Painting {
    /// Whether this is how a fence is drawn: entries and page dots where there are entries and room
    /// for a row, and a hint where there are none.
    pub open spec fn is(self, f: Fence, icon_px: u32, background: int) -> bool {
        let empty = f.entries@.len() == 0;
        let dpi = f.dpi as int;
        &&& self.tint == tint_of(background)
        &&& self.title.is(
            single(0),
            single(0),
            single(max_of(f.cfg.w - scaled_px(22, dpi), 1)),
            single(scaled_px(30, dpi)),
        )
        &&& self.title_size@ == title_size_of(dpi)
        &&& self.hint is Some <==> empty
        &&& self.hint is Some ==> self.hint->0.text@ == (if f.cfg.folder is Some {
            "空文件夹"@
        } else {
            "将文件拖入此处收纳"@
        }) && self.hint->0.rect.is(
            single(10),
            plus(single(scaled_px(30, dpi)), single(10)),
            single(max_of(f.cfg.w - 20, 1)),
            single(max_of(f.cfg.h - scaled_px(30, dpi) - 20, 1)),
        )
        &&& self.clip.0@ == single(scaled_px(30, dpi) + scaled_px(10, dpi))
        &&& self.clip.1@ == times(single(f.rows(icon_px)), single(cell_h_of(icon_px as int, dpi)))
        &&& self.label_size@ == times(single(12), dpi_ratio(dpi))
        &&& cells_are(self.cells@, f, icon_px, if empty { Seq::empty() } else { grid_cells(f, icon_px) })
        &&& self.dots@.len() == (if empty || f.pages(icon_px) <= 1 || f.rows(icon_px) <= 0 {
            0
        } else {
            f.pages(icon_px)
        })
        &&& forall|i: int| 0 <= i < self.dots@.len() ==> (#[trigger] self.dots@[i]).is(f, icon_px, i)
        &&& self.icon_size == icon_of(icon_px as int, dpi)
        &&& self.icon_clip.0 == scaled_px(30, dpi) + scaled_px(10, dpi)
        &&& self.icon_clip.1 == self.icon_clip.0 + (if empty {
            0
        } else {
            f.rows(icon_px) * cell_h_of(icon_px as int, dpi)
        })
    }
}

/// How a fence is drawn, given the opacity of its panel.
pub fn paint_core(f: &Fence, icon_px: u32, background: u8) -> (r: Painting)
    requires
        drawable(icon_px, f.dpi),
        f.top_row.fits(SINGLE as nat, 7000),
    ensures
        r.is(*f, icon_px, background as int),
{
    let empty: bool = f.entries.len() == 0;
    let hint: Option<Hint> = if empty { Some(Hint { text: empty_hint(f), rect: hint_rect(f) }) } else { None };
    let cells: Vec<Cell> = if empty { Vec::new() } else { draw_grid(f, icon_px) };
    let dots: Vec<Dot> = if empty { Vec::new() } else { draw_page_dots(f, icon_px) };
    Painting {
        tint: tint(background),
        title: title_rect(f),
        title_size: font_title(f.dpi),
        hint,
        clip: grid_clip(f, icon_px),
        label_size: font_label(f.dpi),
        cells,
        dots,
        icon_size: icon(icon_px, f.dpi),
        icon_clip: icon_clip(f, icon_px),
    }
}

/// One channel of a pixel: 0 for blue, 1 for green, 2 for red, 3 for the opacity.
pub open spec fn channel(p: int, k: int) -> int {
    if k == 0 {
        p % 0x100
    } else if k == 1 {
        (p / 0x100) % 0x100
    } else if k == 2 {
        (p / 0x1_0000) % 0x100
    } else {
        (p / 0x100_0000) % 0x100
    }
}

/// A pixel from its channels.
pub open spec fn pixel_of(a: int, r: int, g: int, b: int) -> int {
    a * 0x100_0000 + r * 0x1_0000 + g * 0x100 + b
}

/// A pixel whose opacity is multiplied by that of the whole, and whose colours are multiplied by the
/// result.
pub open spec fn premultiplied(p: int, global: int) -> int {
    let a = channel(p, 3) * global / 255;
    pixel_of(a, channel(p, 2) * a / 255, channel(p, 1) * a / 255, channel(p, 0) * a / 255)
}

fn scale_channel(c: u32, a: u32) -> (r: u32)
    requires
        c < 256,
        a < 256,
    ensures
        r == c * a / 255,
        r <= a,
        r <= c,
{
    assert(c as int * a as int <= 255 * a as int && c as int * a as int <= 255 * c as int && 0 <= c as int * a as int)
        by (nonlinear_arith)
        requires
            0 <= c <= 255,
            0 <= a <= 255,
    ;
    (c * a) / 255
}

/// Multiplies the colours of a pixel by its opacity and that of the whole.
pub fn premultiply(p: u32, global: u8) -> (r: u32)
    ensures
        r == premultiplied(p as int, global as int),
{
    let a: u32 = (p / 0x100_0000) % 0x100;
    if a == 0 {
        proof {
            assert(0 * global as int == 0);
            assert(channel(p as int, 2) * 0 == 0 && channel(p as int, 1) * 0 == 0 && channel(p as int, 0) * 0 == 0);
        }
        return 0;
    }
    let a2: u32 = scale_channel(a, global as u32);
    let b: u32 = scale_channel(p % 0x100, a2);
    let g: u32 = scale_channel((p / 0x100) % 0x100, a2);
    let r: u32 = scale_channel((p / 0x1_0000) % 0x100, a2);
    a2 * 0x100_0000 + r * 0x1_0000 + g * 0x100 + b
}

/// Multiplies the colours of all pixels by their opacity and that of the whole.
pub fn premultiply_all(pixels: &mut Vec<u32>, global: u8)
    ensures
        final(pixels)@.len() == old(pixels)@.len(),
        forall|i: int|
            0 <= i < old(pixels)@.len() ==> #[trigger] final(pixels)@[i] == premultiplied(
                old(pixels)@[i] as int,
                global as int,
            ),
{
    let ghost before = pixels@;
    let n: usize = pixels.len();
    let mut i: usize = 0;
    while i < n
        invariant
            i <= n,
            n == pixels@.len(),
            n == before.len(),
            forall|j: int| 0 <= j < i ==> #[trigger] pixels@[j] == premultiplied(before[j] as int, global as int),
            forall|j: int| i <= j < n ==> #[trigger] pixels@[j] == before[j],
        decreases n - i,
    {
        let p: u32 = pixels[i];
        pixels[i] = premultiply(p, global);
        i = i + 1;
    }
}

/// In a premultiplied pixel no colour exceeds the opacity, and the opacity exceeds neither that of
/// the pixel nor that of the whole; a pixel that is fully transparent becomes 0.
pub proof fn lemma_premultiplied(p: int, global: int)
    requires
        0 <= p <= u32::MAX,
        0 <= global <= 255,
    ensures
        0 <= premultiplied(p, global) <= u32::MAX,
        channel(premultiplied(p, global), 3) <= global,
        channel(premultiplied(p, global), 3) <= channel(p, 3),
        forall|k: int|
            0 <= k < 3 ==> #[trigger] channel(premultiplied(p, global), k) <= channel(premultiplied(p, global), 3),
        channel(p, 3) == 0 ==> premultiplied(p, global) == 0,
{
    let a0 = channel(p, 3);
    let a = a0 * global / 255;
    assert(0 <= a0 * global <= 255 * global && a0 * global <= 255 * a0) by (nonlinear_arith)
        requires
            0 <= a0 <= 255,
            0 <= global <= 255,
    ;
    let r = channel(p, 2) * a / 255;
    let g = channel(p, 1) * a / 255;
    let b = channel(p, 0) * a / 255;
    lemma_channel_scaled(channel(p, 0), a);
    lemma_channel_scaled(channel(p, 1), a);
    lemma_channel_scaled(channel(p, 2), a);
    lemma_pixel_channels(a, r, g, b);
    assert(premultiplied(p, global) == pixel_of(a, r, g, b));
    if a0 == 0 {
        assert(0 * global == 0);
        assert(channel(p, 2) * 0 == 0 && channel(p, 1) * 0 == 0 && channel(p, 0) * 0 == 0);
    }
}

/// The channels of a pixel are those that it is made of.
pub proof fn lemma_pixel_channels(a: int, r: int, g: int, b: int)
    requires
        0 <= a <= 255,
        0 <= r <= 255,
        0 <= g <= 255,
        0 <= b <= 255,
    ensures
        0 <= pixel_of(a, r, g, b) <= u32::MAX,
        channel(pixel_of(a, r, g, b), 0) == b,
        channel(pixel_of(a, r, g, b), 1) == g,
        channel(pixel_of(a, r, g, b), 2) == r,
        channel(pixel_of(a, r, g, b), 3) == a,
{
    let p = pixel_of(a, r, g, b);
    assert(p / 0x100_0000 == a);
    assert(p / 0x1_0000 == a * 0x100 + r);
    assert(p / 0x100 == a * 0x1_0000 + r * 0x100 + g);
}

proof fn lemma_channel_scaled(c: int, a: int)
    requires
        0 <= c <= 255,
        0 <= a <= 255,
    ensures
        0 <= c * a / 255 <= a,
{
    assert(0 <= c * a <= 255 * a) by (nonlinear_arith)
        requires
            0 <= c <= 255,
            0 <= a <= 255,
    ;
}

} // verus!
