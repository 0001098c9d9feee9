//! What holds of how a fence is drawn: nothing of a page is left out, and colours are mixed as they should.
use crate::bits::{decoded, is_special};
use crate::dialog::Area;
use crate::fence::Fence;
use crate::fence_laws::lemma_page_row;
use crate::float::{canonical, float_abs, float_floor, float_le, float_neg, saturate, SINGLE};
use crate::float_laws::{lemma_floor_below, lemma_le_is_order, lemma_round_int, lemma_round_order};
use crate::geometry::{
    cell_h_of, drawable, icon_of, lemma_cell_bounds, lemma_cell_range, lemma_neg_single, dpi_ratio, scaled_px, single, MAX_DPI, MAX_ICON,
};
use crate::mouse_laws::lemma_add_commutes;
use crate::order::{lemma_add_order, lemma_div_order, lemma_int_order, lemma_le_total, lemma_le_transitive, lemma_le_zero, lemma_mul_commutes, lemma_mul_order, lemma_sub_order, lemma_sub_self};
use crate::opacity_laws::lemma_trunc_order;
use crate::paint::{
    one_line, dot_growth, dot_size, far_corner, glow_threshold, page_activity, RectF,
    channel, column_width, column_x, corner_of, drawn_cells, first_row, frame_of, grid_cells, highlight_of, lemma_dots_at_rest,
    lemma_drawn_cells, lemma_pixel_channels, lemma_row_at_rest, lemma_row_cells, minus, no_wider, outline_offset, over, pixel_of, plus,
    premultiplied, row_cells, row_y, times, tint_of, Cell, Dot, GHOST_ALPHA, HOVER_COLOR, SELECTED_COLOR,
};
use crate::precision::{den, lemma_exact_quotient, lemma_int_add, lemma_int_parts, lemma_int_product, lemma_scale_pos, num};
use vstd::prelude::*;

verus! {

proof fn lemma_row_complete(row: int, col: int, cols: int, n: int, c: int)
    requires
        0 <= row,
        0 <= col <= c < cols,
        row * cols + c < n,
    ensures
        row_cells(row, col, cols, n).contains((row, c)),
    decreases c - col,
{
    let all = row_cells(row, col, cols, n);
    if c == col {
        assert(all[0] == (row, c));
    } else {
        lemma_row_complete(row, col + 1, cols, n, c);
        let rest = row_cells(row, col + 1, cols, n);
        let i = rest.index_of((row, c));
        assert(all[i + 1] == rest[i]);
    }
}

/// A row farther down is not drawn farther up.
pub proof fn lemma_rows_in_order(f: Fence, icon_px: u32, a: int, b: int)
    requires
        a <= b,
        canonical(SINGLE as nat, f.top_row@),
        drawable(icon_px, f.dpi),
    ensures
        float_le(row_y(f, icon_px, a), row_y(f, icon_px, b)),
{
    let p = SINGLE as nat;
    vstd::arithmetic::power2::lemma2_to64();
    lemma_cell_range(icon_px as int, f.dpi as int);
    let back = float_neg(f.top_row@);
    let ch = cell_h_of(icon_px as int, f.dpi as int);
    let top = plus(single(scaled_px(30, f.dpi as int)), single(scaled_px(10, f.dpi as int)));
    assert(canonical(p, back));
    lemma_int_order(p, a, b);
    lemma_int_order(p, ch, ch);
    lemma_int_order(p, scaled_px(30, f.dpi as int), scaled_px(30, f.dpi as int));
    lemma_int_order(p, scaled_px(10, f.dpi as int), scaled_px(10, f.dpi as int));
    lemma_add_order(
        p,
        single(scaled_px(30, f.dpi as int)),
        single(scaled_px(10, f.dpi as int)),
        single(scaled_px(10, f.dpi as int)),
    );
    lemma_add_commutes(p, single(a), back);
    lemma_add_commutes(p, single(b), back);
    lemma_add_order(p, back, single(a), single(b));
    let da = minus(single(a), f.top_row@);
    let db = minus(single(b), f.top_row@);
    lemma_le_total(single(b), single(b));
    lemma_add_order(p, back, single(b), single(b));
    lemma_mul_order(p, da, db, single(ch));
    lemma_le_total(db, db);
    lemma_mul_order(p, db, db, single(ch));
    lemma_add_order(p, top, times(da, single(ch)), times(db, single(ch)));
}

proof fn lemma_drawn_complete(f: Fence, icon_px: u32, from: int, end: int, row: int, col: int)
    requires
        canonical(SINGLE as nat, f.top_row@),
        drawable(icon_px, f.dpi),
        from <= row < end,
        row >= 0,
        0 <= col < f.cols(icon_px),
        row * f.cols(icon_px) + col < f.entries@.len(),
        !float_le(single(f.cfg.h as int), row_y(f, icon_px, row)),
    ensures
        drawn_cells(f, icon_px, from, end).contains((row, col)),
    decreases row - from,
{
    let all = drawn_cells(f, icon_px, from, end);
    let h = single(f.cfg.h as int);
    if from < 0 {
        lemma_drawn_complete(f, icon_px, from + 1, end, row, col);
    } else {
        lemma_rows_in_order(f, icon_px, from, row);
        if float_le(h, row_y(f, icon_px, from)) {
            lemma_le_transitive(h, row_y(f, icon_px, from), row_y(f, icon_px, row));
        }
        let cells = row_cells(from, 0, f.cols(icon_px), f.entries@.len() as int);
        let rest = drawn_cells(f, icon_px, from + 1, end);
        assert(all == cells + rest);
        if from == row {
            lemma_row_complete(row, 0, f.cols(icon_px), f.entries@.len() as int, col);
            let i = cells.index_of((row, col));
            assert(all[i] == cells[i]);
        } else {
            lemma_drawn_complete(f, icon_px, from + 1, end, row, col);
            let i = rest.index_of((row, col));
            assert(all[cells.len() + i] == rest[i]);
        }
    }
}

/// Wherever the pages are on their way, every entry is drawn whose row is one of those that a page shows, or
/// the one before or after, and begins above the lower edge of the fence.
pub proof fn lemma_nothing_left_out(f: Fence, icon_px: u32, row: int, col: int)
    requires
        canonical(SINGLE as nat, f.top_row@),
        drawable(icon_px, f.dpi),
        f.rows(icon_px) > 0,
        saturate(float_floor(f.top_row@)) - 1 <= row <= saturate(float_floor(f.top_row@)) + f.rows(icon_px),
        row >= 0,
        0 <= col < f.cols(icon_px),
        row * f.cols(icon_px) + col < f.entries@.len(),
        !float_le(single(f.cfg.h as int), row_y(f, icon_px, row)),
    ensures
        grid_cells(f, icon_px).contains((row, col)),
{
    lemma_drawn_complete(f, icon_px, first_row(f), first_row(f) + f.rows(icon_px) + 2, row, col);
}

/// Of two whole numbers the one that is not smaller is so in single precision too, and only that one.
proof fn lemma_single_le(a: int, b: int)
    requires
        -0x100_0000 < a < 0x100_0000,
        -0x100_0000 < b < 0x100_0000,
    ensures
        float_le(single(a), single(b)) <==> a <= b,
        float_floor(single(a)) == a,
{
    vstd::arithmetic::power2::lemma2_to64();
    let p = SINGLE as nat;
    lemma_round_int(p, a);
    lemma_round_int(p, b);
    lemma_le_is_order(single(a), single(b));
    lemma_scale_pos(-single(a).1);
    lemma_scale_pos(-single(b).1);
    let (k, l) = (den(single(a)), den(single(b)));
    let (x, y) = (num(single(a)), num(single(b)));
    assert(x * l <= y * k <==> a <= b) by (nonlinear_arith)
        requires
            x == a * k,
            y == b * l,
            k > 0,
            l > 0,
    ;
    lemma_floor_below(single(a));
    let fl = float_floor(single(a));
    assert(fl == a) by (nonlinear_arith)
        requires
            0 <= a * k - fl * k < k,
            k > 0,
    ;
}

/// At rest every entry of the page is drawn.
pub proof fn lemma_page_is_drawn(f: Fence, icon_px: u32, k: int)
    requires
        drawable(icon_px, f.dpi),
        icon_px <= MAX_ICON,
        f.dpi <= MAX_DPI,
        f.top_row@ == f.page_row(icon_px),
        0 < f.rows(icon_px) < 0x40_0000,
        f.page < 0x40_0000,
        (f.page + 1) * f.rows(icon_px) < 0x40_0000,
        0 <= f.cfg.h < 0x40_0000,
        f.page * f.per_page(icon_px) <= k < (f.page + 1) * f.per_page(icon_px),
        k < f.entries@.len(),
    ensures
        grid_cells(f, icon_px).contains((k / f.cols(icon_px), k % f.cols(icon_px))),
{
    vstd::arithmetic::power2::lemma2_to64();
    let cols = f.cols(icon_px);
    let rows = f.rows(icon_px);
    let page = f.page as int;
    let row = k / cols;
    let col = k % cols;
    let ch = cell_h_of(icon_px as int, f.dpi as int);
    lemma_cell_range(icon_px as int, f.dpi as int);
    assert(page * rows <= row && row < page * rows + rows && 0 <= col < cols && row * cols + col == k) by (nonlinear_arith)
        requires
            page * (cols * rows) <= k,
            k < (page + 1) * (cols * rows),
            row == k / cols,
            col == k % cols,
            cols >= 1,
    ;
    assert((page + 1) * rows == page * rows + rows) by (nonlinear_arith);
    assert(page * rows >= 0) by (nonlinear_arith)
        requires
            page >= 0,
            rows > 0,
    ;
    lemma_page_row(f, icon_px, rows);
    lemma_int_order(SINGLE as nat, page * rows, page * rows);
    lemma_single_le(page * rows, 0);
    // the rows of a page fit in the fence
    let rel = row - page * rows;
    let down = f.cfg.h - scaled_px(30, f.dpi as int) - 2 * scaled_px(10, f.dpi as int);
    assert(rows == down / ch && down > 0);
    assert(0 <= rel * ch && rel * ch + ch <= down) by (nonlinear_arith)
        requires
            rows == down / ch,
            0 <= rel < rows,
            ch > 0,
            down > 0,
    ;
    lemma_row_at_rest(f, icon_px, row);
    let y = scaled_px(30, f.dpi as int) + scaled_px(10, f.dpi as int) + rel * ch;
    lemma_single_le(f.cfg.h as int, y);
    lemma_nothing_left_out(f, icon_px, row, col);
}

/// No entry is drawn twice: they come in their order.
pub proof fn lemma_drawn_once(f: Fence, icon_px: u32, from: int, end: int)
    requires
        f.cols(icon_px) >= 1,
    ensures
        forall|i: int, j: int|
            0 <= i < j < drawn_cells(f, icon_px, from, end).len() ==> {
                let a = #[trigger] drawn_cells(f, icon_px, from, end)[i];
                let b = #[trigger] drawn_cells(f, icon_px, from, end)[j];
                a.0 * f.cols(icon_px) + a.1 < b.0 * f.cols(icon_px) + b.1
            },
    decreases end - from,
{
    let all = drawn_cells(f, icon_px, from, end);
    let cols = f.cols(icon_px);
    if from < end {
        lemma_drawn_once(f, icon_px, from + 1, end);
        if from >= 0 && !float_le(single(f.cfg.h as int), row_y(f, icon_px, from)) {
            let n = f.entries@.len() as int;
            let cells = row_cells(from, 0, cols, n);
            let rest = drawn_cells(f, icon_px, from + 1, end);
            lemma_row_once(from, 0, cols, n);
            lemma_row_cells(from, 0, cols, n);
            lemma_drawn_cells(f, icon_px, from + 1, end);
            assert forall|i: int, j: int| 0 <= i < j < all.len() implies {
                let a = #[trigger] all[i];
                let b = #[trigger] all[j];
                a.0 * cols + a.1 < b.0 * cols + b.1
            } by {
                let c = cells.len() as int;
                if j < c {
                    assert(all[i] == cells[i] && all[j] == cells[j]);
                } else if i >= c {
                    assert(all[i] == rest[i - c] && all[j] == rest[j - c]);
                } else {
                    assert(all[i] == cells[i] && all[j] == rest[j - c]);
                    let a = cells[i];
                    let b = rest[j - c];
                    assert(b.0 * cols >= a.0 * cols + cols) by (nonlinear_arith)
                        requires
                            b.0 >= a.0 + 1,
                            cols >= 1,
                    ;
                }
            }
        }
    }
}

proof fn lemma_row_once(row: int, col: int, cols: int, n: int)
    requires
        row >= 0,
        0 <= col,
    ensures
        forall|i: int, j: int|
            0 <= i < j < row_cells(row, col, cols, n).len() ==> {
                let a = #[trigger] row_cells(row, col, cols, n)[i];
                let b = #[trigger] row_cells(row, col, cols, n)[j];
                a.0 == b.0 && a.1 < b.1
            },
    decreases cols - col,
{
    if col < cols && row * cols + col < n {
        lemma_row_once(row, col + 1, cols, n);
        lemma_row_cells(row, col + 1, cols, n);
        let rest = row_cells(row, col + 1, cols, n);
        let all = row_cells(row, col, cols, n);
        assert forall|i: int, j: int| 0 <= i < j < all.len() implies {
            let a = #[trigger] all[i];
            let b = #[trigger] all[j];
            a.0 == b.0 && a.1 < b.1
        } by {
            assert(all[j] == rest[j - 1]);
            if i > 0 {
                assert(all[i] == rest[i - 1]);
            }
        }
    }
}

/// Where the width divides evenly, each column begins where the one before it ends.
pub proof fn lemma_columns_share(f: Fence, icon_px: u32, k: int, col: int)
    requires
        drawable(icon_px, f.dpi),
        0 <= k,
        0 <= col <= f.cols(icon_px) < 0x100_0000,
        f.cfg.w - 2 * scaled_px(10, f.dpi as int) - scaled_px(22, f.dpi as int) == k * f.cols(icon_px),
        k * f.cols(icon_px) < 0x100_0000,
        scaled_px(10, f.dpi as int) < 0x100_0000,
    ensures
        column_width(f, icon_px) == single(k),
        column_x(f, icon_px, col) == single(scaled_px(10, f.dpi as int) + col * k),
{
    vstd::arithmetic::power2::lemma2_to64();
    lemma_cell_range(icon_px as int, f.dpi as int);
    let p = SINGLE as nat;
    let cols = f.cols(icon_px);
    lemma_exact_quotient(p, k, cols);
    assert(0 <= col * k && col * k <= k * cols && k <= k * cols) by (nonlinear_arith)
        requires
            0 <= col <= cols,
            0 <= k,
            cols >= 1,
    ;
    lemma_int_product(p, col, k);
    lemma_int_add(p, scaled_px(10, f.dpi as int), col * k);
}

/// An icon stands in the middle of its column, to the pixel, and at rest at the top of its row.
pub proof fn lemma_icon_centred(c: Cell, f: Fence, icon_px: u32, row: int, col: int, k: int)
    requires
        c.is(f, icon_px, row, col),
        drawable(icon_px, f.dpi),
        icon_px <= MAX_ICON,
        f.dpi <= MAX_DPI,
        0 <= k,
        0 <= col < f.cols(icon_px) < 0x40_0000,
        f.cfg.w - 2 * scaled_px(10, f.dpi as int) - scaled_px(22, f.dpi as int) == k * f.cols(icon_px),
        k * f.cols(icon_px) < 0x40_0000,
        scaled_px(10, f.dpi as int) < 0x40_0000,
        icon_of(icon_px as int, f.dpi as int) + 2 <= k,
        f.top_row@ == f.page_row(icon_px),
        0 <= row < 0x40_0000,
        f.page * f.rows(icon_px) < 0x40_0000,
        f.page < 0x40_0000,
        f.rows(icon_px) < 0x40_0000,
        -0x40_0000 < (row - f.page * f.rows(icon_px)) * cell_h_of(icon_px as int, f.dpi as int) < 0x40_0000,
        scaled_px(30, f.dpi as int) < 0x40_0000,
    ensures
        ({
            let size = icon_of(icon_px as int, f.dpi as int);
            let x = scaled_px(10, f.dpi as int) + col * k;
            &&& -1 <= (2 * c.icon.0 + size) - (2 * x + k) <= 2
            &&& c.icon.1 == scaled_px(30, f.dpi as int) + scaled_px(10, f.dpi as int) + (row - f.page * f.rows(icon_px))
                * cell_h_of(icon_px as int, f.dpi as int)
        }),
{
    vstd::arithmetic::power2::lemma2_to64();
    let p = SINGLE as nat;
    lemma_cell_range(icon_px as int, f.dpi as int);
    lemma_columns_share(f, icon_px, k, col);
    lemma_row_at_rest(f, icon_px, row);
    let size = icon_of(icon_px as int, f.dpi as int);
    let cols = f.cols(icon_px);
    let x = scaled_px(10, f.dpi as int) + col * k;
    assert(0 <= col * k && col * k <= k * cols && k <= k * cols) by (nonlinear_arith)
        requires
            0 <= col <= cols,
            0 <= k,
            cols >= 1,
    ;
    let d = k - size;
    lemma_neg_single(size);
    lemma_int_add(p, k, -size);
    let q = d / 2;
    let half = over(single(d), single(2));
    lemma_exact_quotient(p, q, 2);
    lemma_exact_quotient(p, q + 1, 2);
    lemma_int_order(p, q * 2, d);
    lemma_int_order(p, d, (q + 1) * 2);
    lemma_int_order(p, 2, 2);
    lemma_int_order(p, (q + 1) * 2, (q + 1) * 2);
    lemma_round_int(p, q * 2);
    lemma_round_int(p, d);
    lemma_round_int(p, 2);
    lemma_round_int(p, (q + 1) * 2);
    assert(single(2).0 > 0 && single(d).0 > 0 && single(q * 2).0 > 0 && single((q + 1) * 2).0 > 0) by {
        lemma_int_parts(p, 2);
        lemma_int_parts(p, d);
        lemma_int_parts(p, q * 2);
        lemma_int_parts(p, (q + 1) * 2);
    }
    lemma_div_order(p, single(q * 2), single(d), single(2));
    lemma_div_order(p, single(d), single((q + 1) * 2), single(2));
    lemma_int_order(p, q, q + 1);
    lemma_int_order(p, x, x);
    lemma_add_order(p, single(x), single(q), half);
    lemma_add_order(p, single(x), half, single(q + 1));
    lemma_int_add(p, x, q);
    lemma_int_add(p, x, q + 1);
    let at = plus(single(x), half);
    lemma_round_order(single(x + q), at);
    lemma_round_order(at, single(x + q + 1));
    lemma_round_int(p, x + q);
    lemma_round_int(p, x + q + 1);
    let y = scaled_px(30, f.dpi as int) + scaled_px(10, f.dpi as int) + (row - f.page * f.rows(icon_px)) * cell_h_of(
        icon_px as int,
        f.dpi as int,
    );
    lemma_round_int(p, y);
}

/// At rest the dot of the page that is shown is white without transparency, and those of the others are as
/// faint as each other.
pub proof fn lemma_dot_colours(d: Dot, f: Fence, icon_px: u32, page: int)
    requires
        d.is(f, icon_px, page),
        drawable(icon_px, f.dpi),
        f.top_row@ == f.page_row(icon_px),
        0 < f.rows(icon_px) < 0x80_0000,
        f.page < 0x80_0000,
        f.page * f.rows(icon_px) < 0x80_0000,
        0 <= page < 0x80_0000,
    ensures
        page == f.page ==> d.color == 0xffff_ffff,
        page != f.page ==> d.color == 0x4dff_ffff,
{
    vstd::arithmetic::power2::lemma2_to64();
    let p = SINGLE as nat;
    lemma_dots_at_rest(f, icon_px, page);
    lemma_int_order(p, 0, 0);
    let act = if page == f.page { 1int } else { 0int };
    lemma_int_product(p, 0xb2, act);
    lemma_int_add(p, 0x4d, 0xb2 * act);
    lemma_round_int(p, 0x4d + 0xb2 * act);
}

/// The corners of a rectangle are as round as they should be, as far as its sides leave room for two of
/// them.
pub proof fn lemma_corner(w: (int, int), h: (int, int), r: (int, int))
    ensures
        float_le(corner_of(w, h, r), r),
        float_le(corner_of(w, h, r), over(w, single(2))),
        float_le(corner_of(w, h, r), over(h, single(2))),
        corner_of(w, h, r) == r || corner_of(w, h, r) == over(w, single(2)) || corner_of(w, h, r) == over(h, single(2)),
{
    let a = over(w, single(2));
    let b = over(h, single(2));
    lemma_le_total(r, a);
    lemma_le_total(r, b);
    lemma_le_total(a, b);
    lemma_le_total(r, r);
    lemma_le_total(a, a);
    lemma_le_total(b, b);
    let m = if float_le(r, a) { r } else { a };
    lemma_le_total(m, b);
    if !float_le(m, b) {
        lemma_le_transitive(b, m, r);
        lemma_le_transitive(b, m, a);
    }
}

/// The outline of a text surrounds it: it is drawn once at every neighbouring pixel.
pub proof fn lemma_outline_surrounds(dx: int, dy: int)
    requires
        -1 <= dx <= 1,
        -1 <= dy <= 1,
        dx != 0 || dy != 0,
    ensures
        exists|k: int| 0 <= k < 8 && #[trigger] outline_offset(k) == (dx, dy),
        forall|j: int, k: int|
            0 <= j < 8 && 0 <= k < 8 && #[trigger] outline_offset(j) == #[trigger] outline_offset(k) ==> j == k,
{
    assert(outline_offset(0) == (-1int, 0int));
    assert(outline_offset(1) == (1int, 0int));
    assert(outline_offset(2) == (0int, -1int));
    assert(outline_offset(3) == (0int, 1int));
    assert(outline_offset(4) == (-1int, -1int));
    assert(outline_offset(5) == (1int, -1int));
    assert(outline_offset(6) == (-1int, 1int));
    assert(outline_offset(7) == (1int, 1int));
}

/// Whether `r` is `c` times `a` out of 255, cut off to an integer.
pub open spec fn is_share(r: int, c: int, a: int) -> bool {
    255 * r <= c * a < 255 * r + 255
}

/// A pixel's opacity becomes its share of that of the whole, and each of its colours the share that this
/// opacity gives it, each in its own place.
pub proof fn lemma_premultiplied_shares(p: int, global: int)
    requires
        0 <= p <= u32::MAX,
        0 <= global <= 255,
    ensures
        ({
            let q = premultiplied(p, global);
            &&& is_share(channel(q, 3), channel(p, 3), global)
            &&& is_share(channel(q, 2), channel(p, 2), channel(q, 3))
            &&& is_share(channel(q, 1), channel(p, 1), channel(q, 3))
            &&& is_share(channel(q, 0), channel(p, 0), channel(q, 3))
        }),
        channel(p, 3) == 255 && global == 255 ==> premultiplied(p, global) == p,
{
    let a0 = channel(p, 3);
    let a = a0 * global / 255;
    assert(0 <= a0 * global <= 255 * 255) by (nonlinear_arith)
        requires
            0 <= a0 <= 255,
            0 <= global <= 255,
    ;
    lemma_share(channel(p, 2), a);
    lemma_share(channel(p, 1), a);
    lemma_share(channel(p, 0), a);
    let (r, g, b) = (channel(p, 2) * a / 255, channel(p, 1) * a / 255, channel(p, 0) * a / 255);
    lemma_pixel_channels(a, r, g, b);
    if a0 == 255 && global == 255 {
        assert(a == 255);
        assert(pixel_of(channel(p, 3), channel(p, 2), channel(p, 1), channel(p, 0)) == p);
    }
}

proof fn lemma_share(c: int, a: int)
    requires
        0 <= c <= 255,
        0 <= a <= 255,
    ensures
        is_share(c * a / 255, c, a),
        0 <= c * a / 255 <= 255,
        a == 255 ==> c * a / 255 == c,
{
    assert(0 <= c * a <= 255 * 255) by (nonlinear_arith)
        requires
            0 <= c <= 255,
            0 <= a <= 255,
    ;
}

/// The panel's colour is always the same, and its opacity grows with that of the fence, to two thirds.
pub proof fn lemma_tint(a: int, b: int)
    requires
        0 <= a <= b <= 255,
    ensures
        0 <= tint_of(a) <= tint_of(b) <= u32::MAX,
        tint_of(a) % 0x100_0000 == tint_of(b) % 0x100_0000,
        255 * (tint_of(a) / 0x100_0000) <= 170 * a < 255 * (tint_of(a) / 0x100_0000) + 255,
{
}

/// Only in ghost mode and only without the mouse over it does a fence fade; a fence without a window or
/// without an extent is not drawn, every other one is, at its own size.
pub proof fn lemma_frame(f: Fence, ghost_mode: bool)
    ensures
        frame_of(f, ghost_mode) is Some <==> f.cfg.w > 0 && f.cfg.h > 0 && f.hwnd != 0,
        frame_of(f, ghost_mode) is Some ==> {
            let r = frame_of(f, ghost_mode)->0;
            &&& r.w == f.cfg.w && r.h == f.cfg.h
            &&& (r.global == 255) == (!ghost_mode || f.hover_visible)
            &&& r.global != 255 ==> r.global == GHOST_ALPHA
        },
{
}

/// A selected entry is marked as such also under the mouse, and no entry is marked that is neither.
pub proof fn lemma_highlight(f: Fence, idx: usize)
    ensures
        f.selected == Some(idx) ==> highlight_of(f, idx as int) == Some(SELECTED_COLOR),
        f.selected != Some(idx) && f.hover == Some(idx) ==> highlight_of(f, idx as int) == Some(HOVER_COLOR),
        f.selected != Some(idx) && f.hover != Some(idx) ==> highlight_of(f, idx as int) is None,
{
}

/// A measured width counts as within a limit when it is a number that is, or is below all numbers; what is no
/// number does not count.
pub proof fn lemma_no_wider(bits: int, limit: (int, int))
    requires
        0 <= bits <= u32::MAX,
    ensures
        !is_special(bits) ==> no_wider(bits, limit) == float_le(decoded(bits), limit),
        bits == 0x7f80_0000 ==> !no_wider(bits, limit),
        bits == 0xff80_0000 ==> no_wider(bits, limit),
        0x7f80_0000 < bits < 0x8000_0000 || 0xff80_0000 < bits ==> !no_wider(bits, limit),
{
}

/// Where the lengths divide evenly, the dots stand one below the other at equal distances, and the middle of all of
/// them is the middle of the fence below its title; they stand in the middle of the rail.
pub proof fn lemma_dots_centred(d: Dot, f: Fence, icon_px: u32, page: int, gap: int, mid: int, half: int, rail: int)
    requires
        d.is(f, icon_px, page),
        drawable(icon_px, f.dpi),
        dpi_ratio(f.dpi as int) == single(gap),
        0 < gap < 0x100,
        0 <= page < f.pages(icon_px) < 0x100,
        0 <= f.cfg.h < 0x1_0000,
        0 <= f.cfg.w < 0x1_0000,
        0 <= scaled_px(30, f.dpi as int) < 0x1_0000,
        0 <= scaled_px(10, f.dpi as int) < 0x1_0000,
        0 <= scaled_px(22, f.dpi as int) < 0x1_0000,
        scaled_px(30, f.dpi as int) + f.cfg.h == mid * 2,
        15 * gap * (f.pages(icon_px) - 1) == half * 2,
        scaled_px(22, f.dpi as int) == rail * 2,
    ensures
        d.y@ == single(mid - half + 15 * gap * page),
        d.x@ == single(f.cfg.w - scaled_px(10, f.dpi as int) - rail),
        mid - half - scaled_px(30, f.dpi as int) == f.cfg.h - (mid - half + 15 * gap * (f.pages(icon_px) - 1)),
{
    vstd::arithmetic::power2::lemma2_to64();
    let p = SINGLE as nat;
    let pages = f.pages(icon_px);
    let s = 15 * gap;
    lemma_int_product(p, 15, gap);
    lemma_int_add(p, scaled_px(30, f.dpi as int), f.cfg.h as int);
    lemma_exact_quotient(p, mid, 2);
    lemma_neg_single(1);
    lemma_int_add(p, pages, -1);
    assert(0 <= s * (pages - 1) < 0x10_0000 && 0 <= s * page < 0x10_0000) by (nonlinear_arith)
        requires
            0 < s < 0x1000,
            0 <= page < pages < 0x100,
    ;
    lemma_int_product(p, s, pages - 1);
    lemma_exact_quotient(p, half, 2);
    lemma_neg_single(half);
    lemma_int_add(p, mid, -half);
    lemma_int_product(p, page, s);
    assert(page * s == s * page) by (nonlinear_arith);
    lemma_int_add(p, mid - half, s * page);
    lemma_exact_quotient(p, rail, 2);
    lemma_neg_single(scaled_px(10, f.dpi as int));
    lemma_int_add(p, f.cfg.w as int, -scaled_px(10, f.dpi as int));
    lemma_neg_single(rail);
    lemma_int_add(p, f.cfg.w - scaled_px(10, f.dpi as int), -rail);
}

/// Where the width divides evenly and the page is at rest, the colour behind an entry and its name are centred on its
/// column, the name stands below the icon, and the colour reaches round both.
pub proof fn lemma_cell_parts(c: Cell, f: Fence, icon_px: u32, row: int, col: int, k: int)
    requires
        c.is(f, icon_px, row, col),
        drawable(icon_px, f.dpi),
        icon_px <= MAX_ICON,
        f.dpi <= MAX_DPI,
        0 <= k,
        0 <= col < f.cols(icon_px) < 0x40_0000,
        f.cfg.w - 2 * scaled_px(10, f.dpi as int) - scaled_px(22, f.dpi as int) == k * f.cols(icon_px),
        k * f.cols(icon_px) < 0x40_0000,
        f.top_row@ == f.page_row(icon_px),
        0 <= row < 0x40_0000,
        f.page * f.rows(icon_px) < 0x40_0000,
        f.page < 0x40_0000,
        f.rows(icon_px) < 0x40_0000,
        -0x40_0000 < (row - f.page * f.rows(icon_px)) * cell_h_of(icon_px as int, f.dpi as int) < 0x40_0000,
    ensures
        exists|panel: Area, label: Area|
            {
                let x = scaled_px(10, f.dpi as int) + col * k;
                let y = scaled_px(30, f.dpi as int) + scaled_px(10, f.dpi as int) + (row - f.page * f.rows(icon_px))
                    * cell_h_of(icon_px as int, f.dpi as int);
                &&& #[trigger] is_area(c.panel, panel)
                &&& #[trigger] is_area(c.label, label)
                &&& 2 * panel.x + panel.w == 2 * x + k
                &&& 2 * label.x + label.w == 2 * x + k
                &&& panel.x + 1 == label.x
                &&& panel.x + 3 == x
                &&& panel.y + 2 == y
                &&& panel.y + panel.h == y + cell_h_of(icon_px as int, f.dpi as int) + 2
                &&& label.y == y + icon_of(icon_px as int, f.dpi as int) + 3
                &&& label.y + label.h + 1 == y + cell_h_of(icon_px as int, f.dpi as int)
            },
{
    vstd::arithmetic::power2::lemma2_to64();
    let p = SINGLE as nat;
    let dpi = f.dpi as int;
    lemma_cell_range(icon_px as int, dpi);
    lemma_cell_bounds(icon_px as int, dpi);
    lemma_columns_share(f, icon_px, k, col);
    lemma_row_at_rest(f, icon_px, row);
    let size = icon_of(icon_px as int, dpi);
    let lh = scaled_px(38, dpi);
    let x = scaled_px(10, dpi) + col * k;
    let y = scaled_px(30, dpi) + scaled_px(10, dpi) + (row - f.page * f.rows(icon_px)) * cell_h_of(icon_px as int, dpi);
    let cols = f.cols(icon_px);
    assert(0 <= col * k && col * k <= k * cols && k <= k * cols) by (nonlinear_arith)
        requires
            0 <= col <= cols,
            0 <= k,
            cols >= 1,
    ;
    lemma_neg_single(3);
    lemma_neg_single(2);
    lemma_neg_single(4);
    lemma_int_add(p, x, -3);
    lemma_int_add(p, y, -2);
    lemma_int_add(p, k, 6);
    lemma_int_add(p, size + lh, 4);
    lemma_int_add(p, x, -2);
    lemma_int_add(p, y, size);
    lemma_int_add(p, y + size, 3);
    lemma_int_add(p, k, 4);
    lemma_int_add(p, lh, -4);
    let panel = Area { x: (x - 3) as i32, y: (y - 2) as i32, w: (k + 6) as i32, h: (size + lh + 4) as i32 };
    let label = Area { x: (x - 2) as i32, y: (y + size + 3) as i32, w: (k + 4) as i32, h: (lh - 4) as i32 };
    assert(is_area(c.panel, panel));
    assert(is_area(c.label, label));
}

/// Whether a rectangle in single precision is one of whole pixels.
pub open spec fn is_area(r: RectF, a: Area) -> bool {
    r.is(single(a.x as int), single(a.y as int), single(a.w as int), single(a.h as int))
}

/// A page counts for nothing or more and for one at most, and for no less the nearer it is.
pub proof fn lemma_activity(f: Fence, icon_px: u32, a: int, b: int)
    requires
        drawable(icon_px, f.dpi),
        canonical(SINGLE as nat, f.top_row@),
        f.rows(icon_px) > 0,
        ({
            let at = over(f.top_row@, single(f.rows(icon_px)));
            &&& canonical(SINGLE as nat, at)
            &&& float_le(float_abs(minus(at, single(a))), float_abs(minus(at, single(b))))
        }),
    ensures
        float_le((0, 0), page_activity(f, icon_px, b)),
        float_le(page_activity(f, icon_px, a), single(1)),
        float_le(page_activity(f, icon_px, b), page_activity(f, icon_px, a)),
        canonical(SINGLE as nat, page_activity(f, icon_px, a)),
        canonical(SINGLE as nat, page_activity(f, icon_px, b)),
{
    let p = SINGLE as nat;
    vstd::arithmetic::power2::lemma2_to64();
    let at = over(f.top_row@, single(f.rows(icon_px)));
    let (x, y) = (float_abs(minus(at, single(a))), float_abs(minus(at, single(b))));
    lemma_int_order(p, a, a);
    lemma_int_order(p, b, b);
    lemma_int_order(p, 0, 1);
    lemma_le_total(single(a), single(a));
    lemma_le_total(single(b), single(b));
    lemma_sub_order(p, at, single(a), single(a));
    lemma_sub_order(p, at, single(b), single(b));
    lemma_sub_order(p, single(1), x, y);
    let (u, v) = (minus(single(1), x), minus(single(1), y));
    let zero = (0int, 0int);
    let one = single(1);
    lemma_le_total(zero, u);
    lemma_le_total(zero, v);
    lemma_le_total(u, one);
    lemma_le_total(v, one);
    lemma_le_total(zero, zero);
    lemma_le_total(one, one);
    if float_le(zero, v) && !float_le(zero, u) {
        lemma_le_transitive(zero, v, u);
    }
    if float_le(u, one) && !float_le(v, one) {
        lemma_le_transitive(v, u, one);
    }
}

/// A dot is no smaller and no fainter the more its page counts.
pub proof fn lemma_dots_grow(c: Dot, d: Dot, f: Fence, icon_px: u32, a: int, b: int)
    requires
        c.is(f, icon_px, a),
        d.is(f, icon_px, b),
        0 < f.dpi < 0x20_0000,
        ({
            let x = page_activity(f, icon_px, a);
            let y = page_activity(f, icon_px, b);
            &&& canonical(SINGLE as nat, x)
            &&& canonical(SINGLE as nat, y)
            &&& x.0 >= 0
            &&& y.0 >= 0
            &&& float_le(x, y)
        }),
    ensures
        float_le(c.radius@, d.radius@),
        c.color <= d.color,
        c.x@ == d.x@,
        c.glow is Some ==> d.glow is Some,
{
    let p = SINGLE as nat;
    vstd::arithmetic::power2::lemma2_to64();
    let x = page_activity(f, icon_px, a);
    let y = page_activity(f, icon_px, b);
    lemma_int_order(p, 0x4d, 0x4d);
    lemma_int_order(p, 0xb2, 0xb2);
    lemma_int_order(p, f.dpi as int, f.dpi as int);
    lemma_int_order(p, 96, 96);
    lemma_int_parts(p, f.dpi as int);
    lemma_int_parts(p, 96);
    lemma_le_total(single(f.dpi as int), single(f.dpi as int));
    lemma_div_order(p, single(f.dpi as int), single(f.dpi as int), single(96));
    let ratio = dpi_ratio(f.dpi as int);
    let size = times(dot_size(), ratio);
    assert(canonical(p, dot_size()) && canonical(p, dot_growth()));
    lemma_le_total(dot_size(), dot_size());
    lemma_mul_order(p, dot_size(), dot_size(), ratio);
    lemma_le_total(size, size);
    lemma_mul_order(p, size, size, dot_growth());
    let grown = times(size, dot_growth());
    lemma_mul_order(p, x, y, grown);
    lemma_le_total(y, y);
    lemma_mul_order(p, y, y, grown);
    lemma_mul_commutes(p, x, grown);
    lemma_mul_commutes(p, y, grown);
    lemma_add_order(p, size, times(grown, x), times(grown, y));
    lemma_mul_order(p, x, y, single(0xb2));
    lemma_mul_order(p, y, y, single(0xb2));
    lemma_mul_commutes(p, x, single(0xb2));
    lemma_mul_commutes(p, y, single(0xb2));
    let (s, t) = (times(single(0xb2), x), times(single(0xb2), y));
    lemma_add_order(p, single(0x4d), s, t);
    lemma_le_total(t, t);
    lemma_add_order(p, single(0x4d), t, t);
    lemma_le_zero(s);
    lemma_le_zero(t);
    lemma_add_order(p, single(0x4d), (0, 0), s);
    lemma_add_order(p, single(0x4d), (0, 0), t);
    lemma_sub_self(p, single(0x4d));
    lemma_le_zero(plus(single(0x4d), s));
    lemma_le_zero(plus(single(0x4d), t));
    lemma_le_zero(single(0x4d));
    lemma_le_transitive((0, 0), single(0x4d), plus(single(0x4d), s));
    lemma_le_transitive((0, 0), single(0x4d), plus(single(0x4d), t));
    lemma_trunc_order(plus(single(0x4d), s), plus(single(0x4d), t));
    lemma_le_total(x, glow_threshold());
    if float_le(y, glow_threshold()) {
        lemma_le_transitive(x, y, glow_threshold());
    }
}

/// The far corners of a rounded rectangle of whole pixels end at its far edges.
pub proof fn lemma_far_corner(at: int, side: int, radius: int)
    requires
        -0x20_0000 < at < 0x20_0000,
        0 <= side < 0x20_0000,
        0 <= radius < 0x20_0000,
    ensures
        far_corner(single(at), single(side), single(radius)) == single(at + side - 2 * radius),
{
    vstd::arithmetic::power2::lemma2_to64();
    let p = SINGLE as nat;
    lemma_int_add(p, at, side);
    lemma_int_product(p, radius, 2);
    lemma_neg_single(radius * 2);
    lemma_int_add(p, at + side, -(radius * 2));
}

/// A label that fits on one line does so too where there is more room, and where more of it fits.
pub proof fn lemma_more_room(text: Seq<char>, a: int, b: int, width_bits: int, small: (int, int), large: (int, int))
    requires
        one_line(text, a, width_bits, small),
        a < 0 || b < 0 || a <= b,
        a < 0 ==> b < 0,
        canonical(SINGLE as nat, small),
        canonical(SINGLE as nat, large),
        float_le(small, large),
    ensures
        one_line(text, b, width_bits, large),
{
    let p = SINGLE as nat;
    vstd::arithmetic::power2::lemma2_to64();
    let half = (0x80_0000int, -24int);
    assert(canonical(p, half));
    lemma_add_commutes(p, small, half);
    lemma_add_commutes(p, large, half);
    lemma_add_order(p, half, small, large);
    if !is_special(width_bits) {
        lemma_le_transitive(decoded(width_bits), plus(small, half), plus(large, half));
    }
}

} // verus!
