//! A fence: its entries, its pages and their animation, and what lies under a point.
use crate::config::FenceCfg;
use crate::effect::Effect;
use crate::float::{
    float_add, float_div, float_le, float_mul, float_neg, float_round, lemma_round_ratio_canonical, saturate, scale,
    Float, SINGLE,
};
use crate::geometry::{
    cell_h, cell_h_of, cell_w, cell_w_of, dpi_of_ratio, dpi_units, drawable, edge, lemma_cell_range,
    lemma_dpi_round_trip, margin, max_of, rail, scaled_px, single, title_h, window_dpi, BASE_DPI,
};
use crate::precision::{
    den, lemma_at_least_one, lemma_div_near, lemma_int_exact, lemma_scale_pos, lemma_unit_quotient, num,
};
use crate::refresh::{RefreshSignal, RefreshState};
use crate::text::{
    chars_of, lemma_precedes_irreflexive, lemma_precedes_total, lemma_precedes_transitive, lower_text, lowercase,
    precedes, text_before,
};
use vstd::prelude::*;

verus! {

/// How many frames a page animation takes.
pub const ANIM_FRAMES: u32 = 13;

/// How far the wheel turns for one page.
pub const WHEEL_NOTCH: i32 = 120;

/// A file or folder that a fence shows.
#[derive(Debug)]
pub struct Entry {
    pub path: String,
    pub name: String,
    pub is_dir: bool,
}

impl Clone for Entry {
    fn clone(&self) -> (r: Self)
        ensures
            r == *self,
    {
        Entry { path: self.path.clone(), name: self.name.clone(), is_dir: self.is_dir }
    }
}

/// The edge or corner by which a fence is resized.
#[derive(Clone, Copy, Debug, PartialEq, Eq, Structural)]
pub enum ResizeDir {
    N,
    S,
    E,
    W,
    NW,
    NE,
    SW,
    SE,
}

/// A fence while the program runs.
#[derive(Debug)]
pub struct Fence {
    pub cfg: FenceCfg,
    /// The window; 0 where there is none.
    pub hwnd: u64,
    /// The DPI of the display that the window is on.
    pub dpi: u32,
    pub entries: Vec<Entry>,
    /// The current page, from 0.
    pub page: usize,
    /// The row at the top, a single-precision number: between two pages while the animation runs.
    pub top_row: Float,
    pub animating: bool,
    /// How many frames of the animation have passed.
    pub anim_frames: u32,
    /// The row at the top when the animation began.
    pub anim_from: Float,
    /// What the wheel has turned since the last page, in units of a 120th of a notch.
    pub wheel_acc: i32,
    pub hover: Option<usize>,
    /// The entry that was clicked.
    pub selected: Option<usize>,
    pub moving: bool,
    /// Where in the window it was grabbed.
    pub move_off: (i32, i32),
    pub resizing: Option<ResizeDir>,
    pub hover_visible: bool,
    /// The entry that the mouse was pressed on and may be dragged out.
    pub drag_idx: Option<usize>,
    /// Where the mouse was pressed.
    pub drag_down: (i32, i32),
    pub refresh_signal: RefreshSignal,
    /// The size of the surface that was rendered last.
    pub cache: Option<(i32, i32)>,
    pub valid: bool,
}

/// The number 0.
pub open spec fn zero_of() -> (int, int) {
    (0, 0)
}

impl Fence {
    /// What holds of a fence between two operations.
    pub open spec fn wf(self) -> bool {
        &&& self.anim_from.fits(SINGLE as nat, 600)
        &&& self.top_row.fits(SINGLE as nat, 7000)
        &&& !self.animating && self.hwnd != 0 ==> self.top_row.fits(SINGLE as nat, 600)
        &&& self.animating ==> self.anim_frames < ANIM_FRAMES
        &&& -WHEEL_NOTCH < self.wheel_acc < WHEEL_NOTCH
    }

    /// Whether this is a fence that was just made: empty, on its first page, and at rest.
    pub open spec fn is_new(self, cfg: FenceCfg, hwnd: u64, dpi: int) -> bool {
        &&& self.cfg == cfg
        &&& self.hwnd == hwnd
        &&& self.dpi == dpi
        &&& self.entries@.len() == 0
        &&& self.page == 0
        &&& self.top_row@ == zero_of()
        &&& !self.animating
        &&& self.anim_frames == 0
        &&& self.anim_from@ == zero_of()
        &&& self.wheel_acc == 0
        &&& self.hover is None
        &&& self.selected is None
        &&& !self.moving
        &&& self.move_off == (0i32, 0i32)
        &&& self.resizing is None
        &&& !self.hover_visible
        &&& self.drag_idx is None
        &&& self.drag_down == (0i32, 0i32)
        &&& self.refresh_signal.state == (RefreshState { queued: false, last_event: 0 })
        &&& self.cache is None
        &&& self.valid
    }

    /// A fence for a window whose system reports a DPI.
    pub fn new(cfg: FenceCfg, hwnd: u64, reported_dpi: u32) -> (r: Fence)
        ensures
            r.is_new(cfg, hwnd, max_of(reported_dpi as int, BASE_DPI as int)),
            r.wf(),
    {
        Fence {
            cfg,
            hwnd,
            dpi: window_dpi(reported_dpi),
            entries: Vec::new(),
            page: 0,
            top_row: Float { mant: 0, exp: 0 },
            animating: false,
            anim_frames: 0,
            anim_from: Float { mant: 0, exp: 0 },
            wheel_acc: 0,
            hover: None,
            selected: None,
            moving: false,
            move_off: (0, 0),
            resizing: None,
            hover_visible: false,
            drag_idx: None,
            drag_down: (0, 0),
            refresh_signal: RefreshSignal::default(),
            cache: None,
            valid: true,
        }
    }
}

/// How many whole cells fit in a length.
pub open spec fn fitting(len: int, cell: int) -> int {
    if len > 0 {
        len / cell
    } else {
        0
    }
}

/// How many columns a fence of width `w` has: what fits between the margins and the rail, at
/// least one.
pub open spec fn cols_of(icon_px: u32, dpi: u32, w: int) -> int {
    max_of(
        fitting(
            w - 2 * scaled_px(10, dpi as int) - scaled_px(22, dpi as int),
            cell_w_of(icon_px as int, dpi as int),
        ),
        1,
    )
}

/// How many rows a fence of height `h` has: what fits below the title and between the margins.
pub open spec fn rows_of(icon_px: u32, dpi: u32, h: int) -> int {
    fitting(
        h - scaled_px(30, dpi as int) - 2 * scaled_px(10, dpi as int),
        cell_h_of(icon_px as int, dpi as int),
    )
}

impl Fence {
    pub open spec fn cols(self, icon_px: u32) -> int {
        cols_of(icon_px, self.dpi, self.cfg.w as int)
    }

    pub open spec fn rows(self, icon_px: u32) -> int {
        rows_of(icon_px, self.dpi, self.cfg.h as int)
    }

    /// How many entries a page holds.
    pub open spec fn per_page(self, icon_px: u32) -> int {
        self.cols(icon_px) * self.rows(icon_px)
    }

    /// How many pages there are.
    pub open spec fn pages(self, icon_px: u32) -> int {
        pages_of(self.entries@.len() as int, self.per_page(icon_px))
    }

    /// The row at the top of the current page.
    pub open spec fn page_row(self, icon_px: u32) -> (int, int) {
        float_mul(SINGLE as nat, single(self.page as int), single(self.rows(icon_px)))
    }
}

/// How many pages `n` entries take, at least one.
pub open spec fn pages_of(n: int, per_page: int) -> int {
    if per_page <= 0 {
        1
    } else {
        max_of((n + per_page - 1) / per_page, 1)
    }
}

proof fn lemma_fitting(len: int, cell: int)
    requires
        cell > 0,
    ensures
        0 <= fitting(len, cell),
        fitting(len, cell) <= max_of(len, 0),
        fitting(len, cell) * cell <= max_of(len, 0),
{
    if len > 0 {
        assert(0 <= len / cell <= len && (len / cell) * cell <= len) by (nonlinear_arith)
            requires
                len > 0,
                cell > 0,
        ;
    }
}

/// The number of columns and rows of a fence.
pub fn grid_dims(f: &Fence, icon_px: u32) -> (r: (i32, i32))
    requires
        drawable(icon_px, f.dpi),
    ensures
        r.0 == f.cols(icon_px),
        r.1 == f.rows(icon_px),
        r.0 >= 1,
        r.1 >= 0,
{
    proof {
        lemma_cell_range(icon_px as int, f.dpi as int);
    }
    let d: u32 = f.dpi;
    let m: i64 = margin(d) as i64;
    let across: i64 = f.cfg.w as i64 - 2 * m - rail(d) as i64;
    let down: i64 = f.cfg.h as i64 - title_h(d) as i64 - 2 * m;
    let cw: i64 = cell_w(icon_px, d) as i64;
    let ch: i64 = cell_h(icon_px, d) as i64;
    proof {
        lemma_fitting(across as int, cw as int);
        lemma_fitting(down as int, ch as int);
    }
    let cols: i64 = if across > 0 { across / cw } else { 0 };
    let rows: i64 = if down > 0 { down / ch } else { 0 };
    (if cols < 1 { 1 } else { cols as i32 }, rows as i32)
}

/// How many entries a page of a fence holds.
pub fn page_size(f: &Fence, icon_px: u32) -> (r: u64)
    requires
        drawable(icon_px, f.dpi),
    ensures
        r == f.per_page(icon_px),
{
    let (cols, rows) = grid_dims(f, icon_px);
    assert(0 <= cols as int * rows as int <= 0x7fff_ffff * 0x7fff_ffff) by (nonlinear_arith)
        requires
            0 <= cols <= 0x7fff_ffff,
            0 <= rows <= 0x7fff_ffff,
    ;
    (cols as u64) * (rows as u64)
}

/// How many pages a fence has.
pub fn total_pages(f: &Fence, icon_px: u32) -> (r: usize)
    requires
        drawable(icon_px, f.dpi),
    ensures
        r == f.pages(icon_px),
        r >= 1,
{
    let ps: u64 = page_size(f, icon_px);
    if ps == 0 {
        return 1;
    }
    let n: u128 = f.entries.len() as u128 + ps as u128 - 1;
    proof {
        lemma_pages(f.entries@.len() as int, ps as int);
    }
    let pages: u128 = n / (ps as u128);
    if pages < 1 {
        1
    } else {
        pages as usize
    }
}

/// The pages are as many as the entries need, and no more.
pub proof fn lemma_pages(n: int, per_page: int)
    requires
        n >= 0,
    ensures
        1 <= pages_of(n, per_page),
        pages_of(n, per_page) <= max_of(n, 1),
        per_page > 0 ==> pages_of(n, per_page) * per_page >= n,
        per_page > 0 && n > 0 ==> (pages_of(n, per_page) - 1) * per_page < n,
{
    if per_page > 0 {
        let q = (n + per_page - 1) / per_page;
        assert(q * per_page <= n + per_page - 1 && n + per_page - 1 < (q + 1) * per_page) by (nonlinear_arith)
            requires
                q == (n + per_page - 1) / per_page,
                per_page > 0,
        ;
        assert((q + 1) * per_page == q * per_page + per_page) by (nonlinear_arith);
        assert((q - 1) * per_page == q * per_page - per_page) by (nonlinear_arith);
        assert(q <= max_of(n, 1)) by (nonlinear_arith)
            requires
                (q - 1) * per_page < n || n == 0,
                n == 0 ==> q * per_page <= per_page - 1,
                per_page > 0,
                n >= 0,
        ;
        if q < 1 {
            assert(q * per_page <= 0) by (nonlinear_arith)
                requires
                    q <= 0,
                    per_page > 0,
            ;
        }
    }
}

/// A fence whose page is brought into range and whose animation has ended.
pub open spec fn synced(f: Fence, icon_px: u32, g: Fence) -> bool {
    let pages = f.pages(icon_px);
    &&& g == (Fence { page: g.page, top_row: g.top_row, animating: false, ..f })
    &&& g.page == if f.page >= pages { pages - 1 } else { f.page as int }
    &&& g.top_row@ == g.page_row(icon_px)
}

/// What the animation's end asks for.
pub open spec fn stop_effects(hwnd: u64) -> Seq<Effect> {
    if hwnd != 0 {
        seq![Effect::StopAnimation(hwnd)]
    } else {
        Seq::empty()
    }
}

/// Ends the page animation.
pub fn stop_page_anim(f: &mut Fence, fx: &mut Vec<Effect>)
    ensures
        *final(f) == (Fence { animating: false, ..*old(f) }),
        final(fx)@ == old(fx)@ + stop_effects(old(f).hwnd),
{
    f.animating = false;
    if f.hwnd != 0 {
        fx.push(Effect::StopAnimation(f.hwnd));
    }
}

fn page_top(f: &Fence, icon_px: u32) -> (r: Float)
    requires
        drawable(icon_px, f.dpi),
    ensures
        r@ == f.page_row(icon_px),
        r.fits(SINGLE as nat, 600),
{
    let (_, rows) = grid_dims(f, icon_px);
    Float::from_int(SINGLE, f.page as i128).mul(SINGLE, Float::from_int(SINGLE, rows as i128))
}

/// Brings the page into range and the top row to its start, after the size or the entries have
/// changed.
pub fn sync_page(f: &mut Fence, icon_px: u32, fx: &mut Vec<Effect>)
    requires
        drawable(icon_px, old(f).dpi),
        old(f).anim_from.fits(SINGLE as nat, 600),
    ensures
        synced(*old(f), icon_px, *final(f)),
        -WHEEL_NOTCH < old(f).wheel_acc < WHEEL_NOTCH ==> final(f).wf(),
        final(f).page < final(f).pages(icon_px),
        final(fx)@ == old(fx)@ + stop_effects(old(f).hwnd),
{
    let pages: usize = total_pages(f, icon_px);
    if f.page >= pages {
        f.page = pages - 1;
    }
    f.top_row = page_top(f, icon_px);
    stop_page_anim(f, fx);
}

/// Begins the page animation, unless it runs.
pub fn start_page_anim(f: &mut Fence, fx: &mut Vec<Effect>)
    ensures
        *final(f) == (if !old(f).animating && old(f).hwnd != 0 {
            Fence { animating: true, anim_frames: 0, anim_from: old(f).top_row, ..*old(f) }
        } else {
            *old(f)
        }),
        final(fx)@ == (if !old(f).animating && old(f).hwnd != 0 {
            old(fx)@.push(Effect::StartAnimation(old(f).hwnd))
        } else {
            old(fx)@
        }),
        old(f).wf() ==> final(f).wf(),
{
    if !f.animating && f.hwnd != 0 {
        f.animating = true;
        f.anim_frames = 0;
        f.anim_from = f.top_row;
        fx.push(Effect::StartAnimation(f.hwnd));
    }
}

/// How far an animation has come after so many frames, from 0 to 1.
pub open spec fn progress_of(frames: int) -> (int, int) {
    let t = float_div(SINGLE as nat, single(frames), single(ANIM_FRAMES as int));
    if float_le(single(1), t) {
        single(1)
    } else {
        t
    }
}

/// `1 - (1 - t)^3`: fast at first, slow at the end.
pub open spec fn eased(t: (int, int)) -> (int, int) {
    let p = SINGLE as nat;
    let u = float_add(p, single(1), float_neg(t));
    float_add(p, single(1), float_neg(float_mul(p, float_mul(p, u, u), u)))
}

/// The top row on the way from one row to another.
pub open spec fn between(from: (int, int), target: (int, int), t: (int, int)) -> (int, int) {
    let p = SINGLE as nat;
    float_add(p, from, float_mul(p, float_add(p, target, float_neg(from)), eased(t)))
}

/// Whether an animation is over after so many frames.
pub open spec fn arrived(frames: int) -> bool {
    float_le(single(1), progress_of(frames))
}

proof fn lemma_precision_single()
    ensures
        SINGLE as nat == 24,
        vstd::arithmetic::power2::pow2(24) == 0x100_0000,
        vstd::arithmetic::power2::pow2(23) == 0x80_0000,
{
    vstd::arithmetic::power2::lemma2_to64();
}

/// An animation takes exactly its number of frames.
pub proof fn lemma_animation_length(frames: int)
    requires
        1 <= frames <= ANIM_FRAMES,
    ensures
        arrived(frames) <==> frames == ANIM_FRAMES,
{
    lemma_precision_single();
    let p = SINGLE as nat;
    let t = float_div(p, single(frames), single(13));
    lemma_int_exact(p, frames);
    lemma_int_exact(p, 1);
    if frames == 13 {
        lemma_unit_quotient(p, single(13));
        lemma_at_least_one(p, single(1));
        assert(num(single(1)) == den(single(1))) by {
            lemma_scale_pos(single(1).1);
            assert(single(1).0 * 1 == 1 * scale(-single(1).1));
            assert(scale(single(1).1) == 1);
        }
    } else {
        lemma_div_near(p, frames, 13);
        lemma_quotient_canonical(frames, 13);
        lemma_at_least_one(p, t);
        let x = num(t);
        let y = den(t);
        lemma_scale_pos(-t.1);
        let u = x * 13 - frames * y;
        assert(0x100_0000 * u <= 1 * (frames * y));
        let w = frames * y;
        assert(w <= 12 * y) by (nonlinear_arith)
            requires
                w == frames * y,
                frames <= 12,
                y > 0,
        ;
        assert(x < y);
    }
}

proof fn lemma_quotient_canonical(a: int, b: int)
    requires
        0 < a < 0x100_0000,
        0 < b < 0x100_0000,
    ensures
        float_div(SINGLE as nat, single(a), single(b)).0 >= 0x80_0000,
{
    reveal(float_mul);
    reveal(float_div);
    lemma_precision_single();
    let p = SINGLE as nat;
    lemma_int_exact(p, a);
    lemma_int_exact(p, b);
    lemma_div_near(p, a, b);
    lemma_round_ratio_canonical(p, single(a).0, single(b).0);
}

fn progress(frames: u32) -> (r: Float)
    requires
        frames > 0,
    ensures
        r@ == progress_of(frames as int),
        r.fits(SINGLE as nat, 600),
{
    let one = Float::from_int(SINGLE, 1);
    let t = Float::from_int(SINGLE, frames as i128).div(SINGLE, Float::from_int(SINGLE, ANIM_FRAMES as i128));
    if one.le(SINGLE, t) {
        one
    } else {
        t
    }
}

fn ease(t: Float) -> (r: Float)
    requires
        t.fits(SINGLE as nat, 600),
    ensures
        r@ == eased(t@),
        r.fits(SINGLE as nat, 3800),
{
    proof {
        lemma_precision_single();
    }
    let one = Float::from_int(SINGLE, 1);
    let u = one.add(SINGLE, t.neg());
    let c = u.mul(SINGLE, u).mul(SINGLE, u);
    one.add(SINGLE, c.neg())
}

fn interpolate(from: Float, target: Float, t: Float) -> (r: Float)
    requires
        from.fits(SINGLE as nat, 600),
        target.fits(SINGLE as nat, 600),
        t.fits(SINGLE as nat, 600),
    ensures
        r@ == between(from@, target@, t@),
        r.fits(SINGLE as nat, 7000),
{
    proof {
        lemma_precision_single();
    }
    let e = ease(t);
    let way = target.add(SINGLE, from.neg());
    from.add(SINGLE, way.mul(SINGLE, e))
}

/// A fence after one more frame of its animation.
pub open spec fn stepped(f: Fence, icon_px: u32, g: Fence) -> bool {
    let frames = f.anim_frames + 1;
    &&& g.top_row@ == if arrived(frames) {
        f.page_row(icon_px)
    } else {
        between(f.anim_from@, f.page_row(icon_px), progress_of(frames))
    }
    &&& g == (Fence {
        anim_frames: (f.anim_frames + 1) as u32,
        top_row: g.top_row,
        animating: f.animating && !arrived(frames),
        ..f
    })
}

/// Moves the animation on by a frame and says whether it goes on; at its end the top row is
/// exactly that of the page.
pub fn step_page_anim(f: &mut Fence, icon_px: u32, fx: &mut Vec<Effect>) -> (r: bool)
    requires
        drawable(icon_px, old(f).dpi),
        old(f).anim_from.fits(SINGLE as nat, 600),
        old(f).anim_frames < u32::MAX,
    ensures
        r == !arrived(old(f).anim_frames + 1),
        stepped(*old(f), icon_px, *final(f)),
        final(fx)@ == (if r {
            old(fx)@
        } else {
            old(fx)@ + stop_effects(old(f).hwnd)
        }),
        (old(f).animating || old(f).hwnd == 0) && old(f).wf() ==> final(f).wf(),
{
    proof {
        if f.animating && f.wf() {
            lemma_animation_length(f.anim_frames + 1);
        }
    }
    let target = page_top(f, icon_px);
    f.anim_frames = f.anim_frames + 1;
    let t = progress(f.anim_frames);
    f.top_row = interpolate(f.anim_from, target, t);
    if Float::from_int(SINGLE, 1).le(SINGLE, t) {
        f.top_row = target;
        stop_page_anim(f, fx);
        false
    } else {
        true
    }
}

/// Whether `a` is shown before `b`: folders before files, then by name without regard to case.
pub open spec fn shown_before(a: Entry, b: Entry) -> bool {
    if a.is_dir != b.is_dir {
        a.is_dir
    } else {
        precedes(lower_text(a.name@), lower_text(b.name@))
    }
}

/// Where `e` goes among entries that are in order: behind all that are not shown after it.
pub open spec fn slot_of(sorted: Seq<Entry>, e: Entry) -> int
    decreases sorted.len(),
{
    if sorted.len() == 0 {
        0
    } else if shown_before(e, sorted.last()) {
        slot_of(sorted.drop_last(), e)
    } else {
        sorted.len() as int
    }
}

/// Entries in the order in which they are shown; those that are alike stay as they came.
pub open spec fn in_order(entries: Seq<Entry>) -> Seq<Entry>
    decreases entries.len(),
{
    if entries.len() == 0 {
        Seq::empty()
    } else {
        let head = in_order(entries.drop_last());
        head.insert(slot_of(head, entries.last()), entries.last())
    }
}

proof fn lemma_slot(sorted: Seq<Entry>, e: Entry)
    ensures
        0 <= slot_of(sorted, e) <= sorted.len(),
        forall|i: int| slot_of(sorted, e) <= i < sorted.len() ==> shown_before(e, #[trigger] sorted[i]),
        slot_of(sorted, e) > 0 ==> !shown_before(e, sorted[slot_of(sorted, e) - 1]),
    decreases sorted.len(),
{
    if sorted.len() > 0 && shown_before(e, sorted.last()) {
        let head = sorted.drop_last();
        lemma_slot(head, e);
        assert forall|i: int| slot_of(sorted, e) <= i < sorted.len() implies shown_before(e, #[trigger] sorted[i]) by {
            if i < head.len() {
                assert(head[i] == sorted[i]);
            }
        }
    }
}

proof fn lemma_in_order_len(entries: Seq<Entry>)
    ensures
        in_order(entries).len() == entries.len(),
    decreases entries.len(),
{
    if entries.len() > 0 {
        lemma_in_order_len(entries.drop_last());
        lemma_slot(in_order(entries.drop_last()), entries.last());
    }
}

/// Sorting loses nothing and adds nothing.
pub proof fn lemma_in_order_keeps(entries: Seq<Entry>)
    ensures
        in_order(entries).to_multiset() == entries.to_multiset(),
    decreases entries.len(),
{
    broadcast use vstd::seq_lib::group_to_multiset_ensures;

    if entries.len() > 0 {
        let head = in_order(entries.drop_last());
        let e = entries.last();
        lemma_in_order_keeps(entries.drop_last());
        lemma_slot(head, e);
        assert(entries =~= entries.drop_last().push(e));
        assert(in_order(entries).to_multiset() =~= head.to_multiset().insert(e));
        assert(entries.to_multiset() =~= entries.drop_last().to_multiset().insert(e));
    } else {
        assert(in_order(entries) =~= entries);
    }
}

proof fn lemma_shown_before_transitive(a: Entry, b: Entry, c: Entry)
    requires
        !shown_before(b, a),
        !shown_before(c, b),
    ensures
        !shown_before(c, a),
{
    if a.is_dir == b.is_dir && b.is_dir == c.is_dir {
        let (x, y, z) = (lower_text(a.name@), lower_text(b.name@), lower_text(c.name@));
        lemma_precedes_total(x, y);
        lemma_precedes_total(y, z);
        if precedes(z, x) {
            if precedes(x, y) {
                lemma_precedes_transitive(z, x, y);
            }
        }
    }
}

proof fn lemma_shown_before_asymmetric(a: Entry, b: Entry)
    requires
        shown_before(a, b),
    ensures
        !shown_before(b, a),
{
    if a.is_dir == b.is_dir {
        let (x, y) = (lower_text(a.name@), lower_text(b.name@));
        if precedes(y, x) {
            lemma_precedes_transitive(x, y, x);
            lemma_precedes_irreflexive(x);
        }
    }
}

/// Nothing is shown after what it should be shown before.
pub proof fn lemma_in_order_sorted(entries: Seq<Entry>)
    ensures
        forall|i: int, j: int|
            0 <= i < j < entries.len() ==> !shown_before(#[trigger] in_order(entries)[j], #[trigger] in_order(entries)[i]),
        in_order(entries).len() == entries.len(),
    decreases entries.len(),
{
    lemma_in_order_len(entries);
    if entries.len() > 0 {
        let head = in_order(entries.drop_last());
        let e = entries.last();
        lemma_in_order_sorted(entries.drop_last());
        lemma_slot(head, e);
        let k = slot_of(head, e);
        let all = in_order(entries);
        assert(all == head.insert(k, e));
        assert forall|i: int, j: int| 0 <= i < j < entries.len() implies !shown_before(
            #[trigger] all[j],
            #[trigger] all[i],
        ) by {
            if j == k {
                if i < k - 1 {
                    assert(!shown_before(head[k - 1], head[i]));
                    lemma_shown_before_transitive(head[i], head[k - 1], e);
                }
            } else if i == k {
                assert(all[j] == head[j - 1]);
                lemma_shown_before_asymmetric(e, head[j - 1]);
            } else {
                let i0 = if i < k { i } else { i - 1 };
                let j0 = if j < k { j } else { j - 1 };
                assert(all[i] == head[i0] && all[j] == head[j0]);
            }
        }
    }
}

/// Whether two entries have the same place in the order.
pub open spec fn alike(a: Entry, b: Entry) -> bool {
    a.is_dir == b.is_dir && lower_text(a.name@) == lower_text(b.name@)
}

/// Entries that have the same place in the order stay as they came.
pub proof fn lemma_in_order_stable(entries: Seq<Entry>, e: Entry)
    ensures
        in_order(entries).filter(|x: Entry| alike(x, e)) == entries.filter(|x: Entry| alike(x, e)),
    decreases entries.len(),
{
    let same = |x: Entry| alike(x, e);
    if entries.len() > 0 {
        let head = in_order(entries.drop_last());
        let last = entries.last();
        lemma_in_order_stable(entries.drop_last(), e);
        lemma_slot(head, last);
        let k = slot_of(head, last);
        let low = head.take(k);
        let high = head.skip(k);
        assert(head =~= low + high);
        assert(in_order(entries) =~= (low + seq![last]) + high);
        assert(entries =~= entries.drop_last() + seq![last]);
        Seq::filter_distributes_over_add(low, high, same);
        Seq::filter_distributes_over_add(low + seq![last], high, same);
        Seq::filter_distributes_over_add(low, seq![last], same);
        Seq::filter_distributes_over_add(entries.drop_last(), seq![last], same);
        if alike(last, e) {
            assert forall|i: int| 0 <= i < high.len() implies !same(#[trigger] high[i]) by {
                assert(high[i] == head[k + i]);
                assert(shown_before(last, head[k + i]));
                lemma_precedes_irreflexive(lower_text(last.name@));
            }
            lemma_filter_none(high, same);
            assert(in_order(entries).filter(same) =~= entries.filter(same));
        } else {
            assert(seq![last].filter(same) =~= Seq::<Entry>::empty()) by {
                lemma_filter_none(seq![last], same);
            }
            assert(in_order(entries).filter(same) =~= entries.filter(same));
        }
    } else {
        assert(in_order(entries) =~= entries);
    }
}

proof fn lemma_filter_none(s: Seq<Entry>, pred: spec_fn(Entry) -> bool)
    requires
        forall|i: int| 0 <= i < s.len() ==> !pred(#[trigger] s[i]),
    ensures
        s.filter(pred) == Seq::<Entry>::empty(),
    decreases s.len(),
{
    reveal(Seq::filter);
    if s.len() > 0 {
        assert forall|i: int| 0 <= i < s.drop_last().len() implies !pred(#[trigger] s.drop_last()[i]) by {
            assert(s.drop_last()[i] == s[i]);
        }
        lemma_filter_none(s.drop_last(), pred);
        assert(!pred(s[s.len() - 1]));
    }
}

fn entry_before(a: &Entry, key: &Vec<char>, b: &Entry, other: &Vec<char>) -> (r: bool)
    requires
        key@ == lower_text(a.name@),
        other@ == lower_text(b.name@),
    ensures
        r == shown_before(*a, *b),
{
    if a.is_dir != b.is_dir {
        a.is_dir
    } else {
        text_before(key, other)
    }
}

/// Brings entries into the order in which they are shown.
pub fn sort_entries(listing: &Vec<Entry>) -> (r: Vec<Entry>)
    ensures
        r@ == in_order(listing@),
{
    let n: usize = listing.len();
    let mut out: Vec<Entry> = Vec::new();
    let mut keys: Vec<Vec<char>> = Vec::new();
    let mut i: usize = 0;
    assert(listing@.take(0).len() == 0);
    assert(out@ =~= in_order(listing@.take(0)));
    while i < n
        invariant
            i <= n,
            n == listing@.len(),
            out@ == in_order(listing@.take(i as int)),
            out@.len() == i,
            keys@.len() == i,
            forall|j: int| 0 <= j < i ==> (#[trigger] keys@[j])@ == lower_text(out@[j].name@),
        decreases n - i,
    {
        let e = listing[i].clone();
        let key = chars_of(lowercase(e.name.as_str()).as_str());
        let mut k: usize = i;
        assert(out@.take(i as int) =~= out@);
        while k > 0 && entry_before(&e, &key, &out[k - 1], &keys[k - 1])
            invariant
                k <= i,
                out@.len() == i,
                keys@.len() == i,
                key@ == lower_text(e.name@),
                forall|j: int| 0 <= j < i ==> (#[trigger] keys@[j])@ == lower_text(out@[j].name@),
                slot_of(out@, e) == slot_of(out@.take(k as int), e),
            decreases k,
        {
            assert(out@.take(k as int).drop_last() =~= out@.take(k - 1));
            k = k - 1;
        }
        let ghost before = out@;
        let ghost keys_before = keys@;
        out.insert(k, e);
        keys.insert(k, key);
        proof {
            assert(listing@.take(i + 1).drop_last() =~= listing@.take(i as int));
            assert(listing@.take(i + 1).last() == listing@[i as int]);
            assert(out@ == before.insert(k as int, e));
            assert forall|j: int| 0 <= j < i + 1 implies (#[trigger] keys@[j])@ == lower_text(out@[j].name@) by {
                if j > k {
                    assert(keys@[j] == keys_before[j - 1]);
                    assert(out@[j] == before[j - 1]);
                } else if j < k {
                    assert(keys@[j] == keys_before[j]);
                    assert(out@[j] == before[j]);
                }
            }
        }
        i = i + 1;
    }
    assert(listing@.take(n as int) =~= listing@);
    out
}

/// The first entry with a path.
pub open spec fn entry_at(entries: Seq<Entry>, path: Seq<char>) -> Option<usize>
    decreases entries.len(),
{
    if entries.len() == 0 {
        None
    } else {
        match entry_at(entries.drop_last(), path) {
            Some(i) => Some(i),
            None => if entries.last().path@ == path {
                Some((entries.len() - 1) as usize)
            } else {
                None
            },
        }
    }
}

/// Finds the first entry with a path.
pub fn find_entry(entries: &Vec<Entry>, path: &String) -> (r: Option<usize>)
    ensures
        r == entry_at(entries@, path@),
{
    let n: usize = entries.len();
    let mut i: usize = 0;
    let mut found: Option<usize> = None;
    assert(entries@.take(0).len() == 0);
    while i < n
        invariant
            i <= n,
            n == entries@.len(),
            found == entry_at(entries@.take(i as int), path@),
        decreases n - i,
    {
        assert(entries@.take(i + 1).drop_last() =~= entries@.take(i as int));
        if found.is_none() && entries[i].path == *path {
            found = Some(i);
        }
        i = i + 1;
    }
    assert(entries@.take(n as int) =~= entries@);
    found
}

/// The path of the entry that is selected.
pub open spec fn selected_path(f: Fence) -> Option<Seq<char>> {
    match f.selected {
        Some(i) => if i < f.entries@.len() {
            Some(f.entries@[i as int].path@)
        } else {
            None
        },
        None => None,
    }
}

/// What a fence shows of a listing: nothing where the folder could not be read.
pub open spec fn shown(listing: Option<Vec<Entry>>) -> Seq<Entry> {
    match listing {
        Some(v) => in_order(v@),
        None => Seq::empty(),
    }
}

/// A fence after its folder was listed: it shows the listing in order, the same file stays
/// selected, and the page stays where it was as far as there still is one.
pub open spec fn refreshed(f: Fence, listing: Option<Vec<Entry>>, icon_px: u32, g: Fence) -> bool {
    &&& g.entries@ == shown(listing)
    &&& g.selected == match selected_path(f) {
        Some(p) => entry_at(g.entries@, p),
        None => None,
    }
    &&& synced(
        Fence { entries: g.entries, selected: g.selected, wheel_acc: 0, ..f },
        icon_px,
        g,
    )
}

/// Takes over what the fence's folder holds.
pub fn refresh_entries(f: &mut Fence, listing: &Option<Vec<Entry>>, icon_px: u32, fx: &mut Vec<Effect>)
    requires
        drawable(icon_px, old(f).dpi),
        old(f).anim_from.fits(SINGLE as nat, 600),
    ensures
        refreshed(*old(f), *listing, icon_px, *final(f)),
        final(f).wf(),
        final(f).page < final(f).pages(icon_px),
        final(fx)@ == old(fx)@ + stop_effects(old(f).hwnd),
{
    let kept: Option<String> = match f.selected {
        Some(i) => if i < f.entries.len() {
            Some(f.entries[i].path.clone())
        } else {
            None
        },
        None => None,
    };
    f.entries = match listing {
        Some(v) => sort_entries(v),
        None => Vec::new(),
    };
    assert(f.entries@ =~= shown(*listing));
    f.selected = match &kept {
        Some(p) => find_entry(&f.entries, p),
        None => None,
    };
    f.wheel_acc = 0;
    sync_page(f, icon_px, fx);
}

/// What is saved of a fence: its rectangle as it is, with the DPI of its window.
pub open spec fn snapshot_of(f: Fence) -> FenceCfg {
    FenceCfg { dpi: dpi_of_ratio(max_of(f.dpi as int, BASE_DPI as int)) as u32, ..f.cfg }
}

/// What is saved of a list of fences.
pub open spec fn snapshots(fences: Seq<Fence>) -> Seq<FenceCfg> {
    fences.map_values(|f: Fence| snapshot_of(f))
}

/// What is saved of a list of fences.
pub fn config_snapshot(fences: &Vec<Fence>) -> (r: Vec<FenceCfg>)
    ensures
        r@ == snapshots(fences@),
{
    let mut out: Vec<FenceCfg> = Vec::new();
    let n: usize = fences.len();
    let mut i: usize = 0;
    while i < n
        invariant
            i <= n,
            n == fences@.len(),
            out@.len() == i,
            forall|j: int| 0 <= j < i ==> #[trigger] out@[j] == snapshot_of(fences@[j]),
        decreases n - i,
    {
        let mut c = fences[i].cfg.clone();
        c.dpi = dpi_units(window_dpi(fences[i].dpi));
        out.push(c);
        i = i + 1;
    }
    assert(out@ =~= snapshots(fences@));
    out
}

/// On every display that occurs, a saved fence has the DPI of its window, and all else of it is
/// saved as it is.
pub proof fn lemma_snapshot_dpi(f: Fence)
    requires
        BASE_DPI <= f.dpi < 0x20_0000,
    ensures
        snapshot_of(f) == (FenceCfg { dpi: f.dpi, ..f.cfg }),
{
    lemma_dpi_round_trip(f.dpi as int);
}

/// The entry under a point of a fence with so many columns: the cell that the point is in, counted
/// from the row at the top, which is rounded while pages are moving.
pub open spec fn item_at(f: Fence, icon_px: u32, x: int, y: int, cols: int) -> Option<usize> {
    let dx = x - scaled_px(10, f.dpi as int);
    let dy = y - scaled_px(30, f.dpi as int) - scaled_px(10, f.dpi as int);
    let col = dx / cell_w_of(icon_px as int, f.dpi as int);
    let row = dy / cell_h_of(icon_px as int, f.dpi as int) + saturate(float_round(f.top_row@));
    let idx = row * cols + col;
    if dx < 0 || dy < 0 || col >= cols || idx < 0 || idx >= f.entries@.len() {
        None
    } else {
        Some(idx as usize)
    }
}

/// The entry under a point of the window.
pub fn hit_item(f: &Fence, icon_px: u32, x: i32, y: i32, cols: i32) -> (r: Option<usize>)
    requires
        drawable(icon_px, f.dpi),
        f.top_row.fits(SINGLE as nat, 7000),
    ensures
        r == item_at(*f, icon_px, x as int, y as int, cols as int),
        r is Some ==> r->0 < f.entries@.len(),
{
    proof {
        lemma_cell_range(icon_px as int, f.dpi as int);
    }
    if f.entries.len() == 0 {
        return None;
    }
    let d: u32 = f.dpi;
    let dx: i64 = x as i64 - margin(d) as i64;
    let dy: i64 = y as i64 - title_h(d) as i64 - margin(d) as i64;
    if dx < 0 || dy < 0 {
        return None;
    }
    let cw: i64 = cell_w(icon_px, d) as i64;
    let ch: i64 = cell_h(icon_px, d) as i64;
    proof {
        lemma_fitting(dx as int, cw as int);
        lemma_fitting(dy as int, ch as int);
        assert(0int / cw as int == 0);
        assert(0int / ch as int == 0);
    }
    let col: i64 = dx / cw;
    if col >= cols as i64 {
        return None;
    }
    let row: i64 = dy / ch + f.top_row.round_i32(SINGLE) as i64;
    assert(-0x4_0000_0000 * 0x8000_0000 <= row as int * cols as int <= 0x4_0000_0000 * 0x8000_0000) by (nonlinear_arith)
        requires
            -0x4_0000_0000 <= row <= 0x4_0000_0000,
            -0x8000_0000 <= cols <= 0x7fff_ffff,
    ;
    let idx: i128 = row as i128 * cols as i128 + col as i128;
    if idx >= 0 && idx < f.entries.len() as i128 {
        Some(idx as usize)
    } else {
        None
    }
}

/// The point in the middle of the cell of column `col` and row `row` of a page that is at rest.
pub open spec fn cell_point(f: Fence, icon_px: u32, col: int, row: int) -> (int, int) {
    (
        scaled_px(10, f.dpi as int) + col * cell_w_of(icon_px as int, f.dpi as int),
        scaled_px(30, f.dpi as int) + scaled_px(10, f.dpi as int) + row * cell_h_of(icon_px as int, f.dpi as int),
    )
}

/// Every point of a cell hits the entry that the cell shows: those of a page follow each other row
/// by row.
pub proof fn lemma_hit_cell(f: Fence, icon_px: u32, top: int, col: int, row: int, dx: int, dy: int)
    requires
        drawable(icon_px, f.dpi),
        saturate(float_round(f.top_row@)) == top,
        0 <= top,
        0 <= col < f.cols(icon_px),
        0 <= row,
        0 <= dx < cell_w_of(icon_px as int, f.dpi as int),
        0 <= dy < cell_h_of(icon_px as int, f.dpi as int),
    ensures
        ({
            let p = cell_point(f, icon_px, col, row);
            let idx = (top + row) * f.cols(icon_px) + col;
            item_at(f, icon_px, p.0 + dx, p.1 + dy, f.cols(icon_px)) == if idx < f.entries@.len() {
                Some(idx as usize)
            } else {
                None
            }
        }),
{
    let cw = cell_w_of(icon_px as int, f.dpi as int);
    let ch = cell_h_of(icon_px as int, f.dpi as int);
    assert((col * cw + dx) / cw == col && col * cw + dx >= 0) by (nonlinear_arith)
        requires
            0 <= dx < cw,
            col >= 0,
    ;
    assert((row * ch + dy) / ch == row && row * ch + dy >= 0) by (nonlinear_arith)
        requires
            0 <= dy < ch,
            row >= 0,
    ;
    let cols = f.cols(icon_px);
    assert((top + row) * cols >= 0) by (nonlinear_arith)
        requires
            top >= 0,
            row >= 0,
            cols >= 1,
    ;
}

/// The edge or corner at a point of a fence of width `w` and height `h` with a border of `e`. The
/// left and the upper border win where borders meet.
pub open spec fn border_at(w: int, h: int, e: int, x: int, y: int) -> Option<ResizeDir> {
    let left = x < e;
    let right = x >= w - e;
    let top = y < e;
    let bottom = y >= h - e;
    if left {
        Some(
            if top {
                ResizeDir::NW
            } else if bottom {
                ResizeDir::SW
            } else {
                ResizeDir::W
            },
        )
    } else if right {
        Some(
            if top {
                ResizeDir::NE
            } else if bottom {
                ResizeDir::SE
            } else {
                ResizeDir::E
            },
        )
    } else if top {
        Some(ResizeDir::N)
    } else if bottom {
        Some(ResizeDir::S)
    } else {
        None
    }
}

/// The edge or corner of a fence at a point of its window.
pub fn resize_dir_at(f: &Fence, x: i32, y: i32) -> (r: Option<ResizeDir>)
    ensures
        r == border_at(f.cfg.w as int, f.cfg.h as int, scaled_px(8, f.dpi as int), x as int, y as int),
{
    let e: i64 = edge(f.dpi) as i64;
    let left: bool = (x as i64) < e;
    let right: bool = x as i64 >= f.cfg.w as i64 - e;
    let top: bool = (y as i64) < e;
    let bottom: bool = y as i64 >= f.cfg.h as i64 - e;
    match (left, right, top, bottom) {
        (true, _, true, _) => Some(ResizeDir::NW),
        (true, _, false, true) => Some(ResizeDir::SW),
        (false, true, true, _) => Some(ResizeDir::NE),
        (false, true, false, true) => Some(ResizeDir::SE),
        (true, _, _, _) => Some(ResizeDir::W),
        (false, true, _, _) => Some(ResizeDir::E),
        (_, _, true, _) => Some(ResizeDir::N),
        (_, _, false, true) => Some(ResizeDir::S),
        _ => None,
    }
}

/// 16 bits, read as a signed number.
pub open spec fn signed16(v: int) -> int {
    let u = v % 0x1_0000;
    if u >= 0x8000 {
        u - 0x1_0000
    } else {
        u
    }
}

/// The signed number in the low 16 bits.
pub fn low16(v: u64) -> (r: i32)
    ensures
        r == signed16(v as int),
        -0x8000 <= r < 0x8000,
{
    let u: i32 = (v % 0x1_0000) as i32;
    if u >= 0x8000 {
        u - 0x1_0000
    } else {
        u
    }
}

/// The signed number in the 16 bits above the low ones.
pub fn high16(v: u64) -> (r: i32)
    ensures
        r == signed16(v as int / 0x1_0000),
        -0x8000 <= r < 0x8000,
{
    low16(v / 0x1_0000)
}

} // verus!
