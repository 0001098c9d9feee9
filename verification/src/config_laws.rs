//! What holds of settings as they are read, brought up to date and scaled, for all of them.
use crate::config::{
    chosen_icon, largest_id, lemma_rescaled_exact, migrated, migrated_px, nearest, rescaled, FenceCfg, RawConfig,
    RawFence, Config,
};
use crate::float::{canonical, float_le, float_mul, float_neg, SINGLE};
use crate::geometry::{
    cell_h_of, cell_w_of, dpi_ratio, half_of, icon_of, icon_px_of, lemma_magnet_snaps, magnet_of, lemma_neg_single, lemma_scaled_px_close, rounded_px, single,
};
use crate::order::{lemma_mul_commutes, lemma_mul_negated};
use crate::precision::lemma_exact_quotient;
use vstd::prelude::*;

verus! {

/// A length that is brought from the DPI it was saved at to another one keeps its logical size: it is the
/// nearest number of pixels, the farther one from zero where two are as near.
pub proof fn lemma_rescaled_nearest(value: int, saved_dpi: int, current_dpi: int)
    requires
        i32::MIN <= value <= i32::MAX,
        0 < saved_dpi <= u32::MAX,
        0 < current_dpi <= u32::MAX,
        -0x10_0000_0000_0000 < value * current_dpi < 0x10_0000_0000_0000,
        i32::MIN < rescaled(value, saved_dpi, current_dpi) < i32::MAX,
    ensures
        ({
            let r = rescaled(value, saved_dpi, current_dpi);
            let d = 2 * (r * saved_dpi - value * current_dpi);
            &&& -saved_dpi <= d <= saved_dpi
            &&& value >= 0 ==> -saved_dpi < d
            &&& value <= 0 ==> d < saved_dpi
        }),
{
    lemma_rescaled_exact(value, saved_dpi, current_dpi);
    let n = value * current_dpi;
    let m = if n < 0 { -n } else { n };
    let q = (2 * m + saved_dpi) / (2 * saved_dpi);
    assert(2 * (q * saved_dpi) <= 2 * m + saved_dpi && 2 * m + saved_dpi < 2 * (q * saved_dpi) + 2 * saved_dpi) by (nonlinear_arith)
        requires
            q == (2 * m + saved_dpi) / (2 * saved_dpi),
            saved_dpi > 0,
    ;
    assert((-q) * saved_dpi == -(q * saved_dpi)) by (nonlinear_arith);
    assert((value >= 0 ==> n >= 0) && (value < 0 ==> n < 0)) by (nonlinear_arith)
        requires
            n == value * current_dpi,
            current_dpi > 0,
    ;
    if value == 0 {
        assert(n == 0 && q == 0) by (nonlinear_arith)
            requires
                n == value * current_dpi,
                value == 0,
                m == if n < 0 { -n } else { n },
                q == (2 * m + saved_dpi) / (2 * saved_dpi),
                saved_dpi > 0,
        ;
    }
}

/// A logical length becomes the nearest number of pixels, to either side of zero alike.
pub proof fn lemma_migrated_nearest(v: int, system_dpi: int)
    requires
        0 < v,
        0 < system_dpi,
        v * system_dpi < 0x40_0000,
    ensures
        -48 <= 96 * migrated_px(v, system_dpi) - v * system_dpi <= 48,
        migrated_px(-v, system_dpi) == -migrated_px(v, system_dpi),
{
    lemma_scaled_px_close(v, system_dpi);
    let p = SINGLE as nat;
    let r = dpi_ratio(system_dpi);
    lemma_neg_single(v);
    lemma_mul_commutes(p, single(v), r);
    lemma_mul_commutes(p, single(-v), r);
    lemma_mul_negated(p, r, single(v));
    let a = float_mul(p, single(v), r);
    assert(float_mul(p, single(-v), r) == float_neg(a));
    crate::float_laws::lemma_round_nearest(a);
    crate::float_laws::lemma_round_nearest(float_neg(a));
    assert(96 * rounded_px(v, system_dpi) <= 0x40_0000 + 48);
    if a.0 == 0 {
        assert(float_neg(a) == a);
    }
}

/// The rectangle of an old file is brought to physical pixels, each length by itself; on a display of the base
/// DPI it stays as it is.
pub proof fn lemma_migrated(f: FenceCfg, system_dpi: u32)
    requires
        0 < system_dpi < 0x20_0000,
        0 < f.x,
        0 < f.y,
        0 < f.w,
        0 < f.h,
        f.x * system_dpi < 0x40_0000,
        f.y * system_dpi < 0x40_0000,
        f.w * system_dpi < 0x40_0000,
        f.h * system_dpi < 0x40_0000,
    ensures
        ({
            let m = migrated(f, system_dpi);
            &&& -48 <= 96 * m.x - f.x * system_dpi <= 48
            &&& -48 <= 96 * m.y - f.y * system_dpi <= 48
            &&& -48 <= 96 * m.w - f.w * system_dpi <= 48
            &&& -48 <= 96 * m.h - f.h * system_dpi <= 48
            &&& system_dpi == 96 ==> m.x == f.x && m.y == f.y && m.w == f.w && m.h == f.h
            &&& m.dpi == system_dpi
            &&& m.id == f.id && m.title == f.title && m.folder == f.folder && m.opacity == f.opacity && m.icon == f.icon
        }),
{
    let d = system_dpi as int;
    lemma_migrated_nearest(f.x as int, d);
    lemma_migrated_nearest(f.y as int, d);
    lemma_migrated_nearest(f.w as int, d);
    lemma_migrated_nearest(f.h as int, d);
    if dpi_ratio(d) == single(1) {
        lemma_unscaled(d);
    }
    if d == 96 {
        lemma_unscaled(d);
    }
}

/// The scale factor is 1 at the base DPI, and at no other.
proof fn lemma_unscaled(dpi: int)
    requires
        0 < dpi < 0x20_0000 || dpi == 96,
    ensures
        dpi == 96 <==> dpi_ratio(dpi) == single(1),
{
    vstd::arithmetic::power2::lemma2_to64();
    lemma_exact_quotient(SINGLE as nat, 1, 96);
    if dpi_ratio(dpi) == single(1) {
        crate::geometry::lemma_dpi_round_trip(dpi);
        crate::geometry::lemma_dpi_round_trip(96);
    }
}

/// The icon size of a file: its own where it has one; else that of the first fence that has one; else the
/// usual one.
pub proof fn lemma_chosen_icon(icon: u32, fences: Seq<FenceCfg>, k: int)
    requires
        0 <= k <= fences.len(),
        forall|i: int| 0 <= i < k ==> (#[trigger] fences[i]).icon == 0,
        k < fences.len() ==> fences[k].icon != 0,
    ensures
        icon != 0 ==> chosen_icon(icon, fences) == icon,
        icon == 0 && k < fences.len() ==> chosen_icon(icon, fences) == fences[k].icon,
        icon == 0 && k == fences.len() ==> chosen_icon(icon, fences) == 32,
    decreases fences.len(),
{
    if icon == 0 && fences.len() > 0 && k > 0 {
        assert(fences[0].icon == 0);
        let rest = fences.skip(1);
        assert forall|i: int| 0 <= i < k - 1 implies (#[trigger] rest[i]).icon == 0 by {
            assert(rest[i] == fences[i + 1]);
        }
        lemma_chosen_icon(icon, rest, k - 1);
    }
}

/// The largest id is that of a fence, and no fence has a larger one; without fences it is 0.
pub proof fn lemma_largest_id(fences: Seq<FenceCfg>)
    ensures
        largest_id(fences) >= 0,
        forall|i: int| 0 <= i < fences.len() ==> (#[trigger] fences[i]).id <= largest_id(fences),
        largest_id(fences) > 0 ==> exists|i: int| 0 <= i < fences.len() && (#[trigger] fences[i]).id == largest_id(fences),
        largest_id(fences) <= u32::MAX,
    decreases fences.len(),
{
    if fences.len() > 0 {
        let head = fences.drop_last();
        lemma_largest_id(head);
        assert forall|i: int| 0 <= i < fences.len() implies (#[trigger] fences[i]).id <= largest_id(fences) by {
            if i < head.len() {
                assert(head[i] == fences[i]);
            }
        }
        if largest_id(fences) > 0 {
            if largest_id(head) == largest_id(fences) {
                let i = choose|i: int| 0 <= i < head.len() && (#[trigger] head[i]).id == largest_id(head);
                assert(fences[i].id == largest_id(fences));
            } else {
                assert(fences[fences.len() - 1].id == largest_id(fences));
            }
        }
    }
}

/// What a file says is what is read: each field that is there, and each fence and rule in its place.
pub proof fn lemma_file_is_read(raw: RawConfig, c: Config)
    requires
        raw.completes(c),
    ensures
        raw.ghost_mode is Some ==> c.ghost_mode == raw.ghost_mode->0,
        raw.autostart is Some ==> c.autostart == raw.autostart->0,
        raw.download_enabled is Some ==> c.download_enabled == raw.download_enabled->0,
        raw.download_box_visible is Some ==> c.download_box_visible == raw.download_box_visible->0,
        raw.icon is Some ==> c.icon == raw.icon->0,
        raw.version is Some ==> c.version == raw.version->0,
        raw.sweep_rules is Some ==> c.sweep_rules@ == raw.sweep_rules->0@,
        raw.fences is Some ==> c.fences@.len() == raw.fences->0@.len(),
        raw.download_enabled is None ==> c.download_enabled,
        raw.download_box_visible is None ==> c.download_box_visible,
        raw.ghost_mode is None ==> !c.ghost_mode,
        raw.autostart is None ==> !c.autostart,
        c.vault_dir == raw.vault_dir,
        c.download_box_id == raw.download_box_id,
        forall|i: int|
            raw.fences is Some && 0 <= i < c.fences@.len() ==> is_read_as(raw.fences->0@[i], #[trigger] c.fences@[i]),
{
}

/// Whether a fence is read as the file has it.
pub open spec fn is_read_as(raw: RawFence, f: FenceCfg) -> bool {
    &&& f.id == raw.id && f.title == raw.title && f.folder == raw.folder
    &&& f.x == raw.x && f.y == raw.y && f.w == raw.w && f.h == raw.h
    &&& raw.dpi is Some ==> f.dpi == raw.dpi->0
    &&& raw.opacity is Some ==> f.opacity == raw.opacity->0
    &&& raw.icon is Some ==> f.icon == raw.icon->0
    &&& raw.dpi is None ==> f.dpi == 0
}

/// The icon size in force is the one asked for, as far as it is within the range of sizes.
pub proof fn lemma_icon_in_force(v: int)
    ensures
        16 <= v <= 128 ==> icon_px_of(v) == v,
        v < 16 ==> icon_px_of(v) == 16,
        v > 128 ==> icon_px_of(v) == 128,
{
}

/// A cell is as wide as its icon with six pixels at either side, and as high as its icon and a label of 38
/// logical pixels.
pub proof fn lemma_cell_size(icon_px: int, dpi: int)
    requires
        0 < icon_px,
        0 < dpi,
        icon_px * dpi < 0x40_0000,
        38 * dpi < 0x40_0000,
    ensures
        -48 <= 96 * (cell_w_of(icon_px, dpi) - 12) - icon_px * dpi <= 48,
        -144 <= 96 * cell_h_of(icon_px, dpi) - (icon_px + 38) * dpi <= 48,
        dpi == 96 ==> cell_w_of(icon_px, dpi) == icon_px + 12 && icon_px + 37 <= cell_h_of(icon_px, dpi) <= icon_px + 38,
{
    lemma_scaled_px_close(icon_px, dpi);
    lemma_scaled_px_close(38, dpi);
    assert((icon_px + 38) * dpi == icon_px * dpi + 38 * dpi) by (nonlinear_arith);
}

/// Where the icon size is not set, icons have the usual one.
pub proof fn lemma_unset_icon(dpi: int)
    ensures
        icon_of(0, dpi) == icon_of(32, dpi),
{
}

/// A position either stays or goes to the nearest grid line, and it goes there exactly when that is within the
/// tolerance; without a grid it stays.
pub proof fn lemma_magnet_or_stays(v: int, step: int, origin: int, factor: (int, int))
    requires
        0 < step < 0x100_0000,
        -0x80_0000 < v - origin < 0x80_0000,
    ensures
        ({
            let r = magnet_of(v, step, origin, factor);
            let line = magnet_of(v, step, origin, half_of());
            let gap = if line < v { v - line } else { line - v };
            &&& r == v || r == line
            &&& r != v ==> float_le(single(gap), float_mul(SINGLE as nat, single(step), factor))
            &&& float_le(single(gap), float_mul(SINGLE as nat, single(step), factor)) ==> r == line
        }),
        magnet_of(v, 0, origin, factor) == v,
{
    vstd::arithmetic::power2::lemma2_to64();
    assert(canonical(24, half_of()));
    assert(float_le(half_of(), half_of()));
    lemma_magnet_snaps(v, step, origin, half_of());
}

} // verus!
