//! The saved configuration: its defaults, the migration between its versions, and where it lives.
use crate::float::{float_div, float_mul, float_round, int_to_float, saturate, scale, Float, DOUBLE, SINGLE};
use crate::geometry::{dpi_of_ratio, dpi_ratio, dpi_scale, dpi_units, max_of, ratio, single};
use crate::precision::{
    den, lemma_div_round, lemma_int_exact, lemma_int_mul, lemma_int_near, lemma_quotient_near, lemma_scale_pos, num,
};
use vstd::arithmetic::power2::pow2;
use vstd::prelude::*;

verus! {

/// The bit pattern of 0.7 in single precision.
pub const DEFAULT_OPACITY: u32 = 0x3f33_3333;

/// The bit pattern of 0.74 in single precision: the opacity of fences made from a menu.
pub const MENU_OPACITY: u32 = 0x3f3d_70a4;

/// The version that is written.
pub const CURRENT_VERSION: u32 = 3;

/// What is saved of a fence.
#[derive(Debug)]
pub struct FenceCfg {
    pub id: u32,
    pub title: String,
    /// The folder whose files the fence shows; without one it shows the vault.
    pub folder: Option<String>,
    pub x: i32,
    pub y: i32,
    pub w: i32,
    pub h: i32,
    /// The DPI of the window when its rectangle was saved; 0 where it was not recorded.
    pub dpi: u32,
    /// The bit pattern of a single-precision number between 0 and 1.
    pub opacity: u32,
    /// The icon size of old configurations, which kept one per fence.
    pub icon: u32,
}

/// A rule that moves files off the desktop.
#[derive(Debug)]
pub struct SweepRule {
    /// The extension, lower case, with its dot.
    pub ext: String,
    pub dest: String,
}

/// The whole configuration.
#[derive(Debug)]
pub struct Config {
    pub fences: Vec<FenceCfg>,
    pub sweep_rules: Vec<SweepRule>,
    pub ghost_mode: bool,
    pub autostart: bool,
    pub vault_dir: Option<String>,
    /// The fence that collects downloads.
    pub download_box_id: Option<u32>,
    /// Whether new downloads are collected.
    pub download_enabled: bool,
    /// Whether the download box is shown while downloads are collected.
    pub download_box_visible: bool,
    /// The icon size, in logical pixels.
    pub icon: u32,
    /// 0 or 1: physical rectangles without a DPI; 2: logical rectangles; 3: physical rectangles
    /// with the DPI they were saved at.
    pub version: u32,
}

pub fn default_opacity() -> (r: u32)
    ensures
        r == DEFAULT_OPACITY,
{
    DEFAULT_OPACITY
}

pub fn default_icon() -> (r: u32)
    ensures
        r == 32,
{
    32
}

pub fn default_true() -> (r: bool)
    ensures
        r,
{
    true
}

impl Clone for FenceCfg {
    fn clone(&self) -> (r: Self)
        ensures
            r == *self,
    {
        FenceCfg {
            id: self.id,
            title: self.title.clone(),
            folder: self.folder.clone(),
            x: self.x,
            y: self.y,
            w: self.w,
            h: self.h,
            dpi: self.dpi,
            opacity: self.opacity,
            icon: self.icon,
        }
    }
}

impl Clone for SweepRule {
    fn clone(&self) -> (r: Self)
        ensures
            r == *self,
    {
        SweepRule { ext: self.ext.clone(), dest: self.dest.clone() }
    }
}

impl Default for FenceCfg {
    fn default() -> (r: Self)
        ensures
            r.id == 0,
            r.title@ == "栅栏"@,
            r.folder is None,
            r.x == 0 && r.y == 0 && r.w == 260 && r.h == 340,
            r.dpi == 96,
            r.opacity == DEFAULT_OPACITY,
            r.icon == 32,
    {
        FenceCfg {
            id: 0,
            title: "栅栏".to_string(),
            folder: None,
            x: 0,
            y: 0,
            w: 260,
            h: 340,
            dpi: 96,
            opacity: default_opacity(),
            icon: default_icon(),
        }
    }
}

impl Config {
    /// The configuration of a first start.
    pub open spec fn is_default(self) -> bool {
        &&& self.fences@.len() == 0
        &&& self.sweep_rules@.len() == 0
        &&& !self.ghost_mode
        &&& !self.autostart
        &&& self.vault_dir is None
        &&& self.download_box_id is None
        &&& self.download_enabled
        &&& self.download_box_visible
        &&& self.icon == 32
        &&& self.version == CURRENT_VERSION
    }
}

impl Default for Config {
    fn default() -> (r: Self)
        ensures
            r.is_default(),
    {
        Config {
            fences: Vec::new(),
            sweep_rules: Vec::new(),
            ghost_mode: false,
            autostart: false,
            vault_dir: None,
            download_box_id: None,
            download_enabled: true,
            download_box_visible: true,
            icon: default_icon(),
            version: CURRENT_VERSION,
        }
    }
}

/// A logical length on the system's display, rounded to physical pixels.
pub open spec fn migrated_px(v: int, system_dpi: int) -> int {
    saturate(float_round(float_mul(SINGLE as nat, single(v), dpi_ratio(system_dpi))))
}

/// A logical rectangle of version 2, brought to physical pixels.
pub open spec fn migrated(f: FenceCfg, system_dpi: u32) -> FenceCfg {
    if dpi_ratio(system_dpi as int) == single(1) {
        FenceCfg { dpi: system_dpi, ..f }
    } else {
        FenceCfg {
            x: migrated_px(f.x as int, system_dpi as int) as i32,
            y: migrated_px(f.y as int, system_dpi as int) as i32,
            w: migrated_px(f.w as int, system_dpi as int) as i32,
            h: migrated_px(f.h as int, system_dpi as int) as i32,
            dpi: system_dpi,
            ..f
        }
    }
}

fn migrate_px(v: i32, factor: Float) -> (r: i32)
    requires
        factor.fits(SINGLE as nat, 600),
    ensures
        r == saturate(float_round(float_mul(SINGLE as nat, single(v as int), factor@))),
{
    Float::from_int(SINGLE, v as i128).mul(SINGLE, factor).round_i32(SINGLE)
}

/// Brings a configuration to the current version, given the DPI that the system reports.
pub fn normalize_dpi(c: &mut Config, reported: u32)
    ensures
        final(c).version == CURRENT_VERSION,
        final(c).fences@.len() == old(c).fences@.len(),
        forall|i: int|
            0 <= i < old(c).fences@.len() ==> #[trigger] final(c).fences@[i] == upgraded(
                old(c).fences@[i],
                old(c).version,
                dpi_of_ratio(max_of(reported as int, 96)) as u32,
            ),
        *final(c) == (Config { fences: final(c).fences, version: CURRENT_VERSION, ..*old(c) }),
{
    let system_dpi = dpi_units(dpi_scale(reported));
    normalize_dpi_with_system(c, system_dpi);
}

/// Brings a configuration to the current version. Physical rectangles stay as they are: those of
/// version 1 keep the unknown DPI 0, those of version 3 the DPI they were saved at. The logical
/// rectangles of version 2 are multiplied by the system's scale factor once.
pub fn normalize_dpi_with_system(c: &mut Config, system_dpi: u32)
    ensures
        final(c).version == CURRENT_VERSION,
        final(c).fences@.len() == old(c).fences@.len(),
        forall|i: int|
            0 <= i < old(c).fences@.len() ==> #[trigger] final(c).fences@[i] == upgraded(
                old(c).fences@[i],
                old(c).version,
                system_dpi,
            ),
        *final(c) == (Config { fences: final(c).fences, version: CURRENT_VERSION, ..*old(c) }),
{
    let ghost before = *c;
    if c.version == 2 {
        let s = ratio(system_dpi);
        let one = Float::from_int(SINGLE, 1);
        let unscaled: bool = s.mant == one.mant && s.exp == one.exp;
        let n: usize = c.fences.len();
        let mut i: usize = 0;
        while i < n
            invariant
                i <= n,
                n == c.fences@.len(),
                n == before.fences@.len(),
                s@ == dpi_ratio(system_dpi as int),
                s.fits(SINGLE as nat, 600),
                unscaled == (dpi_ratio(system_dpi as int) == single(1)),
                forall|j: int| 0 <= j < i ==> #[trigger] c.fences@[j] == migrated(before.fences@[j], system_dpi),
                forall|j: int| i <= j < n ==> #[trigger] c.fences@[j] == before.fences@[j],
                *c == (Config { fences: c.fences, ..before }),
            decreases n - i,
        {
            if !unscaled {
                c.fences[i].x = migrate_px(c.fences[i].x, s);
                c.fences[i].y = migrate_px(c.fences[i].y, s);
                c.fences[i].w = migrate_px(c.fences[i].w, s);
                c.fences[i].h = migrate_px(c.fences[i].h, s);
            }
            c.fences[i].dpi = system_dpi;
            i = i + 1;
        }
    }
    c.version = CURRENT_VERSION;
}

/// The DPI that a saved length is taken to be in.
pub open spec fn source_dpi(saved_dpi: int, current_dpi: int) -> int {
    max_of(if saved_dpi == 0 { current_dpi } else { saved_dpi }, 1)
}

/// A physical length, brought from the DPI it was saved at to the current one, in double precision.
pub open spec fn rescaled(value: int, saved_dpi: int, current_dpi: int) -> int {
    let p = DOUBLE as nat;
    let product = float_mul(p, int_to_float(p, value), int_to_float(p, max_of(current_dpi, 1)));
    saturate(float_round(float_div(p, product, int_to_float(p, source_dpi(saved_dpi, current_dpi)))))
}

/// Keeps the logical size of a length when the DPI changes. A DPI of 0 is unknown and stands for
/// the current one, so that the length stays as it is.
pub fn scale_extent_for_dpi(value: i32, saved_dpi: u32, current_dpi: u32) -> (r: i32)
    ensures
        r == rescaled(value as int, saved_dpi as int, current_dpi as int),
{
    let known: u32 = if saved_dpi == 0 { current_dpi } else { saved_dpi };
    let from: u32 = if known < 1 { 1 } else { known };
    let to: u32 = if current_dpi < 1 { 1 } else { current_dpi };
    let product = Float::from_int(DOUBLE, value as i128).mul(DOUBLE, Float::from_int(DOUBLE, to as i128));
    product.div(DOUBLE, Float::from_int(DOUBLE, from as i128)).round_i32(DOUBLE)
}

/// The quotient `n / d`, `d` positive, rounded to the nearest integer, ties away from zero.
pub open spec fn nearest(n: int, d: int) -> int {
    if n < 0 {
        -((2 * (-n) + d) / (2 * d))
    } else {
        (2 * n + d) / (2 * d)
    }
}

proof fn lemma_double_limits()
    ensures
        pow2(53) == 0x20_0000_0000_0000,
        DOUBLE as nat == 53,
{
    vstd::arithmetic::power2::lemma2_to64_rest();
}

/// What `rescaled` computes for a negative length is the negative of what it computes for the
/// positive one, before the result is brought into range.
proof fn lemma_rescaled_sign(value: int, to: int, from: int)
    requires
        0 < value < 0x1_0000_0000,
        0 < to < 0x1_0000_0000,
        0 < from < 0x1_0000_0000,
    ensures
        ({
            let p = DOUBLE as nat;
            let a = float_div(p, float_mul(p, int_to_float(p, value), int_to_float(p, to)), int_to_float(p, from));
            let b = float_div(p, float_mul(p, int_to_float(p, -value), int_to_float(p, to)), int_to_float(p, from));
            float_round(b) == -float_round(a) && a.0 > 0
        }),
{
    reveal(float_mul);
    reveal(float_div);
    lemma_double_limits();
    let p = DOUBLE as nat;
    lemma_int_exact(p, value);
    lemma_int_exact(p, to);
    lemma_int_exact(p, from);
    lemma_int_mul(p, value, to);
    let x = int_to_float(p, value);
    let y = int_to_float(p, to);
    assert((-x.0) * y.0 == -(x.0 * y.0)) by (nonlinear_arith);
    assert(x.0 * y.0 > 0) by (nonlinear_arith)
        requires
            x.0 > 0,
            y.0 > 0,
    ;
    lemma_int_near(p, value * to);
    let prod = int_to_float(p, value * to);
    lemma_quotient_near(p, 1, prod, value * to, 1, from);
}

/// As long as the product of length and DPI is below `2^52`, the result is the exact quotient,
/// rounded to the nearest pixel.
pub proof fn lemma_rescaled_exact(value: int, saved_dpi: int, current_dpi: int)
    requires
        i32::MIN <= value <= i32::MAX,
        0 <= saved_dpi <= u32::MAX,
        0 <= current_dpi <= u32::MAX,
        -0x10_0000_0000_0000 < value * max_of(current_dpi, 1) < 0x10_0000_0000_0000,
    ensures
        rescaled(value, saved_dpi, current_dpi) == saturate(
            nearest(value * max_of(current_dpi, 1), source_dpi(saved_dpi, current_dpi)),
        ),
{
    lemma_double_limits();
    let p = DOUBLE as nat;
    let to = max_of(current_dpi, 1);
    let from = source_dpi(saved_dpi, current_dpi);
    if value == 0 {
        lemma_rescaled_zero(to, from);
    } else {
        let v = if value < 0 { -value } else { value };
        assert(v * to == if value < 0 { -(value * to) } else { value * to }) by (nonlinear_arith)
            requires
                v == if value < 0 { -value } else { value },
        ;
        lemma_int_mul(p, v, to);
        lemma_div_round(p, v * to, from);
        lemma_rescaled_sign(v, to, from);
    }
}

proof fn lemma_rescaled_zero(to: int, from: int)
    requires
        0 < to,
        0 < from,
    ensures
        ({
            let p = DOUBLE as nat;
            float_round(float_div(p, float_mul(p, int_to_float(p, 0), int_to_float(p, to)), int_to_float(p, from))) == 0
        }),
        nearest(0 * to, from) == 0,
{
    reveal(float_mul);
    reveal(float_div);
    lemma_double_limits();
    lemma_scale_pos(0);
    assert(int_to_float(DOUBLE as nat, 0) == (0int, 0int));
    assert(0 * to == 0);
    assert((2 * 0 + from) / (2 * from) == 0) by (nonlinear_arith)
        requires
            from > 0,
    ;
    assert(scale(-0) == 1);
    assert(2 * 0 * scale(0) == 0);
    assert((0 + 1int) / 2 == 0);
}

/// A length whose DPI is unknown, or did not change, stays as it is.
pub proof fn lemma_rescaled_same_dpi(value: int, saved_dpi: int, current_dpi: int)
    requires
        i32::MIN <= value <= i32::MAX,
        0 <= current_dpi <= u32::MAX,
        saved_dpi == 0 || saved_dpi == current_dpi,
    ensures
        rescaled(value, saved_dpi, current_dpi) == value,
{
    lemma_double_limits();
    let p = DOUBLE as nat;
    let to = max_of(current_dpi, 1);
    assert(source_dpi(saved_dpi, current_dpi) == to);
    if value == 0 {
        lemma_rescaled_zero(to, to);
    } else {
        let v = if value < 0 { -value } else { value };
        lemma_int_mul(p, v, to);
        lemma_rescaled_sign(v, to, to);
        let prod = int_to_float(p, v * to);
        lemma_int_near(p, v * to);
        lemma_quotient_near(p, 1, prod, v * to, 1, to);
        let r = float_div(p, prod, int_to_float(p, to));
        lemma_scale_pos(r.1);
        lemma_scale_pos(-r.1);
        let x = num(r);
        let y = den(r);
        assert(1 * to == to);
        let u = x - v * y;
        assert(x * to - (v * to) * y == to * u) by (nonlinear_arith)
            requires
                u == x - v * y,
        ;
        let w = v * y;
        assert(3 * ((v * to) * y) == to * (3 * w)) by (nonlinear_arith)
            requires
                w == v * y,
        ;
        assert(0x20_0000_0000_0000 * (to * u) == to * (0x20_0000_0000_0000 * u)) by (nonlinear_arith);
        assert(-(3 * w) <= 0x20_0000_0000_0000 * u <= 3 * w) by (nonlinear_arith)
            requires
                -(to * (3 * w)) <= to * (0x20_0000_0000_0000 * u) <= to * (3 * w),
                to > 0,
        ;
        assert(w <= 0x8000_0000 * y) by (nonlinear_arith)
            requires
                w == v * y,
                v <= 0x8000_0000,
                y > 0,
        ;
        assert(-y < 2 * u < y);
        assert((2 * x + y) / (2 * y) == v) by (nonlinear_arith)
            requires
                u == x - v * y,
                -y < 2 * u < y,
                y > 0,
        ;
        assert(2 * r.0 * scale(r.1) == 2 * x) by (nonlinear_arith)
            requires
                x == r.0 * scale(r.1),
        ;
    }
}

proof fn lemma_nearest_back(v: int, a: int, b: int)
    requires
        v >= 0,
        0 < a <= b,
    ensures
        nearest(nearest(v * b, a) * a, b) == v,
        0 <= nearest(v * b, a) * a <= v * b + a,
{
    let n = v * b;
    assert(n >= 0) by (nonlinear_arith)
        requires
            n == v * b,
            v >= 0,
            b > 0,
    ;
    let r = (2 * n + a) / (2 * a);
    let m = (2 * n + a) % (2 * a);
    assert(2 * n + a == (2 * a) * r + m && 0 <= m < 2 * a && r >= 0) by (nonlinear_arith)
        requires
            r == (2 * n + a) / (2 * a),
            m == (2 * n + a) % (2 * a),
            a > 0,
            n >= 0,
    ;
    let ra = r * a;
    assert((2 * a) * r == 2 * ra) by (nonlinear_arith)
        requires
            ra == r * a,
    ;
    assert(ra >= 0) by (nonlinear_arith)
        requires
            ra == r * a,
            r >= 0,
            a > 0,
    ;
    if a == b {
        assert((2 * (v * b) + b) / (2 * b) == v) by (nonlinear_arith)
            requires
                b > 0,
        ;
    }
    let left = a + b - m;
    assert(2 * ra + b == 2 * n + left);
    assert(0 <= left < 2 * b) by {
        if a == b {
            assert((2 * b) * v == 2 * n) by (nonlinear_arith)
                requires
                    n == v * b,
            ;
            assert(r == v);
        }
    }
    assert((2 * n + left) / (2 * b) == v) by (nonlinear_arith)
        requires
            n == v * b,
            0 <= left < 2 * b,
    ;
}

/// A length that is brought to a denser display and back is what it was, unless it outgrew the range of
/// a length on the way. The products of length and DPI are below `2^52`, where double precision is
/// exact.
pub proof fn lemma_rescaled_back(value: int, dpi: int, denser: int)
    requires
        i32::MIN <= value <= i32::MAX,
        0 < dpi <= denser <= u32::MAX,
        -0x10_0000_0000_0000 < value * denser - dpi,
        value * denser + dpi < 0x10_0000_0000_0000,
        i32::MIN <= nearest(value * denser, dpi) <= i32::MAX,
    ensures
        rescaled(rescaled(value, dpi, denser), denser, dpi) == value,
{
    let v = if value < 0 { -value } else { value };
    lemma_nearest_back(v, dpi, denser);
    lemma_rescaled_exact(value, dpi, denser);
    let r = nearest(value * denser, dpi);
    if value < 0 {
        assert(v * denser == -(value * denser)) by (nonlinear_arith)
            requires
                v == -value,
        ;
        assert(value * denser < 0) by (nonlinear_arith)
            requires
                value < 0,
                denser > 0,
        ;
        let s = nearest(v * denser, dpi);
        assert(r == -s);
        let x = s * dpi;
        assert(r * dpi == -x) by (nonlinear_arith)
            requires
                r == -s,
                x == s * dpi,
        ;
        if x == 0 {
            assert((2 * 0 + denser) / (2 * denser) == 0) by (nonlinear_arith)
                requires
                    denser > 0,
            ;
        }
        assert(nearest(-x, denser) == -nearest(x, denser));
    }
    assert(rescaled(value, dpi, denser) == r);
    assert(max_of(dpi, 1) == dpi && source_dpi(denser, dpi) == denser);
    lemma_rescaled_exact(r, denser, dpi);
    assert(nearest(r * dpi, denser) == value);
}

/// What a configuration becomes when it is brought to the current version.
pub open spec fn upgraded(f: FenceCfg, version: u32, system_dpi: u32) -> FenceCfg {
    if version == 2 {
        migrated(f, system_dpi)
    } else {
        f
    }
}

/// A rectangle that was brought to the current version is not touched again, whatever the
/// system's DPI is by then.
pub proof fn lemma_upgrade_settles(f: FenceCfg, version: u32, system_dpi: u32, later_dpi: u32)
    ensures
        upgraded(upgraded(f, version, system_dpi), CURRENT_VERSION, later_dpi) == upgraded(f, version, system_dpi),
{
}

/// Physical rectangles are never rescaled by the system's DPI, and keep the DPI they were saved at.
pub proof fn lemma_physical_untouched(f: FenceCfg, version: u32, system_dpi: u32)
    requires
        version != 2,
    ensures
        upgraded(f, version, system_dpi) == f,
{
}

/// The logical rectangles of version 2 take on the system's DPI and keep all but their geometry.
pub proof fn lemma_logical_migrated(f: FenceCfg, system_dpi: u32)
    ensures
        ({
            let r = upgraded(f, 2, system_dpi);
            &&& r.dpi == system_dpi
            &&& r == (FenceCfg { x: r.x, y: r.y, w: r.w, h: r.h, dpi: r.dpi, ..f })
        }),
{
}

/// A directory or file: where it starts, and the names that lead on from there.
#[derive(Debug)]
pub struct Location {
    pub root: String,
    pub parts: Vec<String>,
}

impl Location {
    /// Whether this location starts at `root` and leads on by `parts`.
    pub open spec fn is(self, root: Seq<char>, parts: Seq<Seq<char>>) -> bool {
        &&& self.root@ == root
        &&& self.parts@.len() == parts.len()
        &&& forall|i: int| 0 <= i < parts.len() ==> #[trigger] self.parts@[i]@ == parts[i]
    }
}

/// The directory that holds the program's data: the user's application data, and the working
/// directory where that is unknown.
pub open spec fn data_root(appdata: Option<String>) -> Seq<char> {
    match appdata {
        Some(d) => d@,
        None => "."@,
    }
}

/// The directory of the configuration.
pub fn config_dir(appdata: Option<String>) -> (r: Location)
    ensures
        r.is(data_root(appdata), seq!["feather-fences"@]),
{
    let root = match appdata {
        Some(d) => d,
        None => ".".to_owned(),
    };
    let mut parts: Vec<String> = Vec::new();
    parts.push("feather-fences".to_owned());
    Location { root, parts }
}

/// The file of the configuration.
pub fn config_path(appdata: Option<String>) -> (r: Location)
    ensures
        r.is(data_root(appdata), seq!["feather-fences"@, "config.json"@]),
{
    let mut r = config_dir(appdata);
    r.parts.push("config.json".to_owned());
    r
}

/// The directory that fences without a folder of their own share.
pub fn default_vault_dir(appdata: Option<String>) -> (r: Location)
    ensures
        r.is(data_root(appdata), seq!["feather-fences"@, "vault"@]),
{
    let mut r = config_dir(appdata);
    r.parts.push("vault".to_owned());
    r
}

/// The directory in which the directories of new boxes are made.
pub fn boxes_dir(appdata: Option<String>) -> (r: Location)
    ensures
        r.is(data_root(appdata), seq!["feather-fences"@, "boxes"@]),
{
    let mut r = config_dir(appdata);
    r.parts.push("boxes".to_owned());
    r
}

/// The directory of the download box.
pub fn download_box_dir(appdata: Option<String>) -> (r: Location)
    ensures
        r.is(data_root(appdata), seq!["feather-fences"@, "boxes"@, "下载收纳箱"@]),
{
    let mut r = boxes_dir(appdata);
    r.parts.push("下载收纳箱".to_owned());
    r
}

/// The vault: the one that the configuration names, else the default one.
pub fn vault_dir(c: &Config, appdata: Option<String>) -> (r: Location)
    ensures
        match c.vault_dir {
            Some(d) => r.is(d@, Seq::empty()),
            None => r.is(data_root(appdata), seq!["feather-fences"@, "vault"@]),
        },
{
    match &c.vault_dir {
        Some(d) => Location { root: d.clone(), parts: Vec::new() },
        None => default_vault_dir(appdata),
    }
}

/// The directory that downloads arrive in, where the user's profile is known.
pub fn downloads_dir(profile: Option<String>) -> (r: Option<Location>)
    ensures
        match profile {
            Some(p) => r is Some && r->0.is(p@, seq!["Downloads"@]),
            None => r is None,
        },
{
    match profile {
        Some(p) => {
            let mut parts: Vec<String> = Vec::new();
            parts.push("Downloads".to_owned());
            Some(Location { root: p, parts })
        },
        None => None,
    }
}

/// What is to be done about a directory that is needed.
#[derive(Clone, Copy, Debug, PartialEq, Eq, Structural)]
pub enum DirState {
    Ready,
    Blocked,
    Missing,
}

/// Whether a directory is there, something else stands in its place, or it must be made.
pub fn dir_state(exists: bool, is_dir: bool) -> (r: DirState)
    ensures
        r == (if !exists {
            DirState::Missing
        } else if is_dir {
            DirState::Ready
        } else {
            DirState::Blocked
        }),
{
    if exists {
        if is_dir {
            DirState::Ready
        } else {
            DirState::Blocked
        }
    } else {
        DirState::Missing
    }
}

/// Whether a directory that is needed is there in the end; `made` says whether making it worked.
pub fn ensure_dir(exists: bool, is_dir: bool, made: bool) -> (r: bool)
    ensures
        r == (if exists { is_dir } else { made }),
{
    match dir_state(exists, is_dir) {
        DirState::Ready => true,
        DirState::Blocked => false,
        DirState::Missing => made,
    }
}

/// A fence as it stands in the file, where newer fields may be absent.
#[derive(Debug)]
pub struct RawFence {
    pub id: u32,
    pub title: String,
    pub folder: Option<String>,
    pub x: i32,
    pub y: i32,
    pub w: i32,
    pub h: i32,
    pub dpi: Option<u32>,
    pub opacity: Option<u32>,
    pub icon: Option<u32>,
}

/// A configuration as it stands in the file, where any field may be absent.
#[derive(Debug)]
pub struct RawConfig {
    pub fences: Option<Vec<RawFence>>,
    pub sweep_rules: Option<Vec<SweepRule>>,
    pub ghost_mode: Option<bool>,
    pub autostart: Option<bool>,
    pub vault_dir: Option<String>,
    pub download_box_id: Option<u32>,
    pub download_enabled: Option<bool>,
    pub download_box_visible: Option<bool>,
    pub icon: Option<u32>,
    pub version: Option<u32>,
}

/// The value of a field that may be absent.
pub open spec fn field<T>(v: Option<T>, missing: T) -> T {
    match v {
        Some(x) => x,
        None => missing,
    }
}

/// The fields of a field list that may be absent.
pub open spec fn listed<T>(v: Option<Vec<T>>) -> Seq<T> {
    match v {
        Some(x) => x@,
        None => Seq::empty(),
    }
}

impl RawFence {
    /// The fence that this stands for.
    pub open spec fn completed(self) -> FenceCfg {
        FenceCfg {
            id: self.id,
            title: self.title,
            folder: self.folder,
            x: self.x,
            y: self.y,
            w: self.w,
            h: self.h,
            dpi: field(self.dpi, 0),
            opacity: field(self.opacity, DEFAULT_OPACITY),
            icon: field(self.icon, 32),
        }
    }

    /// Fills in what is absent: an unknown DPI, the default opacity and icon size.
    pub fn complete(&self) -> (r: FenceCfg)
        ensures
            r == self.completed(),
    {
        FenceCfg {
            id: self.id,
            title: self.title.clone(),
            folder: self.folder.clone(),
            x: self.x,
            y: self.y,
            w: self.w,
            h: self.h,
            dpi: match self.dpi {
                Some(v) => v,
                None => 0,
            },
            opacity: match self.opacity {
                Some(v) => v,
                None => default_opacity(),
            },
            icon: match self.icon {
                Some(v) => v,
                None => default_icon(),
            },
        }
    }
}

fn flag(v: Option<bool>, missing: bool) -> (r: bool)
    ensures
        r == field(v, missing),
{
    match v {
        Some(x) => x,
        None => missing,
    }
}

impl RawConfig {
    /// Whether `c` is the configuration that this stands for.
    pub open spec fn completes(self, c: Config) -> bool {
        &&& c.fences@.len() == listed(self.fences).len()
        &&& forall|i: int|
            0 <= i < c.fences@.len() ==> #[trigger] c.fences@[i] == listed(self.fences)[i].completed()
        &&& c.sweep_rules@ == listed(self.sweep_rules)
        &&& c.ghost_mode == field(self.ghost_mode, false)
        &&& c.autostart == field(self.autostart, false)
        &&& c.vault_dir == self.vault_dir
        &&& c.download_box_id == self.download_box_id
        &&& c.download_enabled == field(self.download_enabled, true)
        &&& c.download_box_visible == field(self.download_box_visible, true)
        &&& c.icon == field(self.icon, 32)
        &&& c.version == field(self.version, 0)
    }

    /// Fills in what is absent. Downloads are collected and their box is shown unless the file
    /// says otherwise, so that older files keep what they had.
    pub fn complete(self) -> (r: Config)
        ensures
            self.completes(r),
    {
        let mut fences: Vec<FenceCfg> = Vec::new();
        match &self.fences {
            Some(raw) => {
                let mut i: usize = 0;
                while i < raw.len()
                    invariant
                        i <= raw@.len(),
                        fences@.len() == i,
                        forall|j: int| 0 <= j < i ==> #[trigger] fences@[j] == raw@[j].completed(),
                    decreases raw@.len() - i,
                {
                    fences.push(raw[i].complete());
                    i = i + 1;
                }
            },
            None => {},
        }
        let sweep_rules: Vec<SweepRule> = match self.sweep_rules {
            Some(v) => v,
            None => Vec::new(),
        };
        Config {
            fences,
            sweep_rules,
            ghost_mode: flag(self.ghost_mode, false),
            autostart: flag(self.autostart, false),
            vault_dir: self.vault_dir,
            download_box_id: self.download_box_id,
            download_enabled: flag(self.download_enabled, default_true()),
            download_box_visible: flag(self.download_box_visible, default_true()),
            icon: match self.icon {
                Some(v) => v,
                None => default_icon(),
            },
            version: match self.version {
                Some(v) => v,
                None => 0,
            },
        }
    }
}

impl RawFence {
    /// Whether this is how a fence is written: with every field.
    pub open spec fn writes(self, f: FenceCfg) -> bool {
        &&& self.completed() == f
        &&& self.dpi == Some(f.dpi)
        &&& self.opacity == Some(f.opacity)
        &&& self.icon == Some(f.icon)
    }
}

impl RawConfig {
    /// Whether this is how a configuration is written: with every field.
    pub open spec fn writes(self, c: Config) -> bool {
        &&& self.fences is Some
        &&& self.fences->0@.len() == c.fences@.len()
        &&& forall|i: int| 0 <= i < c.fences@.len() ==> (#[trigger] self.fences->0@[i]).writes(c.fences@[i])
        &&& self.sweep_rules is Some
        &&& self.sweep_rules->0@ == c.sweep_rules@
        &&& self.ghost_mode == Some(c.ghost_mode)
        &&& self.autostart == Some(c.autostart)
        &&& self.vault_dir == c.vault_dir
        &&& self.download_box_id == c.download_box_id
        &&& self.download_enabled == Some(c.download_enabled)
        &&& self.download_box_visible == Some(c.download_box_visible)
        &&& self.icon == Some(c.icon)
        &&& self.version == Some(c.version)
    }
}

/// How a configuration is written: with every field.
pub fn save(c: &Config) -> (r: RawConfig)
    ensures
        r.writes(*c),
{
    let mut fences: Vec<RawFence> = Vec::new();
    let n: usize = c.fences.len();
    let mut i: usize = 0;
    while i < n
        invariant
            i <= n,
            n == c.fences@.len(),
            fences@.len() == i,
            forall|j: int| 0 <= j < i ==> (#[trigger] fences@[j]).writes(c.fences@[j]),
        decreases n - i,
    {
        let f = &c.fences[i];
        fences.push(
            RawFence {
                id: f.id,
                title: f.title.clone(),
                folder: f.folder.clone(),
                x: f.x,
                y: f.y,
                w: f.w,
                h: f.h,
                dpi: Some(f.dpi),
                opacity: Some(f.opacity),
                icon: Some(f.icon),
            },
        );
        i = i + 1;
    }
    let mut rules: Vec<SweepRule> = Vec::new();
    let m: usize = c.sweep_rules.len();
    let mut k: usize = 0;
    while k < m
        invariant
            k <= m,
            m == c.sweep_rules@.len(),
            rules@ == c.sweep_rules@.take(k as int),
        decreases m - k,
    {
        rules.push(c.sweep_rules[k].clone());
        k = k + 1;
    }
    assert(rules@ =~= c.sweep_rules@);
    RawConfig {
        fences: Some(fences),
        sweep_rules: Some(rules),
        ghost_mode: Some(c.ghost_mode),
        autostart: Some(c.autostart),
        vault_dir: c.vault_dir.clone(),
        download_box_id: c.download_box_id,
        download_enabled: Some(c.download_enabled),
        download_box_visible: Some(c.download_box_visible),
        icon: Some(c.icon),
        version: Some(c.version),
    }
}

/// What is written is read back: the same fences and rules, and the same settings.
pub proof fn lemma_read_back(c: Config, raw: RawConfig, d: Config)
    requires
        raw.writes(c),
        raw.completes(d),
    ensures
        d == (Config { fences: d.fences, sweep_rules: d.sweep_rules, ..c }),
        d.fences@ == c.fences@,
        d.sweep_rules@ == c.sweep_rules@,
{
    assert forall|i: int| 0 <= i < c.fences@.len() implies d.fences@[i] == c.fences@[i] by {
        assert(raw.fences->0@[i].writes(c.fences@[i]));
    }
    assert(d.fences@ =~= c.fences@);
}

/// A configuration of the current version is not changed by being read back and brought to the current
/// version.
pub proof fn lemma_restart_keeps_fences(c: Config, system_dpi: u32)
    requires
        c.version == CURRENT_VERSION,
    ensures
        forall|i: int|
            0 <= i < c.fences@.len() ==> upgraded(#[trigger] c.fences@[i], c.version, system_dpi) == c.fences@[i],
{
}

/// The configuration to start with: what the file held, and the default one where it could not be
/// read or understood.
pub fn load(parsed: Option<RawConfig>) -> (r: Config)
    ensures
        match parsed {
            Some(raw) => raw.completes(r),
            None => r.is_default(),
        },
{
    match parsed {
        Some(raw) => raw.complete(),
        None => Config::default(),
    }
}

/// The icon size of a configuration: its own, and where that is 0 the first one that a fence
/// names, else 32.
pub open spec fn chosen_icon(icon: u32, fences: Seq<FenceCfg>) -> u32
    decreases fences.len(),
{
    if icon != 0 {
        icon
    } else if fences.len() == 0 {
        32
    } else if fences[0].icon != 0 {
        fences[0].icon
    } else {
        chosen_icon(icon, fences.skip(1))
    }
}

/// Moves the icon size of old configurations, which kept it with the fences.
pub fn migrate_icon(c: &mut Config)
    ensures
        *final(c) == (Config { icon: chosen_icon(old(c).icon, old(c).fences@), ..*old(c) }),
        final(c).icon != 0,
{
    if c.icon == 0 {
        let n: usize = c.fences.len();
        let mut i: usize = 0;
        let mut found: u32 = 0;
        assert(c.fences@.skip(0) =~= c.fences@);
        while i < n && found == 0
            invariant
                i <= n,
                n == c.fences@.len(),
                *c == *old(c),
                c.icon == 0,
                chosen_icon(0, c.fences@) == (if found != 0 {
                    found
                } else {
                    chosen_icon(0, c.fences@.skip(i as int))
                }),
            decreases n - i,
        {
            assert(c.fences@.skip(i as int).skip(1) =~= c.fences@.skip(i + 1));
            found = c.fences[i].icon;
            i = i + 1;
        }
        c.icon = if found == 0 { 32 } else { found };
    }
}

/// The largest of the fences' ids, and 0 where there is no fence.
pub open spec fn largest_id(fences: Seq<FenceCfg>) -> int
    decreases fences.len(),
{
    if fences.len() == 0 {
        0
    } else {
        max_of(fences.last().id as int, largest_id(fences.drop_last()))
    }
}

/// The first id that no fence of a configuration has, nor a larger one.
pub fn first_free_id(c: &Config) -> (r: u32)
    requires
        largest_id(c.fences@) < u32::MAX,
    ensures
        r == largest_id(c.fences@) + 1,
        forall|i: int| 0 <= i < c.fences@.len() ==> (#[trigger] c.fences@[i]).id < r,
{
    let n: usize = c.fences.len();
    let mut i: usize = 0;
    let mut most: u32 = 0;
    while i < n
        invariant
            i <= n,
            n == c.fences@.len(),
            most == largest_id(c.fences@.take(i as int)),
            forall|j: int| 0 <= j < i ==> (#[trigger] c.fences@[j]).id <= most,
        decreases n - i,
    {
        assert(c.fences@.take(i + 1).drop_last() =~= c.fences@.take(i as int));
        let id: u32 = c.fences[i].id;
        if id > most {
            most = id;
        }
        i = i + 1;
    }
    assert(c.fences@.take(n as int) =~= c.fences@);
    most + 1
}

} // verus!
