use feather_fences::bits::decode;
use feather_fences::float::{Float, DOUBLE, SINGLE};

fn single(f: Float) -> f32 {
    (f.mant as f64 * 2f64.powi(f.exp)) as f32
}

fn double(f: Float) -> f64 {
    if f.exp < -900 {
        f.mant as f64 * 2f64.powi(-900) * 2f64.powi(f.exp + 900)
    } else {
        f.mant as f64 * 2f64.powi(f.exp)
    }
}

struct Numbers(u64);

impl Numbers {
    fn next(&mut self) -> u64 {
        self.0 = self.0.wrapping_mul(6364136223846793005).wrapping_add(1442695040888963407);
        self.0 >> 16
    }

    fn whole(&mut self) -> i64 {
        let shift = self.next() % 40;
        let v = (self.next() as i64 % 0x4000_0000_0000) >> shift;
        if self.next() % 2 == 0 {
            v
        } else {
            -v
        }
    }
}

#[test]
fn integers_are_rounded_to_single_precision() {
    let mut n = Numbers(1);
    for _ in 0..20_000 {
        let v = n.whole();
        assert_eq!(single(Float::from_int(SINGLE, v as i128)), v as f32, "{v}");
        assert_eq!(double(Float::from_int(DOUBLE, v as i128)), v as f64, "{v}");
    }
    for v in [0i64, 1, 0xff_ffff, 0x100_0000, 0x100_0001, 0x100_0002, 0x100_0003, -0x100_0001, i64::MAX] {
        assert_eq!(single(Float::from_int(SINGLE, v as i128)), v as f32, "{v}");
        assert_eq!(double(Float::from_int(DOUBLE, v as i128)), v as f64, "{v}");
    }
}

#[test]
fn single_precision_operations_match_the_machine() {
    let mut n = Numbers(7);
    for _ in 0..20_000 {
        let (a, b) = (n.whole(), n.whole());
        let d = n.whole().abs().max(1);
        let x = Float::from_int(SINGLE, a as i128).div(SINGLE, Float::from_int(SINGLE, d as i128));
        let y = Float::from_int(SINGLE, b as i128);
        let (p, q) = (a as f32 / d as f32, b as f32);
        assert_eq!(single(x), p, "{a} / {d}");
        assert_eq!(single(x.mul(SINGLE, y)), p * q);
        assert_eq!(single(x.add(SINGLE, y)), p + q);
        assert_eq!(single(x.add(SINGLE, y.neg())), p - q);
        assert_eq!(single(x.abs()), p.abs());
        assert_eq!(x.le(SINGLE, y), p <= q);
        assert_eq!(y.le(SINGLE, x), q <= p);
        assert!(x.le(SINGLE, x));
        assert_eq!(single(x.round(SINGLE)), p.round());
        assert_eq!(x.round_i32(SINGLE), p.round() as i32);
        assert_eq!(x.trunc_i32(SINGLE), p as i32);
        assert_eq!(x.floor_i32(SINGLE), p.floor() as i32);
        if p >= 0.0 {
            assert_eq!(x.round_u32(SINGLE), p.round() as u32);
        }
    }
}

#[test]
fn double_precision_operations_match_the_machine() {
    let mut n = Numbers(9);
    for _ in 0..20_000 {
        let (a, b) = (n.whole(), n.whole());
        let d = n.whole().abs().max(1);
        let x = Float::from_int(DOUBLE, a as i128).div(DOUBLE, Float::from_int(DOUBLE, d as i128));
        let y = Float::from_int(DOUBLE, b as i128);
        let (p, q) = (a as f64 / d as f64, b as f64);
        assert_eq!(double(x), p, "{a} / {d}");
        assert_eq!(double(x.mul(DOUBLE, y)), p * q);
        assert_eq!(double(x.add(DOUBLE, y)), p + q);
        assert_eq!(x.round_i32(DOUBLE), p.round() as i32);
        assert_eq!(x.trunc_i32(DOUBLE), p as i32);
        assert_eq!(x.floor_i32(DOUBLE), p.floor() as i32);
    }
}

#[test]
fn floors_go_down() {
    let half = Float::from_int(SINGLE, 1).div(SINGLE, Float::from_int(SINGLE, 2));
    assert_eq!(half.floor_i32(SINGLE), 0);
    assert_eq!(half.neg().floor_i32(SINGLE), -1);
    assert_eq!(Float::from_int(SINGLE, -3).floor_i32(SINGLE), -3);
    assert_eq!(Float::from_int(SINGLE, -(1 << 40)).floor_i32(SINGLE), i32::MIN);
    assert_eq!(Float::from_int(SINGLE, 1 << 40).floor_i32(SINGLE), i32::MAX);
}

#[test]
fn bits_are_decoded() {
    let mut n = Numbers(3);
    for _ in 0..20_000 {
        let bits = n.next() as u32;
        let v = f32::from_bits(bits);
        if v.is_finite() {
            assert_eq!(double(decode(bits)), v as f64, "{bits:x}");
        }
    }
    for bits in [0u32, 0x8000_0000, 1, 0x7f_ffff, 0x80_0000, 0x7f7f_ffff, 0x3f80_0000] {
        assert_eq!(double(decode(bits)), f32::from_bits(bits) as f64);
    }
}
