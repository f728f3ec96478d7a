use numtoys::limbs::{addsub, mont_mul, mont_pows, mul64_hi, mul64_lo, mul64_wide};
use numtoys::mont::neg_mod_2pow64_inv;

fn split(x: u64) -> (u32, u32) {
    (x as u32, (x >> 32) as u32)
}

fn join(r: [u32; 2]) -> u64 {
    r[0] as u64 | ((r[1] as u64) << 32)
}

fn addsub_ref(a: u64, b: u64, m: u64) -> u64 {
    let s = a.wrapping_add(b).wrapping_add(1);
    if (s >> 32) <= 0x8000_0000 {
        s
    } else {
        s.wrapping_sub(m)
    }
}

fn mont_ref(a: u64, b: u64, m: u64, n: u64) -> u64 {
    let t = a as u128 * b as u128;
    let k = (t as u64).wrapping_mul(n);
    let h = ((k as u128 * m as u128) >> 64) as u64;
    addsub_ref(h, (t >> 64) as u64, m)
}

fn mont_mul_u64(a: u64, b: u64, m: u64, n: u64) -> u64 {
    let (a0, a1) = split(a);
    let (b0, b1) = split(b);
    let (m0, m1) = split(m);
    let (n0, n1) = split(n);
    join(mont_mul(a0, a1, b0, b1, m0, m1, n0, n1))
}

fn pows_ref(base: u64, aux: u64) -> u32 {
    let n = neg_mod_2pow64_inv(base);
    let r = (aux * base).wrapping_neg();
    let mut x = mont_ref(r, 3 * r, base, n);
    for _ in 0..27 {
        let sq = mont_ref(x, x, base, n);
        x = mont_ref(x, sq, base, n);
    }
    (mont_ref(x, 1, base, n) + 2 == base) as u32
}

const SAMPLES: [u64; 6] = [
    0,
    1,
    0xffff_ffff,
    0x1_0000_0000,
    0x1234_5678_9abc_def1,
    u64::MAX,
];

#[test]
fn wide_products_match_u128() {
    for &x in &SAMPLES {
        for &y in &SAMPLES {
            let (x0, x1) = split(x);
            let (y0, y1) = split(y);
            let r = mul64_wide(x0, x1, y0, y1);
            let p = x as u128 * y as u128;
            let got = r[0] as u128 | (r[1] as u128) << 32 | (r[2] as u128) << 64 | (r[3] as u128) << 96;
            assert_eq!(got, p, "{x} * {y}");
            assert_eq!(join(mul64_lo(x0, x1, y0, y1)), p as u64);
            assert_eq!(join(mul64_hi(x0, x1, y0, y1)), (p >> 64) as u64);
        }
    }
}

#[test]
fn addsub_adds_one_and_folds() {
    let (m0, m1) = split(1_000_000_007);
    let (a0, a1) = split(5);
    let (b0, b1) = split(6);
    assert_eq!(join(addsub(a0, a1, b0, b1, m0, m1)), 12);
    let big = 0x9000_0000_0000_0000u64;
    let (a0, a1) = split(big);
    let (b0, b1) = split(0);
    assert_eq!(join(addsub(a0, a1, b0, b1, m0, m1)), big + 1 - 1_000_000_007);
    for &x in &SAMPLES {
        for &y in &SAMPLES {
            let (x0, x1) = split(x);
            let (y0, y1) = split(y);
            assert_eq!(join(addsub(x0, x1, y0, y1, m0, m1)), addsub_ref(x, y, 1_000_000_007));
        }
    }
}

#[test]
fn limb_montgomery_products() {
    for m in [1_000_000_007u64, 559_813_183_481, 9_863_051_989_649] {
        let n = neg_mod_2pow64_inv(m);
        for &a in &[0u64, 1, 2, 12345, m - 1] {
            for &b in &[1u64, 3, 999, m - 2] {
                assert_eq!(mont_mul_u64(a, b, m, n), mont_ref(a, b, m, n));
            }
        }
    }
}

#[test]
fn limb_montgomery_is_congruent() {
    let m = 1_000_000_007u64;
    let n = neg_mod_2pow64_inv(m);
    let r_inv = {
        // 2^64 * r_inv = 1 mod m
        let r = ((1u128 << 64) % m as u128) as u64;
        let mut inv = 1u128;
        let mut e = m - 2;
        let mut b = r as u128;
        while e > 0 {
            if e & 1 == 1 {
                inv = inv * b % m as u128;
            }
            b = b * b % m as u128;
            e >>= 1;
        }
        inv
    };
    for (a, b) in [(5u64, 7u64), (123_456, 654_321), (m - 1, m - 1)] {
        let got = mont_mul_u64(a, b, m, n) as u128 % m as u128;
        let want = (a as u128 * b as u128 % m as u128) * r_inv % m as u128;
        assert_eq!(got, want);
    }
}

#[test]
fn mont_pows_matches_reference() {
    let range = 1u64 << 20;
    let start = 1u64 << 40;
    let aux = u64::MAX / (start + range - 1);
    for v in [1u64, 3, 5, 77, 1001, 65535, 1_000_001] {
        let base = start + v;
        assert_eq!(mont_pows(base, aux), pows_ref(base, aux), "base {base}");
    }
}

#[test]
fn mont_pows_tests_the_plain_power() {
    // where the limb reductions are exact, the GPU test is `3^(3^27) + 4 == base (mod base)`
    let range = 1u64 << 20;
    let start = 1u64 << 40;
    let aux = u64::MAX / (start + range - 1);
    for v in [1u64, 3, 5, 77, 1001, 65535, 1_000_001] {
        let base = start + v;
        let plain = numtoys::pow::pow(3u64, base);
        assert_eq!(mont_pows(base, aux), (plain + 4 == base) as u32, "base {base}");
    }
}
