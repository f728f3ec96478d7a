use numtoys::mont::{self, mont_to_num, neg_mod_2pow64_inv, num_to_mont, redc_64};
use numtoys::pow::{pow, pow13, pow14};
use numtoys::s52;

#[test]
fn negated_inverse() {
    for p in [1u64, 3, 5, 1_000_000_007, 9_863_051_989_649] {
        let n = neg_mod_2pow64_inv(p);
        assert_eq!(p.wrapping_mul(n), u64::MAX);
    }
}

#[test]
fn montgomery_round_trip() {
    let m = 1_000_000_007u64;
    let n = neg_mod_2pow64_inv(m);
    for a in [0u64, 1, 2, 12345, m - 1] {
        assert_eq!(mont_to_num(num_to_mont(a, m, n), m, n), a);
    }
    let a = num_to_mont(123_456, m, n);
    let b = num_to_mont(654_321, m, n);
    assert_eq!(mont_to_num(redc_64(a, b, m, n), m, n), 123_456u64 * 654_321 % m);
}

#[test]
fn mul64_powers_agree_with_plain_powers() {
    let m = 1_000_000_007u64;
    let mont = mont::Mul64::new(m);
    let plain = pow(3u64, m);
    assert_eq!(mont.mont_to_num(pow(mont.num_to_mont(3), mont)), plain);
    assert_eq!(mont.mont_to_num(pow13(mont.num_to_mont(2), mont)), pow13(2u64, m));
    assert_eq!(mont.mont_to_num(pow14(mont.num_to_mont(5), mont)), pow14(5u64, m));
}

#[test]
fn chains_of_addition() {
    assert_eq!(pow13(2, ()), 3_188_646);
    assert_eq!(pow14(1, ()), 4_782_969);
}

#[test]
fn lanes_of_zero_read_back_as_one() {
    let mont = s52::Mul52::new(s52::Base::new([3, 5, 7, 11, 13, 17, 19, 23]));
    assert_eq!(mont.mont_to_num(s52::Base::new_broadcast(0)), [1, 1, 1, 1, 1, 1, 1, 1]);
}

#[test]
fn lanes_round_trip() {
    let lanes = [1_000_003u64, 1_000_033, 1_000_037, 1_000_039, 999_983, 999_979, 999_961, 999_959];
    let mont = s52::Mul52::new(s52::Base::new(lanes));
    let a = [5u64, 7, 11, 13, 17, 19, 23, 29];
    assert_eq!(mont.mont_to_num(mont.num_to_mont(a)), a);
}

#[test]
fn lanes_agree_with_mul64() {
    let lanes = [1_000_003u64, 1_000_033, 1_000_037, 1_000_039, 999_983, 999_979, 999_961, 999_959];
    let mont = s52::Mul52::new(s52::Base::new(lanes));
    let got = mont.mont_to_num(pow(mont.num_to_mont([3; 8]), mont));
    for (i, &m) in lanes.iter().enumerate() {
        let cpu = mont::Mul64::new(m);
        assert_eq!(got[i], cpu.mont_to_num(pow(cpu.num_to_mont(3), cpu)));
    }
}

#[test]
fn mul64_new_keeps_base_and_negated_inverse() {
    for p in [3u64, 1_000_000_007, 0xffff_ffff_ffff_fffd] {
        let m = mont::Mul64::new(p);
        assert_eq!(m.base, p);
        assert_eq!(p.wrapping_mul(m.baseinv), u64::MAX);
    }
    let even = mont::Mul64::new(10);
    assert_eq!(even.base, 10);
}

#[test]
fn mul52_new_gives_lane_inverses() {
    let lanes = [3u64, 5, 1_000_003, 10, (1u64 << 52) - 1, 1 << 60, 7, 9];
    let m = s52::Mul52::new(s52::Base::new(lanes));
    assert_eq!(m.base.0, lanes);
    for i in 0..8 {
        assert!(m.baseinv.0[i] < 1u64 << 52);
        if lanes[i] % 2 == 1 {
            let lo = (lanes[i] % (1u64 << 52)) as u128;
            assert_eq!((lo * m.baseinv.0[i] as u128) % (1u128 << 52), (1u128 << 52) - 1);
        }
    }
}

#[test]
fn lanes_agree_with_plain_powers() {
    let lanes = [1_000_003u64, 1_000_033, 1_000_037, 1_000_039, 999_983, 999_979, 999_961, 999_959];
    let mont = s52::Mul52::new(s52::Base::new(lanes));
    let got = mont.mont_to_num(pow(mont.num_to_mont([3; 8]), mont));
    for (i, &m) in lanes.iter().enumerate() {
        assert_eq!(got[i], pow(3u64, m));
    }
}
