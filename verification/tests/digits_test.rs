use numtoys::digits::{mark_windows, maxout_gen, mul2, MSlice, TARGET};
use numtoys::powdigits::{block_step, inner_block, BlockEnd, BlockStep};
use std::sync::atomic::AtomicUsize;

fn power_of_two(e: u32) -> Vec<u8> {
    let mut num = vec![1u8];
    for _ in 0..e {
        num = mul2(num);
    }
    num
}

fn decimal(num: &[u8]) -> String {
    num.iter().rev().map(|d| (b'0' + d) as char).collect()
}

#[test]
fn maxout_scales_leading_digits() {
    let m = maxout_gen();
    assert_eq!(m[0], 0);
    assert_eq!(m[3], 300_000);
    assert_eq!(m[9], 900_000);
}

#[test]
fn mul2_doubles_little_endian_numbers() {
    assert_eq!(mul2(vec![5]), vec![0, 1]);
    assert_eq!(mul2(vec![9, 9]), vec![8, 9, 1]);
    assert_eq!(mul2(vec![1, 2]), vec![2, 4]);
    assert_eq!(mul2(vec![]), Vec::<u8>::new());
    assert_eq!(mul2(vec![0]), vec![0]);
}

#[test]
fn mul2_reaches_large_powers() {
    assert_eq!(decimal(&power_of_two(10)), "1024");
    assert_eq!(decimal(&power_of_two(64)), "18446744073709551616");
    assert_eq!(decimal(&power_of_two(100)), "1267650600228229401496703205376");
}

#[test]
fn mslice_sets_and_resets() {
    let mut m = MSlice::new();
    assert!(!m.get(0));
    assert!(!m.filled());
    m.set(42);
    assert!(m.get(42));
    assert!(!m.get(43));
    assert!(!m.check_and_reset());
    assert!(!m.get(42));
}

#[test]
fn mslice_filled_when_every_flag_set() {
    let mut m = MSlice::new();
    for i in 0..TARGET {
        m.set(i);
    }
    assert!(m.filled());
    assert!(m.check_and_reset());
    assert!(!m.filled());
    m.reset();
    assert!(!m.get(TARGET - 1));
}

#[test]
fn mark_windows_reads_from_lowest_index() {
    let num = vec![1u8, 2, 3, 4, 5, 6, 7];
    let mut m = MSlice::new();
    mark_windows(&num, &mut m);
    assert!(m.get(123_456));
    assert!(m.get(234_567));
    assert!(!m.get(765_432));
    assert!(!m.get(345_678));
}

#[test]
fn mark_windows_with_leading_zeros() {
    let num = vec![0u8, 0, 0, 0, 0, 7, 0];
    let mut m = MSlice::new();
    mark_windows(&num, &mut m);
    assert!(m.get(7));
    assert!(m.get(70));
    assert!(!m.get(0));
}

#[test]
fn inner_block_finishes_below_target_length() {
    let stop = AtomicUsize::new(usize::MAX);
    let mut mask = MSlice::new();
    let end = inner_block(10, 0, vec![1], &mut mask, &stop);
    assert_eq!(end, BlockEnd::Finished);
    assert!(!mask.filled());
}

#[test]
fn inner_block_stops_at_the_mark() {
    let stop = AtomicUsize::new(0);
    let mut mask = MSlice::new();
    assert_eq!(inner_block(10, 3, power_of_two(30), &mut mask, &stop), BlockEnd::Stopped(31));
    let stop = AtomicUsize::new(34);
    assert_eq!(inner_block(10, 3, power_of_two(30), &mut mask, &stop), BlockEnd::Stopped(35));
}

#[test]
fn main_test() {
    let block_size = 100;
    let stop = AtomicUsize::new(usize::MAX);
    let mut num = vec![1u8];
    for j in 0..100 * block_size {
        if j >= 100 * (block_size - 10) && j % block_size == 0 {
            let mut mask = MSlice::new();
            let end = inner_block(block_size, j / block_size, num.clone(), &mut mask, &stop);
            assert_eq!(end, BlockEnd::Finished);
        }
        num = mul2(num);
    }
}

#[test]
fn block_step_stops_below_the_mark() {
    let mut mask = MSlice::new();
    assert!(matches!(block_step(4, 5, vec![6, 1], &mut mask), BlockStep::Stop));
    match block_step(5, 5, vec![6, 1], &mut mask) {
        BlockStep::Next(d) => assert_eq!(d, vec![2, 3]),
        _ => panic!("a short numeral lacks window values"),
    }
    match block_step(usize::MAX, 1, vec![9, 9], &mut mask) {
        BlockStep::Next(d) => assert_eq!(d, vec![8, 9, 1]),
        _ => panic!("a short numeral lacks window values"),
    }
    assert!(!mask.filled());
}
