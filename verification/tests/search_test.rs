use numtoys::mont::Mul64;
use numtoys::pow::pow;
use numtoys::search::{block_hits, coprime_offsets, REM};

#[test]
fn offsets_coprime_to_thirty() {
    assert_eq!(coprime_offsets(&vec![2, 3, 5], 30, 0), vec![1, 7, 11, 13, 17, 19, 23, 29]);
    assert_eq!(
        coprime_offsets(&vec![2, 3, 5], 30, 60),
        vec![61, 67, 71, 73, 77, 79, 83, 89]
    );
}

#[test]
fn offsets_count_is_totient() {
    let r = coprime_offsets(&vec![2, 3, 5, 7, 11], 2310, 0);
    assert_eq!(r.len(), 480);
    assert!(r.iter().all(|&x| [2u64, 3, 5, 7, 11].iter().all(|p| x % p != 0)));
}

#[test]
fn offsets_keep_last_partial_multiple() {
    // 7 does not divide 20 evenly: only the multiples below 20 / 7 * 7 = 14 are crossed out
    assert_eq!(coprime_offsets(&vec![7], 20, 0), (1..20).filter(|&j| j != 7).collect::<Vec<u64>>());
}

#[test]
fn block_hits_agree_with_mul64() {
    let idx = coprime_offsets(&vec![2, 3, 5, 7], 210, 0);
    assert_eq!(idx.len(), 48);
    let offset = 210 * 47_619_048;
    let got = block_hits(&idx, offset);
    let want: Vec<u64> = idx
        .iter()
        .map(|x| x + offset)
        .filter(|&y| {
            let mont = Mul64::new(y);
            mont.mont_to_num(pow(mont.num_to_mont(3), mont)) == y - REM
        })
        .collect();
    assert_eq!(got, want);
}

#[test]
fn block_hits_of_nothing() {
    assert_eq!(block_hits(&vec![], 0), Vec::<u64>::new());
}
