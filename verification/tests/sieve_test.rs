use numtoys::sieve::{euler_sieve, parallel_sieve, sieve_segment};

#[test]
fn euler_sieve_small() {
    assert_eq!(euler_sieve(30), vec![2, 3, 5, 7, 11, 13, 17, 19, 23, 29]);
    assert_eq!(euler_sieve(1), Vec::<usize>::new());
    assert_eq!(euler_sieve(2), vec![2]);
}

#[test]
fn parallel_sieve_matches_euler() {
    for limit in [2usize, 3, 10, 97, 100, 1000, 10007] {
        assert_eq!(parallel_sieve(limit), euler_sieve(limit), "limit {limit}");
    }
}

#[test]
fn parallel_sieve_edge_cases() {
    assert_eq!(parallel_sieve(0), Vec::<usize>::new());
    assert_eq!(parallel_sieve(1), vec![2]);
}

#[test]
fn segment_crosses_from_squares() {
    assert_eq!(sieve_segment(20, 40, &vec![2, 3, 5]), vec![23, 29, 31, 37]);
    assert_eq!(sieve_segment(2, 10, &vec![2, 3]), vec![2, 3, 5, 7]);
}
