use numtoys::nosquare::{no_square_cnf, square_pairs, NsLine};

fn clause(line: &NsLine) -> Vec<i64> {
    match line {
        NsLine::Clause(c) => c.clone(),
        other => panic!("expected a clause, got {other:?}"),
    }
}

#[test]
fn square_pairs_up_to_ten() {
    assert_eq!(
        square_pairs(10),
        vec![(1, 3), (1, 8), (2, 7), (3, 6), (4, 5), (6, 10), (7, 9)]
    );
    assert_eq!(square_pairs(1), vec![]);
    assert_eq!(square_pairs(3), vec![(1, 3)]);
}

#[test]
fn square_pairs_sum_to_squares() {
    let pairs = square_pairs(475);
    for &(j, k) in &pairs {
        let s = j + k;
        let r = (s as f64).sqrt() as u32;
        assert_eq!(r * r, s);
        assert!(1 <= j && j < k && k <= 475);
    }
    let brute = (1..=475u32)
        .flat_map(|j| (j + 1..=475).map(move |k| (j, k)))
        .filter(|&(j, k)| {
            let s = j + k;
            let r = (s as f64).sqrt() as u32;
            r * r == s
        })
        .count();
    assert_eq!(pairs.len(), brute);
}

#[test]
fn no_square_cnf_counts() {
    let c = no_square_cnf(10, 4).expect("fits");
    assert_eq!(c.bits, 2);
    assert_eq!(c.codes, 4);
    assert_eq!(c.vars, 20);
    assert_eq!(c.clauses, 28);
    let clauses = c.lines.iter().filter(|l| matches!(l, NsLine::Clause(_))).count();
    assert_eq!(clauses as u32, c.clauses);
}

#[test]
fn no_square_cnf_lines_of_three() {
    let c = no_square_cnf(3, 3).expect("fits");
    assert_eq!(c.bits, 2);
    assert_eq!(c.codes, 4);
    assert_eq!(c.vars, 6);
    assert_eq!(c.clauses, 6);
    assert_eq!(c.pairs, vec![(1, 3)]);
    assert_eq!(c.lines.len(), 10);
    assert!(matches!(c.lines[0], NsLine::Number(1)));
    assert_eq!(clause(&c.lines[1]), vec![-1, -2]);
    assert!(matches!(c.lines[2], NsLine::Number(2)));
    assert_eq!(clause(&c.lines[3]), vec![-3, -4]);
    assert!(matches!(c.lines[4], NsLine::Number(3)));
    assert_eq!(clause(&c.lines[5]), vec![-5, -6]);
    assert!(matches!(c.lines[6], NsLine::Pair(1, 3)));
    assert_eq!(clause(&c.lines[7]), vec![1, 2, 5, 6]);
    assert_eq!(clause(&c.lines[8]), vec![1, -2, 5, -6]);
    assert_eq!(clause(&c.lines[9]), vec![-1, 2, -5, 6]);
}

#[test]
fn no_square_cnf_one_slot() {
    let c = no_square_cnf(4, 1).expect("fits");
    assert_eq!(c.bits, 0);
    assert_eq!(c.codes, 1);
    assert_eq!(c.vars, 0);
    assert_eq!(c.clauses, 1);
}

/// Whether the assignment that gives number `i` colour `colour[i - 1]` satisfies every clause.
fn satisfies(lines: &[NsLine], bits: u32, colour: &[u32]) -> bool {
    let holds = |l: i64| {
        let var = l.unsigned_abs() as u32;
        let i = (var + bits - 1) / bits;
        let b = i * bits - var;
        let value = (colour[(i - 1) as usize] >> b) & 1 == 1;
        if l < 0 { !value } else { value }
    };
    lines.iter().all(|line| match line {
        NsLine::Clause(c) => c.iter().any(|&l| holds(l)),
        _ => true,
    })
}

#[test]
fn no_square_cnf_models_are_colourings() {
    let c = no_square_cnf(10, 3).expect("fits");
    assert_eq!(c.bits, 2);
    // pairs: (1,3) (1,8) (2,7) (3,6) (4,5) (6,10) (7,9)
    let good = [0, 0, 1, 0, 1, 0, 1, 1, 0, 1];
    assert!(satisfies(&c.lines, c.bits, &good));
    // 1 and 3 share a colour
    let clash = [0, 0, 0, 0, 1, 1, 1, 1, 0, 0];
    assert!(!satisfies(&c.lines, c.bits, &clash));
    // colour 3 is not one of the 3 slots
    let outside = [3, 0, 1, 0, 1, 0, 1, 1, 0, 1];
    assert!(!satisfies(&c.lines, c.bits, &outside));
}

#[test]
fn no_square_cnf_none_exactly_when_counts_overflow() {
    // 2^31 codes for 2^30 + 1 slots: each number rules out 2^30 - 1 codes, and
    // 5 * (2^30 - 1) + 2 * (2^30 + 1) clauses are more than a u32 holds
    assert!(no_square_cnf(5, 0x4000_0001).is_none());
    // 8 bits to a colour for 200 colours, 56 unused codes per number
    let c = no_square_cnf(10, 200).expect("fits");
    assert_eq!(c.bits, 8);
    assert_eq!(c.clauses, 10 * 56 + 200 * 7);
}
