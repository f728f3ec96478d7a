use numtoys::pythag::{full_cnf, lonely_numbers, pythagorean_triples, rank_triples, ranked_cnf, shanggao, shanggao_simplified};

#[test]
fn shanggao_finds_legs() {
    let mut t = vec![];
    shanggao(25, &mut t);
    assert_eq!(t, vec![(7, 24, 25), (15, 20, 25)]);
    shanggao(5, &mut t);
    assert_eq!(t, vec![(7, 24, 25), (15, 20, 25), (3, 4, 5)]);
    let mut none = vec![];
    shanggao(7, &mut none);
    assert!(none.is_empty());
}

#[test]
fn shanggao_of_negative_hypotenuse() {
    let mut t = vec![];
    shanggao(-5, &mut t);
    assert_eq!(t, vec![(3, 4, -5)]);
}

#[test]
fn shanggao_simplified_as_arrays() {
    let mut t = vec![];
    shanggao_simplified(10, &mut t);
    assert_eq!(t, vec![[6, 8, 10]]);
    shanggao_simplified(65, &mut t);
    assert_eq!(t, vec![[6, 8, 10], [16, 63, 65], [25, 60, 65], [33, 56, 65], [39, 52, 65]]);
}

#[test]
fn triples_up_to_thirteen() {
    let t = pythagorean_triples(13);
    assert_eq!(t, vec![[3, 4, 5], [6, 8, 10], [5, 12, 13]]);
    assert!(pythagorean_triples(4).is_empty());
}

#[test]
fn lonely_numbers_up_to_thirteen() {
    let t = pythagorean_triples(13);
    assert_eq!(lonely_numbers(13, &t), vec![1, 2, 7, 9, 11]);
}

#[test]
fn ranks_of_triples() {
    let t = pythagorean_triples(13);
    let (values, ranked) = rank_triples(&t);
    assert_eq!(values, vec![0, 3, 4, 5, 6, 8, 10, 12, 13]);
    assert_eq!(ranked, vec![[1, 2, 3], [4, 5, 6], [3, 7, 8]]);
}

#[test]
fn header_counts_for_default_size() {
    let to = 100;
    let t = pythagorean_triples(to);
    let (values, _) = rank_triples(&t);
    let lonely = lonely_numbers(to, &t);
    // values holds 0 besides every number that appears in a triple
    assert_eq!(lonely.len() + values.len() - 1, to as usize);
    for x in 1..=to {
        let brute = t.iter().any(|tr| tr.contains(&x));
        assert_eq!(brute, !lonely.contains(&x));
    }
}

#[test]
fn full_cnf_of_thirteen() {
    let cnf = full_cnf(13);
    assert_eq!(cnf.vars, 13);
    assert_eq!(cnf.lonely, vec![1, 2, 7, 9, 11]);
    assert_eq!(cnf.clauses, 11);
    assert_eq!(
        cnf.lines,
        vec![
            vec![1],
            vec![2],
            vec![7],
            vec![9],
            vec![11],
            vec![3, 4, 5],
            vec![-3, -4, -5],
            vec![6, 8, 10],
            vec![-6, -8, -10],
            vec![5, 12, 13],
            vec![-5, -12, -13],
        ]
    );
}

#[test]
fn full_cnf_models_are_colourings() {
    let cnf = full_cnf(13);
    let holds = |colour: &dyn Fn(i64) -> bool| {
        cnf.lines.iter().all(|c| c.iter().any(|&l| if l < 0 { !colour(-l) } else { colour(l) }))
    };
    // 3, 6, 12 false; the rest true: no triple of one colour
    assert!(holds(&|x| x != 3 && x != 6 && x != 12));
    // all true: [3, 4, 5] is of one colour
    assert!(!holds(&|_| true));
    // a number in no triple set false
    assert!(!holds(&|x| x != 3 && x != 6 && x != 12 && x != 7));
}

#[test]
fn ranked_cnf_of_thirteen() {
    let (cnf, values, ranked) = ranked_cnf(13);
    assert_eq!(values, vec![0, 3, 4, 5, 6, 8, 10, 12, 13]);
    assert_eq!(ranked, vec![[1, 2, 3], [4, 5, 6], [3, 7, 8]]);
    // the header counts one clause less than there are
    assert_eq!(cnf.clauses, 10);
    assert_eq!(cnf.lines.len(), 11);
    assert_eq!(cnf.lines[5], vec![1, 2, 3]);
    assert_eq!(cnf.lines[10], vec![-3, -7, -8]);
}
