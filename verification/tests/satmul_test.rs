use numtoys::satmul::{cvrt_args_valid, Bit, IntSet, PairMap};

#[test]
fn sort_orders_pairs() {
    assert_eq!(Bit::sort(3, -2), (-2, 3));
    assert_eq!(Bit::sort(1, 5), (1, 5));
}

#[test]
fn neg_flips_bits() {
    assert_eq!(Bit::Constant(true).neg(), Bit::Constant(false));
    assert_eq!(Bit::Node(4).neg(), Bit::Node(-4));
}

#[test]
fn str2bin_numbers_unknowns() {
    let mut cntr = 3;
    let bits = Bit::str2bin("1x0X", &mut cntr);
    assert_eq!(
        bits,
        vec![Bit::Constant(true), Bit::Node(4), Bit::Constant(false), Bit::Node(5)]
    );
    assert_eq!(cntr, 5);
}

#[test]
fn calc_reuses_pairs() {
    let mut node = 2;
    let mut hm = PairMap::new();
    let a = Bit::calc(2, 1, &mut node, &mut hm);
    let b = Bit::calc(1, 2, &mut node, &mut hm);
    assert_eq!(a, Bit::Node(3));
    assert_eq!(b, Bit::Node(3));
    assert_eq!(node, 3);
    assert_eq!(hm.len(), 1);
    assert_eq!(hm.entry(0), ((1, 2), Bit::Node(3)));
}

#[test]
fn add_of_constants_and_nodes() {
    let mut node = 2;
    let mut and = PairMap::new();
    let mut xor = PairMap::new();
    assert_eq!(
        Bit::Constant(false).add(Bit::Node(1), &mut node, &mut and, &mut xor),
        (Bit::Node(1), Bit::Constant(false))
    );
    assert_eq!(
        Bit::Constant(true).add(Bit::Node(1), &mut node, &mut and, &mut xor),
        (Bit::Node(-1), Bit::Node(1))
    );
    assert_eq!(node, 2);
    assert_eq!(
        Bit::Node(1).add(Bit::Node(2), &mut node, &mut and, &mut xor),
        (Bit::Node(3), Bit::Node(4))
    );
    assert_eq!(xor.entry(0), ((1, 2), Bit::Node(3)));
    assert_eq!(and.entry(0), ((1, 2), Bit::Node(4)));
}

#[test]
fn mul_of_bits() {
    let mut node = 2;
    let mut and = PairMap::new();
    assert_eq!(Bit::Constant(true).mul(Bit::Node(2), &mut node, &mut and), Bit::Node(2));
    assert_eq!(Bit::Node(2).mul(Bit::Constant(false), &mut node, &mut and), Bit::Constant(false));
    assert_eq!(Bit::Node(2).mul(Bit::Node(1), &mut node, &mut and), Bit::Node(3));
    assert_eq!(and.len(), 1);
}

#[test]
fn eq_adds_unit_and_binary_clauses() {
    let mut ceq = IntSet::new();
    let mut neq = PairMap::new();
    Bit::Node(2).eq(Bit::Constant(false), &mut ceq, &mut neq);
    Bit::Constant(true).eq(Bit::Node(1), &mut ceq, &mut neq);
    Bit::Node(1).eq(Bit::Node(3), &mut ceq, &mut neq);
    assert_eq!(ceq.len(), 2);
    assert_eq!(ceq.item(0), -2);
    assert_eq!(ceq.item(1), 1);
    assert_eq!(neq.len(), 2);
    assert_eq!(neq.entry(0), ((-3, 1), ()));
    assert_eq!(neq.entry(1), ((-1, 3), ()));
}

#[test]
fn format_writes_dimacs() {
    let mut and = PairMap::new();
    let mut xor = PairMap::new();
    let mut ceq = IntSet::new();
    let mut neq = PairMap::new();
    and.insert_new((1, 2), Bit::Node(3));
    xor.insert_new((1, 2), Bit::Node(4));
    ceq.insert(-4);
    neq.insert_new((-3, 1), ());
    let text = Bit::format(&and, &xor, &ceq, &neq, 4);
    assert_eq!(
        text,
        "c cnf format\np cnf 4 10\n1 2 -3 0\n1 -2 -3 0\n-1 2 -3 0\n-1 -2 3 0\n1 2 -4 0\n1 -2 4 0\n-1 2 4 0\n-1 -2 -4 0\n-4 0\n-3 1 0"
    );
}

#[test]
fn cvrt_of_constants() {
    let out = Bit::cvrt("1", "1", "1");
    assert_eq!(out.left, vec![Bit::Constant(true)]);
    assert_eq!(out.right, vec![Bit::Constant(true)]);
    assert_eq!(out.text.unwrap(), "c cnf format\np cnf 0 0\n");
}

#[test]
fn cvrt_contradiction() {
    let out = Bit::cvrt("1", "1", "0");
    assert!(out.text.is_none());
}

#[test]
fn cvrt_with_unknown() {
    let out = Bit::cvrt("x", "1", "1");
    assert_eq!(out.left, vec![Bit::Node(1)]);
    assert_eq!(out.text.unwrap(), "c cnf format\np cnf 1 1\n1 0");
}

#[test]
fn cvrt_swaps_to_longer_first() {
    let out = Bit::cvrt("x", "1x", "0x1");
    assert_eq!(out.left, vec![Bit::Constant(true), Bit::Node(1)]);
    assert_eq!(out.right, vec![Bit::Node(2)]);
    let text = out.text.unwrap();
    assert!(text.starts_with("c cnf format\np cnf "));
}

#[test]
fn cvrt_three_times_three() {
    let out = Bit::cvrt("xx", "xx", "1001");
    let text = out.text.unwrap();
    let header = text.lines().nth(1).unwrap().to_string();
    let parts: Vec<&str> = header.split(' ').collect();
    let clauses: usize = parts[3].parse().unwrap();
    assert_eq!(text.lines().count() - 2, clauses);
}

#[test]
fn cvrt_args_valid_checks_strings_and_counts() {
    assert!(cvrt_args_valid("1xx1", "1x1", "100011"));
    assert!(cvrt_args_valid("x", "", ""));
    assert!(!cvrt_args_valid("", "", "1"));
    assert!(!cvrt_args_valid("12", "1", "1"));
    assert!(!cvrt_args_valid("1", "1", "1 "));
    let long = "x".repeat(1000);
    assert!(cvrt_args_valid(&long, &long, "1"));
}

#[test]
fn cvrt_two_bit_square_text() {
    let out = Bit::cvrt("xx", "xx", "1001");
    let want = "c cnf format\np cnf 12 35\n1 3 -5 0\n1 -3 -5 0\n-1 3 -5 0\n-1 -3 5 0\n1 4 -6 0\n1 -4 -6 0\n-1 4 -6 0\n-1 -4 6 0\n2 3 -7 0\n2 -3 -7 0\n-2 3 -7 0\n-2 -3 7 0\n2 4 -8 0\n2 -4 -8 0\n-2 4 -8 0\n-2 -4 8 0\n6 7 -10 0\n6 -7 -10 0\n-6 7 -10 0\n-6 -7 10 0\n8 10 -12 0\n8 -10 -12 0\n-8 10 -12 0\n-8 -10 12 0\n6 7 -9 0\n6 -7 9 0\n-6 7 9 0\n-6 -7 -9 0\n8 10 -11 0\n8 -10 11 0\n-8 10 11 0\n-8 -10 -11 0\n-11 0\n-9 0\n5 0";
    assert_eq!(out.text.as_deref(), Some(want));
}

#[test]
fn cvrt_default_factors_header() {
    // 2614647029 * 3004108631, the factors unknown, the product's bits least significant first
    let m1 = format!("{:b}", 2614647029u64).chars().rev().collect::<String>();
    let m2 = format!("{:b}", 3004108631u64).chars().rev().collect::<String>();
    let p = format!("{:b}", 2614647029u64 * 3004108631u64).chars().rev().collect::<String>();
    let x1 = "x".repeat(m1.len());
    let x2 = "x".repeat(m2.len());
    assert!(cvrt_args_valid(&x1, &x2, &p));
    let text = Bit::cvrt(&x1, &x2, &p).text.expect("unknown factors never contradict");
    assert_eq!(text.lines().nth(1), Some("p cnf 14538 58919"));
    assert_eq!(text.len(), 1109697);
    assert_eq!(text.lines().count(), 58921);
}

#[test]
fn cvrt_literals_stay_in_range() {
    let out = Bit::cvrt("1xxx1", "1xx1", "x0x1x1xx1");
    let text = out.text.expect("no contradiction");
    let mut lines = text.lines();
    assert_eq!(lines.next(), Some("c cnf format"));
    let header: Vec<&str> = lines.next().unwrap().split(' ').collect();
    let node: i64 = header[2].parse().unwrap();
    let count: usize = header[3].parse().unwrap();
    let clauses: Vec<Vec<i64>> = lines
        .map(|l| l.split(' ').map(|x| x.parse::<i64>().unwrap()).collect())
        .collect();
    assert_eq!(clauses.len(), count);
    for c in &clauses {
        assert_eq!(*c.last().unwrap(), 0);
        for &l in &c[..c.len() - 1] {
            assert!(l != 0 && l.abs() <= node, "literal {l} out of 1..={node}");
        }
    }
}

#[test]
fn cvrt_counts_variables_and_product_gates() {
    let out = Bit::cvrt("xx", "xx", "1001");
    assert_eq!(out.node as usize, 4 + out.and.len() + out.xor.len());
    assert_eq!(out.node, 12);
    for a in &out.left {
        for b in &out.right {
            if let (Bit::Node(x), Bit::Node(y)) = (*a, *b) {
                assert!(out.and.find(Bit::sort(x, y)).is_some());
            }
        }
    }
    let again = Bit::format(&out.and, &out.xor, &out.ceq, &out.neq, out.node);
    assert_eq!(out.text.as_deref(), Some(again.as_str()));
}

#[test]
fn format_depends_only_on_contents() {
    let mut and1 = PairMap::new();
    let mut and2 = PairMap::new();
    and1.insert_new((1, 2), Bit::Node(5));
    and1.insert_new((-3, 4), Bit::Node(6));
    and2.insert_new((-3, 4), Bit::Node(6));
    and2.insert_new((1, 2), Bit::Node(5));
    let xor: PairMap<Bit> = PairMap::new();
    let mut ceq1 = IntSet::new();
    let mut ceq2 = IntSet::new();
    ceq1.insert(2);
    ceq1.insert(-1);
    ceq2.insert(-1);
    ceq2.insert(2);
    ceq2.insert(2);
    let neq: PairMap<()> = PairMap::new();
    let t1 = Bit::format(&and1, &xor, &ceq1, &neq, 6);
    let t2 = Bit::format(&and2, &xor, &ceq2, &neq, 6);
    assert_eq!(t1, t2);
    assert_eq!(t1, "c cnf format\np cnf 6 10\n-3 4 -6 0\n-3 -4 -6 0\n3 4 -6 0\n3 -4 6 0\n1 2 -5 0\n1 -2 -5 0\n-1 2 -5 0\n-1 -2 5 0\n-1 0\n2 0");
}

#[test]
fn cvrt_models_multiply_to_the_target() {
    // 2-bit factors: every assignment that satisfies the clauses makes the product agree
    // with 1001 (nine) in the lowest three bits.
    let out = Bit::cvrt("xx", "xx", "1001");
    let text = out.text.expect("no contradiction");
    let mut lines = text.lines().skip(1);
    let header: Vec<&str> = lines.next().unwrap().split(' ').collect();
    let nvars: u32 = header[2].parse().unwrap();
    let clauses: Vec<Vec<i64>> = lines
        .map(|l| l.split(' ').map(|x| x.parse::<i64>().unwrap()).filter(|&x| x != 0).collect())
        .collect();
    let value = |bits: &[Bit], sigma: u32| -> u64 {
        let mut v = 0u64;
        for (i, b) in bits.iter().enumerate() {
            let on = match *b {
                Bit::Constant(c) => c,
                Bit::Node(n) => (sigma >> (n - 1)) & 1 == 1,
            };
            if on {
                v |= 1 << i;
            }
        }
        v
    };
    let mut models = 0;
    for sigma in 0u32..(1 << nvars) {
        let sat = clauses.iter().all(|c| {
            c.iter().any(|&l| {
                let on = (sigma >> (l.unsigned_abs() - 1)) & 1 == 1;
                if l > 0 { on } else { !on }
            })
        });
        if sat {
            models += 1;
            let p = value(&out.left, sigma) * value(&out.right, sigma);
            assert!(p == 1 || p == 9, "product {p}");
        }
    }
    assert!(models > 0);
}

#[test]
fn cvrt_reports_no_overflow_on_small_inputs() {
    let out = Bit::cvrt("1xxx1", "1xx1", "x0x1x1xx1");
    assert!(!out.overflow);
    let out = Bit::cvrt("1", "1", "0");
    assert!(!out.overflow);
    assert!(out.text.is_none());
}

#[test]
fn cvrt_every_agreeing_assignment_extends_to_a_model() {
    // 2-bit factors and target 1001: each choice of the four factor bits whose product
    // agrees with nine in the lowest three bits is part of some model of the clauses.
    let out = Bit::cvrt("xx", "xx", "1001");
    let text = out.text.expect("no contradiction");
    let mut lines = text.lines().skip(1);
    let header: Vec<&str> = lines.next().unwrap().split(' ').collect();
    let nvars: u32 = header[2].parse().unwrap();
    let clauses: Vec<Vec<i64>> = lines
        .map(|l| l.split(' ').map(|x| x.parse::<i64>().unwrap()).filter(|&x| x != 0).collect())
        .collect();
    let sat = |sigma: u32| {
        clauses.iter().all(|c| {
            c.iter().any(|&l| {
                let on = (sigma >> (l.unsigned_abs() - 1)) & 1 == 1;
                if l > 0 { on } else { !on }
            })
        })
    };
    let mut agreeing = 0;
    for inputs in 0u32..16 {
        let a = inputs & 3;
        let b = inputs >> 2;
        if (a * b) % 8 != 1 {
            continue;
        }
        agreeing += 1;
        let extends = (0u32..(1 << (nvars - 4))).any(|rest| sat(inputs | (rest << 4)));
        assert!(extends, "inputs {inputs:04b}");
    }
    assert_eq!(agreeing, 2);
}

#[test]
fn cvrt_no_text_only_when_nothing_agrees() {
    // 1 * 1 is not 0: no assignment agrees and the text is left out.
    let out = Bit::cvrt("1", "1", "0");
    assert!(!out.overflow);
    assert!(out.text.is_none());
    // x * 1 == 1 has the assignment x = 1, so a text comes back.
    let out = Bit::cvrt("x", "1", "1");
    assert!(out.text.is_some());
}

#[test]
fn cvrt_stays_within_its_variable_bounds() {
    let out = Bit::cvrt("1xxx1", "1xx1", "x0x1x1xx1");
    let n = 9i64;
    let xs = 3 + 2 + 5;
    assert!(!out.overflow);
    assert!((out.node as i64) <= xs + 2 * n * n * n);
    assert!((out.ceq.len() + out.neq.len()) as i64 <= 3 * n * n);
}
