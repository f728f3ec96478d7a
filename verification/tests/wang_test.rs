use numtoys::wang::{codes_to_tiles, color_ranks, decode_codes, wang_args_valid, wang_cnf, WangLine};

fn clause_lines(lines: &[WangLine]) -> usize {
    lines.iter().filter(|l| matches!(l, WangLine::Clause(_))).count()
}

#[test]
fn wang_cnf_small_open_grid() {
    let blocks: [&[u8]; 4] = [&[0, 1], &[1, 0], &[0, 0], &[1, 1]];
    let c = wang_cnf(2, 2, blocks).expect("two colours");
    assert_eq!(c.nodes, vec![vec![1, 2], vec![3, 4]]);
    assert_eq!(c.h_edges, vec![vec![5, 6]]);
    assert_eq!(c.v_edges, vec![vec![7], vec![8]]);
    assert_eq!(c.vars, 9);
    assert_eq!(c.clauses, 16);
    assert_eq!(clause_lines(&c.lines), 16);
    assert!(matches!(c.lines[0], WangLine::Cell(0, 0, 1)));
    assert!(matches!(c.lines[1], WangLine::UpDown));
    assert!(matches!(c.lines[2], WangLine::Rule(0, 0, 0)));
    match &c.lines[3] {
        WangLine::Clause(lits) => assert_eq!(lits, &vec![3, -5]),
        other => panic!("expected a clause, got {other:?}"),
    }
}

#[test]
fn wang_cnf_wrapping_grid_counts() {
    let blocks: [&[u8]; 4] = [&[1, 2, 0], &[2, 3, 2], &[2, 2, 2], &[3, 3, 2]];
    let c = wang_cnf(-3, -2, blocks).expect("several colours");
    assert_eq!(c.nodes.len(), 2);
    assert_eq!(c.nodes[0].len(), 3);
    assert_eq!(c.h_edges.len(), 2);
    assert_eq!(c.v_edges[0].len(), 3);
    // 6 cells of 2 bits, 12 edges of 2 bits
    assert_eq!(c.vars, 1 + 6 * 2 + 6 * 2 + 6 * 2);
    // 2 * 12 edges * 3 tiles * 2 bits, and one ruled-out code per cell
    assert_eq!(c.clauses, 2 * 12 * 3 * 2 + 6);
    assert_eq!(clause_lines(&c.lines) as i32, c.clauses);
    assert!(c.lines.iter().any(|l| matches!(l, WangLine::WrapRows(_, 1, 0))));
    assert!(c.lines.iter().any(|l| matches!(l, WangLine::WrapColumns(_, 0, 2))));
}

#[test]
fn wang_cnf_needs_two_colours() {
    let blocks: [&[u8]; 4] = [&[0, 0], &[0, 0], &[0, 0], &[0, 0]];
    assert!(wang_cnf(3, 3, blocks).is_none());
}

#[test]
fn decode_codes_sets_bits_of_cells() {
    let codes = decode_codes("v 2 -1 4 6\nv 7 9 0", 2, 1, 4);
    assert_eq!(codes, vec![2, 5]);
    let codes = decode_codes("1 -2 3\n-4 5 x 6 0", 2, 1, 2);
    assert_eq!(codes, vec![1, 1]);
    assert_eq!(decode_codes("", 2, 2, 3), vec![0, 0, 0, 0]);
}

#[test]
fn codes_to_tiles_reads_side_lists() {
    let blocks: [&[u8]; 4] = [&[1, 2, 0, 0], &[2, 3, 2, 2], &[2, 2, 2, 3], &[3, 3, 2, 3]];
    assert_eq!(
        codes_to_tiles(&vec![2, 1], blocks),
        Some(vec![[0, 2, 2, 2], [2, 3, 2, 3]])
    );
    assert_eq!(codes_to_tiles(&vec![2, 5], blocks), None);
    assert_eq!(codes_to_tiles(&vec![], blocks), Some(vec![]));
}

#[test]
fn color_ranks_count_smaller_colours() {
    let r = color_ranks(&vec![vec![5, 9], vec![9, 200]]);
    assert_eq!(r.len(), 256);
    assert_eq!(r[0], 0);
    assert_eq!(r[5], 0);
    assert_eq!(r[6], 1);
    assert_eq!(r[9], 1);
    assert_eq!(r[200], 2);
    assert_eq!(r[255], 3);
}

#[test]
fn color_ranks_of_default_tiles() {
    let lists = vec![
        vec![1, 2, 0, 0, 1, 2, 2, 2, 3, 2],
        vec![2, 3, 2, 2, 0, 2, 2, 1, 0, 1],
        vec![2, 2, 2, 3, 3, 3, 0, 0, 3, 3],
        vec![3, 3, 2, 3, 2, 2, 3, 0, 0, 3],
    ];
    let r = color_ranks(&lists);
    assert_eq!(&r[0..5], &[0, 1, 2, 3, 4]);
}

#[test]
fn wang_args_valid_checks_grid_and_counts() {
    let blocks: [&[u8]; 4] = [&[0, 1], &[1, 0], &[0, 0], &[1, 1]];
    assert!(wang_args_valid(2, 2, blocks));
    assert!(wang_args_valid(-3, -1, blocks));
    // one row without wrapping has no vertical edge row
    assert!(!wang_args_valid(3, 1, blocks));
    assert!(!wang_args_valid(3, 0, blocks));
    // no columns without wrapping
    assert!(!wang_args_valid(0, 3, blocks));
    assert!(wang_args_valid(0, -3, blocks));
    assert!(!wang_args_valid(i32::MIN, 3, blocks));
    let uneven: [&[u8]; 4] = [&[0, 1], &[1], &[0, 0], &[1, 1]];
    assert!(!wang_args_valid(2, 2, uneven));
    // 100000 x 100000 cells overflow the variable count
    assert!(!wang_args_valid(100_000, 100_000, blocks));
}

/// The assignment that writes each cell's tile code and, on each edge, the colour of the
/// upper or left cell's side.
fn tiling_assignment(c: &numtoys::wang::WangCnf, blocks: [&[u8]; 4], tiles: &[Vec<usize>]) -> Vec<bool> {
    let mut vals = vec![false; c.vars as usize + 1];
    // at least two columns: the widths are the steps between neighbouring cells and edges
    let bb = (c.nodes[0][1] - c.nodes[0][0]) as usize;
    let cb = (c.h_edges[0][1] - c.h_edges[0][0]) as usize;
    let mut set = |start: i32, width: usize, value: usize| {
        for b in 0..width {
            vals[start as usize + b] = (value >> b) & 1 == 1;
        }
    };
    for (i, row) in c.nodes.iter().enumerate() {
        for (j, &n) in row.iter().enumerate() {
            set(n, bb, tiles[i][j]);
        }
    }
    for (i, row) in c.h_edges.iter().enumerate() {
        for (j, &e) in row.iter().enumerate() {
            set(e, cb, blocks[1][tiles[i][j]] as usize);
        }
    }
    for (i, row) in c.v_edges.iter().enumerate() {
        for (j, &e) in row.iter().enumerate() {
            set(e, cb, blocks[3][tiles[i][j]] as usize);
        }
    }
    vals
}

fn all_clauses_hold(lines: &[WangLine], vals: &[bool]) -> bool {
    lines.iter().all(|l| match l {
        WangLine::Clause(c) => c.iter().any(|&x| if x < 0 { !vals[(-x) as usize] } else { vals[x as usize] }),
        _ => true,
    })
}

#[test]
fn wang_tilings_are_models() {
    // tile 0: top 0, bottom 1; tile 1: top 1, bottom 0; both show 0 left and right
    let blocks: [&[u8]; 4] = [&[0, 1], &[1, 0], &[0, 0], &[0, 0]];
    let c = wang_cnf(-2, 2, blocks).expect("two colours");
    let good = vec![vec![0, 0], vec![1, 1]];
    assert!(all_clauses_hold(&c.lines, &tiling_assignment(&c, blocks, &good)));
    let c = wang_cnf(-2, 3, blocks).expect("two colours");
    // three rows wrapping: the last row meets the first, tile 0 above tile 0
    let bad = vec![vec![0, 0], vec![1, 1], vec![0, 0]];
    assert!(!all_clauses_hold(&c.lines, &tiling_assignment(&c, blocks, &bad)));
    let c = wang_cnf(2, 3, blocks).expect("two colours");
    assert!(all_clauses_hold(&c.lines, &tiling_assignment(&c, blocks, &bad)));
}
