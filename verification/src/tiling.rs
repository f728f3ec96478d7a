//! The tilings of a grid are models of its CNF: the assignment that writes each cell's tile
//! code and each edge's colour satisfies every clause of [`crate::wang::wang_cnf`].
use vstd::prelude::*;
use vstd::arithmetic::div_mod::{lemma_breakdown, lemma_fundamental_div_mod_converse, lemma_mod_bound};
use vstd::bits::lemma_u64_shr_is_div;
use crate::cnf::{clause_holds, lit_holds};
use crate::wang::{
    bit_set, cell_lines, down_lines, edge_lit, grid_lines, grid_of, lemma_bit_len_bound, lemma_two_pow_30,
    lemma_two_pow_is_pow2, lemma_two_pow_monotone, pair_lines, restrict_lines, right_lines, row_lines,
    rule_lines, tile_lits, two_pow, wang_args_ok, Grid, LineSpec,
};

verus! {

/// Every clause among the lines holds under `v`.
pub open spec fn lines_hold(v: spec_fn(int) -> bool, s: Seq<LineSpec>) -> bool {
    forall|t: int| 0 <= t < s.len() ==> (#[trigger] s[t] matches LineSpec::Clause(c) ==> clause_holds(v, c))
}

/// Bit `b` of `x` is set.
pub open spec fn bit_at(x: u64, b: int) -> bool {
    bit_set(x, b as u64)
}

/// The row below row `i`: the first one below the last.
pub open spec fn below(g: Grid, i: int) -> int {
    if i < g.rows - 1 { i + 1 } else { 0 }
}

/// The column right of column `j`: the first one right of the last.
pub open spec fn right_of(g: Grid, j: int) -> int {
    if j < g.cols - 1 { j + 1 } else { 0 }
}

/// `t` tiles the grid of `g`: each cell holds a tile of the lists, each cell with a cell
/// below (the first row below the last when the rows wrap) shows at its bottom the colour
/// that cell shows on top, and each cell with a cell on its right (the first column when the
/// columns wrap) shows on its right the colour that cell shows on its left.
pub open spec fn is_tiling(g: Grid, t: spec_fn(int, int) -> int) -> bool {
    &&& forall|i: int, j: int| 0 <= i < g.rows && 0 <= j < g.cols ==> 0 <= #[trigger] t(i, j) < g.tiles()
    &&& forall|i: int, j: int|
        #![trigger t(i, j)]
        0 <= i < g.hr() && 0 <= j < g.cols ==> g.blocks[0][t(below(g, i), j)] == g.blocks[1][t(i, j)]
    &&& forall|i: int, j: int|
        #![trigger t(i, j)]
        0 <= i < g.rows && 0 <= j < g.vr() ==> g.blocks[2][t(i, right_of(g, j))] == g.blocks[3][t(i, j)]
}

/// The assignment of the tiling `t`: the tile variables of each cell hold its tile's code,
/// bit `b` in variable `b` of the cell; the colour variables of each edge hold the colour
/// of the upper or left cell's side on it, bit `c` in variable `c` of the edge.
pub open spec fn tiling_value(g: Grid, t: spec_fn(int, int) -> int) -> spec_fn(int) -> bool {
    |x: int|
        {
            let ns = g.rows * g.cols * g.bb;
            let hs = g.hr() * g.cols * g.cb;
            if x <= ns {
                let q = (x - 1) / g.bb;
                bit_set(t(q / g.cols, q % g.cols) as u64, ((x - 1) % g.bb) as u64)
            } else if x <= ns + hs {
                let q = (x - 1 - ns) / g.cb;
                bit_set(g.blocks[1][t(q / g.cols, q % g.cols)] as u64, ((x - 1 - ns) % g.cb) as u64)
            } else {
                let q = (x - 1 - ns - hs) / g.cb;
                bit_set(g.blocks[3][t(q / g.vr(), q % g.vr())] as u64, ((x - 1 - ns - hs) % g.cb) as u64)
            }
        }
}

proof fn lemma_lines_concat(v: spec_fn(int) -> bool, a: Seq<LineSpec>, b: Seq<LineSpec>)
    requires
        lines_hold(v, a),
        lines_hold(v, b),
    ensures
        lines_hold(v, a + b),
{
    assert forall|t: int| 0 <= t < (a + b).len() implies (#[trigger] (a + b)[t] matches LineSpec::Clause(c) ==> clause_holds(v, c)) by {
        if t < a.len() {
            assert((a + b)[t] == a[t]);
        } else {
            assert((a + b)[t] == b[t - a.len()]);
        }
    }
}

/// Numbers with the same low `n` bits agree modulo `2^n`.
proof fn lemma_low_bits(x: u64, y: u64, n: nat)
    requires
        n <= 63,
        forall|b: int| 0 <= b < n ==> #[trigger] bit_at(x, b) == bit_at(y, b),
    ensures
        (x as nat) % two_pow(n) == (y as nat) % two_pow(n),
    decreases n,
{
    if n == 0 {
        assert(two_pow(0) == 1);
    } else {
        let m = (n - 1) as nat;
        lemma_low_bits(x, y, m);
        lemma_two_pow_is_pow2(m);
        let p = two_pow(m);
        lemma_two_pow_monotone(0, m);
        assert(two_pow(n) == p * 2);
        lemma_breakdown(x as int, p as int, 2);
        lemma_breakdown(y as int, p as int, 2);
        lemma_u64_shr_is_div(x, m as u64);
        lemma_u64_shr_is_div(y, m as u64);
        let qx = x >> (m as u64);
        let qy = y >> (m as u64);
        assert(bit_at(x, m as int) == bit_at(y, m as int));
        assert((qx & 1u64 == 1u64) <==> (qx % 2 == 1)) by (bit_vector);
        assert((qy & 1u64 == 1u64) <==> (qy % 2 == 1)) by (bit_vector);
        assert(qx % 2 == qy % 2);
    }
}

/// Two different numbers below `2^n` differ in one of their low `n` bits.
proof fn lemma_bits_differ(x: u64, y: u64, n: nat) -> (b: int)
    requires
        n <= 63,
        x < two_pow(n),
        y < two_pow(n),
        x != y,
    ensures
        0 <= b < n,
        bit_set(x, b as u64) != bit_set(y, b as u64),
{
    if forall|b: int| 0 <= b < n ==> #[trigger] bit_at(x, b) == bit_at(y, b) {
        lemma_low_bits(x, y, n);
        vstd::arithmetic::div_mod::lemma_small_mod(x as nat, two_pow(n));
        vstd::arithmetic::div_mod::lemma_small_mod(y as nat, two_pow(n));
        assert(false);
        0
    } else {
        choose|b: int| 0 <= b < n && #[trigger] bit_at(x, b) != bit_at(y, b)
    }
}

/// The clause `tile_lits(node, k, bb)`, with anything after it, holds when the cell at
/// `node` holds a tile `tile` other than `k`.
proof fn lemma_other_tile(v: spec_fn(int) -> bool, node: int, k: u64, bb: int, tile: u64, rest: Seq<int>)
    requires
        node >= 1,
        1 <= bb <= 63,
        tile < two_pow(bb as nat),
        k < two_pow(bb as nat),
        tile != k,
        forall|b: int| 0 <= b < bb ==> v(node + b) == #[trigger] bit_at(tile, b),
    ensures
        clause_holds(v, tile_lits(node, k, bb) + rest),
{
    let b = lemma_bits_differ(tile, k, bb as nat);
    let c = tile_lits(node, k, bb) + rest;
    assert(c[b] == tile_lits(node, k, bb)[b]);
    assert(v(node + b) == bit_at(tile, b));
    assert(lit_holds(v, c[b]));
}

/// The clauses of [`rule_lines`] hold when the cell at `node` holds `tile`, below `2^bb`,
/// the edge at `edge` holds `colour`, and the rule gives `tile` that colour.
proof fn lemma_rule_lines(
    v: spec_fn(int) -> bool,
    node: int,
    edge: int,
    rule: Seq<u8>,
    bidx: int,
    bb: int,
    cb: int,
    n: int,
    tile: u64,
    colour: u64,
)
    requires
        node >= 1,
        edge >= 1,
        1 <= bb <= 63,
        cb >= 0,
        n <= rule.len(),
        n <= two_pow(bb as nat),
        n <= 0x4000_0000,
        tile < two_pow(bb as nat),
        tile < n ==> rule[tile as int] as u64 == colour,
        forall|b: int| 0 <= b < bb ==> v(node + b) == #[trigger] bit_at(tile, b),
        forall|c: int| 0 <= c < cb ==> v(edge + c) == #[trigger] bit_at(colour, c),
    ensures
        lines_hold(v, rule_lines(node, edge, rule, bidx, bb, cb, n)),
    decreases n,
{
    if n > 0 {
        lemma_rule_lines(v, node, edge, rule, bidx, bb, cb, n - 1, tile, colour);
        let k = (n - 1) as u64;
        let head = rule_lines(node, edge, rule, bidx, bb, cb, n - 1) + seq![LineSpec::Rule(n - 1, rule[n - 1] as int, bidx)];
        let own = Seq::new(cb as nat, |c: int| LineSpec::Clause(tile_lits(node, k, bb).push(edge_lit(edge, c, rule[n - 1]))));
        assert(lines_hold(v, seq![LineSpec::Rule(n - 1, rule[n - 1] as int, bidx)]));
        lemma_lines_concat(v, rule_lines(node, edge, rule, bidx, bb, cb, n - 1), seq![LineSpec::Rule(n - 1, rule[n - 1] as int, bidx)]);
        assert forall|t: int| 0 <= t < own.len() implies (#[trigger] own[t] matches LineSpec::Clause(c) ==> clause_holds(v, c)) by {
            let e = edge_lit(edge, t, rule[n - 1]);
            let cl = tile_lits(node, k, bb).push(e);
            assert(own[t] == LineSpec::Clause(cl));
            assert(k as int == n - 1);
            if tile != k {
                lemma_other_tile(v, node, k, bb, tile, seq![e]);
                assert(cl == tile_lits(node, k, bb) + seq![e]);
            } else {
                assert(rule[n - 1] as u64 == colour);
                assert(cl[bb] == e);
                assert(v(edge + t) == bit_at(colour, t));
                assert(lit_holds(v, cl[bb]));
            }
        }
        lemma_lines_concat(v, head, own);
    }
}

/// The tile variables of cell `(i, j)` hold its tile's bits.
proof fn lemma_node_value(g: Grid, t: spec_fn(int, int) -> int, i: int, j: int, b: int)
    requires
        g.bb >= 1,
        0 <= i < g.rows,
        0 <= j < g.cols,
        0 <= b < g.bb,
    ensures
        tiling_value(g, t)(g.node_var(i, j) + b) == bit_set(t(i, j) as u64, b as u64),
{
    let q = i * g.cols + j;
    let x = g.node_var(i, j) + b;
    assert(x - 1 == q * g.bb + b) by (nonlinear_arith)
        requires
            x == 1 + (i * g.cols + j) * g.bb + b,
            q == i * g.cols + j,
    ;
    lemma_fundamental_div_mod_converse(x - 1, g.bb, q, b);
    lemma_fundamental_div_mod_converse(q, g.cols, i, j);
    assert(x <= g.rows * g.cols * g.bb) by (nonlinear_arith)
        requires
            x - 1 == q * g.bb + b,
            q == i * g.cols + j,
            0 <= i < g.rows,
            0 <= j < g.cols,
            0 <= b < g.bb,
    ;
}

/// The colour variables of the edge below cell `(i, j)` hold the colour at its bottom.
proof fn lemma_hedge_value(g: Grid, t: spec_fn(int, int) -> int, i: int, j: int, c: int)
    requires
        g.bb >= 1,
        g.cb >= 1,
        0 <= i < g.hr(),
        0 <= j < g.cols,
        0 <= c < g.cb,
    ensures
        tiling_value(g, t)(g.hedge_var(i, j) + c) == bit_set(g.blocks[1][t(i, j)] as u64, c as u64),
{
    let ns = g.rows * g.cols * g.bb;
    let q = i * g.cols + j;
    let x = g.hedge_var(i, j) + c;
    assert(x - 1 - ns == q * g.cb + c) by (nonlinear_arith)
        requires
            x == 1 + g.rows * g.cols * g.bb + (i * g.cols + j) * g.cb + c,
            ns == g.rows * g.cols * g.bb,
            q == i * g.cols + j,
    ;
    lemma_fundamental_div_mod_converse(x - 1 - ns, g.cb, q, c);
    lemma_fundamental_div_mod_converse(q, g.cols, i, j);
    assert(x <= ns + g.hr() * g.cols * g.cb) by (nonlinear_arith)
        requires
            x - 1 - ns == q * g.cb + c,
            q == i * g.cols + j,
            0 <= i < g.hr(),
            0 <= j < g.cols,
            0 <= c < g.cb,
    ;
    assert(x > ns);
}

/// The colour variables of the edge right of cell `(i, j)` hold the colour on its right.
proof fn lemma_vedge_value(g: Grid, t: spec_fn(int, int) -> int, i: int, j: int, c: int)
    requires
        g.bb >= 1,
        g.cb >= 1,
        g.hr() >= 0,
        g.cols >= 0,
        0 <= i < g.rows,
        0 <= j < g.vr(),
        0 <= c < g.cb,
    ensures
        tiling_value(g, t)(g.vedge_var(i, j) + c) == bit_set(g.blocks[3][t(i, j)] as u64, c as u64),
{
    let ns = g.rows * g.cols * g.bb;
    let hs = g.hr() * g.cols * g.cb;
    let q = i * g.vr() + j;
    let x = g.vedge_var(i, j) + c;
    assert(x - 1 - ns - hs == q * g.cb + c) by (nonlinear_arith)
        requires
            x == 1 + g.rows * g.cols * g.bb + g.hr() * g.cols * g.cb + (i * g.vr() + j) * g.cb + c,
            ns == g.rows * g.cols * g.bb,
            hs == g.hr() * g.cols * g.cb,
            q == i * g.vr() + j,
    ;
    lemma_fundamental_div_mod_converse(x - 1 - ns - hs, g.cb, q, c);
    lemma_fundamental_div_mod_converse(q, g.vr(), i, j);
    assert(0 <= hs) by (nonlinear_arith)
        requires
            hs == g.hr() * g.cols * g.cb,
            g.hr() >= 0,
            g.cols >= 0,
            g.cb >= 1,
    ;
    assert(0 <= q * g.cb) by (nonlinear_arith)
        requires
            q == i * g.vr() + j,
            0 <= i,
            0 <= j < g.vr(),
            g.cb >= 1,
    ;
    assert(x > ns + hs);
}

/// The shape facts that [`wang_args_ok`] gives the grid.
proof fn lemma_grid_shape(v: i32, h: i32, blocks: Seq<Seq<u8>>)
    requires
        wang_args_ok(v, h, blocks),
    ensures
        ({
            let g = grid_of(v, h, blocks);
            &&& 1 <= g.bb <= 30
            &&& 1 <= g.cb <= 8
            &&& 1 <= g.tiles() <= two_pow(g.bb as nat)
            &&& g.rows >= 1
            &&& g.cols >= 0
            &&& g.hr() >= 1
            &&& g.vr() >= 0
            &&& g.blocks == blocks
            &&& blocks.len() == 4
            &&& forall|k: int| 0 <= k < 4 ==> #[trigger] blocks[k].len() == g.tiles()
        }),
{
    let g = grid_of(v, h, blocks);
    let len = blocks[0].len() as int;
    lemma_two_pow_30();
    lemma_bit_len_bound((if len - 1 > 1 { len - 1 } else { 1 }) as nat, 30);
    reveal_with_fuel(two_pow, 9);
    crate::wang::lemma_max_color_bound(blocks);
    lemma_bit_len_bound((if crate::wang::max_color(blocks) - 1 > 1 { crate::wang::max_color(blocks) - 1 } else { 1 }) as nat, 8);
    assert forall|k: int| 0 <= k < 4 implies #[trigger] blocks[k].len() == g.tiles() by {
    }
}

/// The clauses of the edge between the cell `rel` of tile `trel` and the cell `cur` of tile
/// `tcur` hold when the edge holds `colour` and both tiles show it on that edge.
proof fn lemma_pair(
    g: Grid,
    v: spec_fn(int) -> bool,
    rel: int,
    cur: int,
    edge: int,
    bidx: int,
    trel: int,
    tcur: int,
    colour: u64,
)
    requires
        1 <= g.bb <= 30,
        g.cb >= 1,
        g.blocks.len() == 4,
        0 <= bidx <= 2,
        forall|k: int| 0 <= k < 4 ==> #[trigger] g.blocks[k].len() == g.tiles(),
        g.tiles() <= two_pow(g.bb as nat),
        rel >= 1,
        cur >= 1,
        edge >= 1,
        0 <= trel < g.tiles(),
        0 <= tcur < g.tiles(),
        g.blocks[bidx][trel] as u64 == colour,
        g.blocks[bidx + 1][tcur] as u64 == colour,
        forall|b: int| 0 <= b < g.bb ==> v(rel + b) == #[trigger] bit_at(trel as u64, b),
        forall|b: int| 0 <= b < g.bb ==> v(cur + b) == #[trigger] bit_at(tcur as u64, b),
        forall|c: int| 0 <= c < g.cb ==> v(edge + c) == #[trigger] bit_at(colour, c),
    ensures
        lines_hold(v, pair_lines(g, rel, cur, edge, bidx)),
{
    assert(g.blocks[bidx].len() == g.tiles());
    assert(g.blocks[bidx + 1].len() == g.tiles());
    lemma_two_pow_30();
    lemma_two_pow_monotone(g.bb as nat, 30);
    assert((trel as u64) as int == trel);
    assert((tcur as u64) as int == tcur);
    lemma_rule_lines(v, rel, edge, g.blocks[bidx], bidx, g.bb, g.cb, g.blocks[bidx].len() as int, trel as u64, colour);
    lemma_rule_lines(v, cur, edge, g.blocks[bidx + 1], bidx + 1, g.bb, g.cb, g.blocks[bidx + 1].len() as int, tcur as u64, colour);
    lemma_lines_concat(
        v,
        rule_lines(rel, edge, g.blocks[bidx], bidx, g.bb, g.cb, g.blocks[bidx].len() as int),
        rule_lines(cur, edge, g.blocks[bidx + 1], bidx + 1, g.bb, g.cb, g.blocks[bidx + 1].len() as int),
    );
}

/// The clauses of cell `(i, j)` hold under the assignment of a tiling.
proof fn lemma_cell(g: Grid, t: spec_fn(int, int) -> int, i: int, j: int)
    requires
        1 <= g.bb <= 30,
        1 <= g.cb <= 8,
        g.blocks.len() == 4,
        forall|k: int| 0 <= k < 4 ==> #[trigger] g.blocks[k].len() == g.tiles(),
        g.tiles() <= two_pow(g.bb as nat),
        g.hr() >= 0,
        g.vr() >= 0,
        is_tiling(g, t),
        0 <= i < g.rows,
        0 <= j < g.cols,
    ensures
        lines_hold(tiling_value(g, t), cell_lines(g, i, j)),
{
    let v = tiling_value(g, t);
    let tile = t(i, j);
    assert(0 <= tile < g.tiles());
    assert forall|b: int| 0 <= b < g.bb implies v(g.node_var(i, j) + b) == #[trigger] bit_at(tile as u64, b) by {
        lemma_node_value(g, t, i, j, b);
    }
    assert(g.node_var(i, j) >= 1) by (nonlinear_arith)
        requires
            0 <= i,
            0 <= j < g.cols,
            g.bb >= 1,
    ;
    // the edge below
    if i < g.hr() {
        let bi = below(g, i);
        let low = t(bi, j);
        assert(0 <= bi < g.rows);
        assert(0 <= low < g.tiles());
        let colour = g.blocks[1][tile] as u64;
        assert(g.blocks[0][low] as u64 == colour);
        assert forall|b: int| 0 <= b < g.bb implies v(g.node_var(bi, j) + b) == #[trigger] bit_at(low as u64, b) by {
            lemma_node_value(g, t, bi, j, b);
        }
        assert forall|c: int| 0 <= c < g.cb implies v(g.hedge_var(i, j) + c) == #[trigger] bit_at(colour, c) by {
            lemma_hedge_value(g, t, i, j, c);
        }
        assert(g.node_var(bi, j) >= 1) by (nonlinear_arith)
            requires
                0 <= bi,
                0 <= j < g.cols,
                g.bb >= 1,
        ;
        assert(g.hedge_var(i, j) >= 1) by (nonlinear_arith)
            requires
                0 <= i,
                0 <= j < g.cols,
                g.bb >= 1,
                g.cb >= 1,
                g.rows >= 1,
        ;
        lemma_pair(g, v, g.node_var(bi, j), g.node_var(i, j), g.hedge_var(i, j), 0, low, tile, colour);
        assert(lines_hold(v, seq![LineSpec::UpDown]));
        assert(lines_hold(v, seq![LineSpec::WrapRows(g.node_var(i, j), i, j)]));
        if i < g.rows - 1 {
            lemma_lines_concat(v, seq![LineSpec::UpDown], pair_lines(g, g.node_var(bi, j), g.node_var(i, j), g.hedge_var(i, j), 0));
        } else {
            lemma_lines_concat(v, seq![LineSpec::WrapRows(g.node_var(i, j), i, j)], pair_lines(g, g.node_var(bi, j), g.node_var(i, j), g.hedge_var(i, j), 0));
        }
    }
    assert(lines_hold(v, down_lines(g, i, j)));
    // the edge on the right
    if j < g.vr() {
        let rj = right_of(g, j);
        let next = t(i, rj);
        assert(0 <= rj < g.cols);
        assert(0 <= next < g.tiles());
        let colour = g.blocks[3][tile] as u64;
        assert(g.blocks[2][next] as u64 == colour);
        assert forall|b: int| 0 <= b < g.bb implies v(g.node_var(i, rj) + b) == #[trigger] bit_at(next as u64, b) by {
            lemma_node_value(g, t, i, rj, b);
        }
        assert forall|c: int| 0 <= c < g.cb implies v(g.vedge_var(i, j) + c) == #[trigger] bit_at(colour, c) by {
            lemma_vedge_value(g, t, i, j, c);
        }
        assert(g.node_var(i, rj) >= 1) by (nonlinear_arith)
            requires
                0 <= i,
                0 <= rj < g.cols,
                g.bb >= 1,
        ;
        assert(g.vedge_var(i, j) >= 1) by (nonlinear_arith)
            requires
                0 <= i < g.rows,
                0 <= j < g.vr(),
                g.bb >= 1,
                g.cb >= 1,
                g.hr() >= 0,
                g.cols >= 0,
        ;
        lemma_pair(g, v, g.node_var(i, rj), g.node_var(i, j), g.vedge_var(i, j), 2, next, tile, colour);
        assert(lines_hold(v, seq![LineSpec::LeftRight]));
        assert(lines_hold(v, seq![LineSpec::WrapColumns(g.node_var(i, j), i, j)]));
        if j < g.cols - 1 {
            lemma_lines_concat(v, seq![LineSpec::LeftRight], pair_lines(g, g.node_var(i, rj), g.node_var(i, j), g.vedge_var(i, j), 2));
        } else {
            lemma_lines_concat(v, seq![LineSpec::WrapColumns(g.node_var(i, j), i, j)], pair_lines(g, g.node_var(i, rj), g.node_var(i, j), g.vedge_var(i, j), 2));
        }
    }
    assert(lines_hold(v, right_lines(g, i, j)));
    // the codes that name no tile
    let node = g.node_var(i, j);
    let spare = Seq::new(
        (two_pow(g.bb as nat) - g.tiles()) as nat,
        |k: int| LineSpec::Clause(tile_lits(node, (g.tiles() + k) as u64, g.bb)),
    );
    lemma_two_pow_30();
    lemma_two_pow_monotone(g.bb as nat, 30);
    assert forall|k: int| 0 <= k < spare.len() implies (#[trigger] spare[k] matches LineSpec::Clause(c) ==> clause_holds(v, c)) by {
        let code = (g.tiles() + k) as u64;
        lemma_other_tile(v, node, code, g.bb, tile as u64, Seq::empty());
        assert(tile_lits(node, code, g.bb) + Seq::<int>::empty() == tile_lits(node, code, g.bb));
    }
    assert(lines_hold(v, seq![LineSpec::Restrict]));
    lemma_lines_concat(v, seq![LineSpec::Restrict], spare);
    assert(restrict_lines(g, node) == seq![LineSpec::Restrict] + spare);
    assert(lines_hold(v, seq![LineSpec::Cell(i, j, node)]));
    lemma_lines_concat(v, seq![LineSpec::Cell(i, j, node)], down_lines(g, i, j));
    lemma_lines_concat(v, seq![LineSpec::Cell(i, j, node)] + down_lines(g, i, j), right_lines(g, i, j));
    lemma_lines_concat(v, seq![LineSpec::Cell(i, j, node)] + down_lines(g, i, j) + right_lines(g, i, j), restrict_lines(g, node));
}

proof fn lemma_rows(g: Grid, t: spec_fn(int, int) -> int, i: int, j: int)
    requires
        1 <= g.bb <= 30,
        1 <= g.cb <= 8,
        g.blocks.len() == 4,
        forall|k: int| 0 <= k < 4 ==> #[trigger] g.blocks[k].len() == g.tiles(),
        g.tiles() <= two_pow(g.bb as nat),
        g.hr() >= 0,
        g.vr() >= 0,
        is_tiling(g, t),
        0 <= i < g.rows,
        j <= g.cols,
    ensures
        lines_hold(tiling_value(g, t), row_lines(g, i, j)),
    decreases j,
{
    if j > 0 {
        lemma_rows(g, t, i, j - 1);
        lemma_cell(g, t, i, j - 1);
        lemma_lines_concat(tiling_value(g, t), row_lines(g, i, j - 1), cell_lines(g, i, j - 1));
    }
}

proof fn lemma_grid(g: Grid, t: spec_fn(int, int) -> int, i: int)
    requires
        1 <= g.bb <= 30,
        1 <= g.cb <= 8,
        g.blocks.len() == 4,
        forall|k: int| 0 <= k < 4 ==> #[trigger] g.blocks[k].len() == g.tiles(),
        g.tiles() <= two_pow(g.bb as nat),
        g.hr() >= 0,
        g.vr() >= 0,
        is_tiling(g, t),
        i <= g.rows,
    ensures
        lines_hold(tiling_value(g, t), grid_lines(g, i)),
    decreases i,
{
    if i > 0 {
        lemma_grid(g, t, i - 1);
        lemma_rows(g, t, i - 1, g.cols);
        lemma_lines_concat(tiling_value(g, t), grid_lines(g, i - 1), row_lines(g, i - 1, g.cols));
    }
}

/// Every tiling is a model of the tiling CNF: under the assignment that writes each cell's
/// tile code and each edge's colour, every clause of the lines of [`crate::wang::wang_cnf`]
/// holds.
pub proof fn lemma_tilings_are_models(v: i32, h: i32, blocks: Seq<Seq<u8>>, t: spec_fn(int, int) -> int)
    requires
        wang_args_ok(v, h, blocks),
        is_tiling(grid_of(v, h, blocks), t),
    ensures
        lines_hold(tiling_value(grid_of(v, h, blocks), t), grid_lines(grid_of(v, h, blocks), grid_of(v, h, blocks).rows)),
{
    let g = grid_of(v, h, blocks);
    lemma_grid_shape(v, h, blocks);
    lemma_grid(g, t, g.rows);
}

/// The number whose bit `b`, for `b < n`, is the value of variable `node + b`: the code that
/// the assignment `v` writes in the tile variables from `node` on.
pub open spec fn code_at(v: spec_fn(int) -> bool, node: int, n: nat) -> nat
    decreases n,
{
    if n == 0 {
        0
    } else {
        code_at(v, node, (n - 1) as nat) + if v(node + n - 1) { two_pow((n - 1) as nat) } else { 0 }
    }
}

/// The tiles that the assignment `v` writes in the cells of `g`.
pub open spec fn model_tiles(g: Grid, v: spec_fn(int) -> bool) -> spec_fn(int, int) -> int {
    |i: int, j: int| code_at(v, g.node_var(i, j), g.bb as nat) as int
}

/// Every colour of the side lists fits in the `cb` bits of an edge.
pub open spec fn colours_fit(g: Grid) -> bool {
    forall|k: int, x: int| 0 <= k < 4 && 0 <= x < g.tiles() ==> #[trigger] g.blocks[k][x] < two_pow(g.cb as nat)
}

proof fn lemma_lines_split(v: spec_fn(int) -> bool, a: Seq<LineSpec>, b: Seq<LineSpec>)
    requires
        lines_hold(v, a + b),
    ensures
        lines_hold(v, a),
        lines_hold(v, b),
{
    assert forall|t: int| 0 <= t < a.len() implies (#[trigger] a[t] matches LineSpec::Clause(c) ==> clause_holds(v, c)) by {
        assert((a + b)[t] == a[t]);
    }
    assert forall|t: int| 0 <= t < b.len() implies (#[trigger] b[t] matches LineSpec::Clause(c) ==> clause_holds(v, c)) by {
        assert((a + b)[a.len() + t] == b[t]);
    }
}

proof fn lemma_code_bound(v: spec_fn(int) -> bool, node: int, n: nat)
    ensures
        code_at(v, node, n) < two_pow(n),
    decreases n,
{
    if n > 0 {
        lemma_code_bound(v, node, (n - 1) as nat);
    }
}

/// The code equals `x` in its low `n` bits exactly when each bit agrees.
proof fn lemma_code_bits(v: spec_fn(int) -> bool, node: int, n: nat, x: u64)
    requires
        n <= 63,
    ensures
        code_at(v, node, n) == (x as nat) % two_pow(n) <==> forall|b: int| 0 <= b < n ==> v(node + b) == #[trigger] bit_at(x, b),
    decreases n,
{
    if n == 0 {
        assert(two_pow(0) == 1);
        assert((x as nat) % 1 == 0);
    } else {
        let m = (n - 1) as nat;
        lemma_code_bits(v, node, m, x);
        lemma_code_bound(v, node, m);
        lemma_two_pow_is_pow2(m);
        let p = two_pow(m);
        lemma_two_pow_monotone(0, m);
        lemma_breakdown(x as int, p as int, 2);
        assert(two_pow(n) == p * 2);
        lemma_u64_shr_is_div(x, m as u64);
        let q = x >> (m as u64);
        assert((q & 1u64 == 1u64) <==> (q % 2 == 1)) by (bit_vector);
        let low = (x as nat) % p;
        let c = code_at(v, node, m);
        lemma_mod_bound(x as int, p as int);
        let top: int = if v(node + m) { 1 } else { 0 };
        let want: int = ((x as nat) / p) as int % 2;
        assert(code_at(v, node, n) == c + top * p);
        assert((x as nat) % two_pow(n) == p * want + low);
        if code_at(v, node, n) == (x as nat) % two_pow(n) {
            assert(c == low && top == want) by (nonlinear_arith)
                requires
                    c + top * p == p * want + low,
                    0 <= c < p,
                    0 <= low < p,
                    0 <= top <= 1,
                    0 <= want <= 1,
            ;
            assert forall|b: int| 0 <= b < n implies v(node + b) == #[trigger] bit_at(x, b) by {
                if b == m {
                    assert(bit_at(x, b) == (q & 1u64 == 1u64));
                }
            }
        }
        if forall|b: int| 0 <= b < n ==> v(node + b) == #[trigger] bit_at(x, b) {
            assert forall|b: int| 0 <= b < m implies v(node + b) == #[trigger] bit_at(x, b) by {
                assert(v(node + b) == bit_at(x, b));
            }
            assert(v(node + m) == bit_at(x, m as int));
            assert(bit_at(x, m as int) == (q & 1u64 == 1u64));
            assert(c + top * p == p * want + low) by (nonlinear_arith)
                requires
                    c == low,
                    top == want,
            ;
        }
    }
}

/// The tile variables from `node` on hold the bits of the code that `v` writes there.
proof fn lemma_code_holds(v: spec_fn(int) -> bool, node: int, bb: int)
    requires
        1 <= bb <= 30,
    ensures
        code_at(v, node, bb as nat) < two_pow(bb as nat),
        forall|b: int| 0 <= b < bb ==> v(node + b) == #[trigger] bit_at(code_at(v, node, bb as nat) as u64, b),
{
    let code = code_at(v, node, bb as nat);
    lemma_code_bound(v, node, bb as nat);
    lemma_two_pow_30();
    lemma_two_pow_monotone(bb as nat, 30);
    vstd::arithmetic::div_mod::lemma_small_mod(code, two_pow(bb as nat));
    assert((code as u64) as nat == code);
    lemma_code_bits(v, node, bb as nat, code as u64);
}

/// A clause of tile literals for the code the cell holds, with a literal after them, holds
/// only through that literal.
proof fn lemma_edge_lit(v: spec_fn(int) -> bool, node: int, k: u64, bb: int, e: int)
    requires
        node >= 1,
        1 <= bb,
        forall|b: int| 0 <= b < bb ==> v(node + b) == #[trigger] bit_at(k, b),
        clause_holds(v, tile_lits(node, k, bb).push(e)),
    ensures
        lit_holds(v, e),
{
    let c = tile_lits(node, k, bb).push(e);
    let t = choose|t: int| 0 <= t < c.len() && lit_holds(v, #[trigger] c[t]);
    if t < bb {
        assert(c[t] == tile_lits(node, k, bb)[t]);
        assert(v(node + t) == bit_at(k, t));
        assert(false);
    }
}

/// The clauses of [`rule_lines`] for tile `k` of the rule are among its lines.
proof fn lemma_rule_clause(
    v: spec_fn(int) -> bool,
    node: int,
    edge: int,
    rule: Seq<u8>,
    bidx: int,
    bb: int,
    cb: int,
    n: int,
    k: int,
    c: int,
)
    requires
        lines_hold(v, rule_lines(node, edge, rule, bidx, bb, cb, n)),
        0 <= k < n,
        0 <= c < cb,
    ensures
        clause_holds(v, tile_lits(node, k as u64, bb).push(edge_lit(edge, c, rule[k]))),
    decreases n,
{
    let head = rule_lines(node, edge, rule, bidx, bb, cb, n - 1) + seq![LineSpec::Rule(n - 1, rule[n - 1] as int, bidx)];
    let own = Seq::new(cb as nat, |d: int| LineSpec::Clause(tile_lits(node, (n - 1) as u64, bb).push(edge_lit(edge, d, rule[n - 1]))));
    lemma_lines_split(v, head, own);
    if k == n - 1 {
        assert(own[c] == LineSpec::Clause(tile_lits(node, k as u64, bb).push(edge_lit(edge, c, rule[k]))));
    } else {
        lemma_lines_split(v, rule_lines(node, edge, rule, bidx, bb, cb, n - 1), seq![LineSpec::Rule(n - 1, rule[n - 1] as int, bidx)]);
        lemma_rule_clause(v, node, edge, rule, bidx, bb, cb, n - 1, k, c);
    }
}

/// Under `v`, the edge at `edge` holds the colour that the rule gives the tile `k` that the
/// cell at `node` holds.
proof fn lemma_edge_colour(
    v: spec_fn(int) -> bool,
    node: int,
    edge: int,
    rule: Seq<u8>,
    bidx: int,
    bb: int,
    cb: int,
    k: int,
)
    requires
        lines_hold(v, rule_lines(node, edge, rule, bidx, bb, cb, rule.len() as int)),
        node >= 1,
        edge >= 1,
        1 <= bb,
        0 <= k < rule.len(),
        k <= 0x4000_0000,
        forall|b: int| 0 <= b < bb ==> v(node + b) == #[trigger] bit_at(k as u64, b),
    ensures
        forall|c: int| 0 <= c < cb ==> v(edge + c) == #[trigger] bit_at(rule[k] as u64, c),
{
    assert forall|c: int| 0 <= c < cb implies v(edge + c) == #[trigger] bit_at(rule[k] as u64, c) by {
        lemma_rule_clause(v, node, edge, rule, bidx, bb, cb, rule.len() as int, k, c);
        lemma_edge_lit(v, node, k as u64, bb, edge_lit(edge, c, rule[k]));
    }
}

/// The lines of row `i` are among those of the first `n` rows, and those of cell `(i, j)`
/// among those of the first `m` cells of its row.
proof fn lemma_cell_of_grid(g: Grid, v: spec_fn(int) -> bool, n: int, i: int, j: int)
    requires
        lines_hold(v, grid_lines(g, n)),
        0 <= i < n,
        0 <= j < g.cols,
    ensures
        lines_hold(v, cell_lines(g, i, j)),
    decreases n,
{
    lemma_lines_split(v, grid_lines(g, n - 1), row_lines(g, n - 1, g.cols));
    if i < n - 1 {
        lemma_cell_of_grid(g, v, n - 1, i, j);
    } else {
        lemma_cell_of_row(g, v, g.cols, i, j);
    }
}

proof fn lemma_cell_of_row(g: Grid, v: spec_fn(int) -> bool, m: int, i: int, j: int)
    requires
        lines_hold(v, row_lines(g, i, m)),
        0 <= j < m,
    ensures
        lines_hold(v, cell_lines(g, i, j)),
    decreases m,
{
    lemma_lines_split(v, row_lines(g, i, m - 1), cell_lines(g, i, j + (m - 1 - j)));
    if j < m - 1 {
        lemma_cell_of_row(g, v, m - 1, i, j);
    }
}

/// The colours that a model of the lines of cell `(i, j)` gives its edges below and on the
/// right, as each of the two cells on the edge shows it, when every cell's code is a tile.
proof fn lemma_cell_model(g: Grid, v: spec_fn(int) -> bool, i: int, j: int)
    requires
        1 <= g.bb <= 30,
        1 <= g.cb <= 8,
        g.blocks.len() == 4,
        forall|k: int| 0 <= k < 4 ==> #[trigger] g.blocks[k].len() == g.tiles(),
        1 <= g.tiles() <= two_pow(g.bb as nat),
        g.hr() >= 0,
        g.vr() >= 0,
        0 <= i < g.rows,
        0 <= j < g.cols,
        lines_hold(v, cell_lines(g, i, j)),
        forall|a: int, b: int| 0 <= a < g.rows && 0 <= b < g.cols ==> 0 <= #[trigger] model_tiles(g, v)(a, b) < g.tiles(),
    ensures
        i < g.hr() ==> forall|c: int| 0 <= c < g.cb ==> v(g.hedge_var(i, j) + c) == #[trigger] bit_at(g.blocks[1][model_tiles(g, v)(i, j)] as u64, c),
        i < g.hr() ==> forall|c: int| 0 <= c < g.cb ==> v(g.hedge_var(i, j) + c) == #[trigger] bit_at(g.blocks[0][model_tiles(g, v)(below(g, i), j)] as u64, c),
        j < g.vr() ==> forall|c: int| 0 <= c < g.cb ==> v(g.vedge_var(i, j) + c) == #[trigger] bit_at(g.blocks[3][model_tiles(g, v)(i, j)] as u64, c),
        j < g.vr() ==> forall|c: int| 0 <= c < g.cb ==> v(g.vedge_var(i, j) + c) == #[trigger] bit_at(g.blocks[2][model_tiles(g, v)(i, right_of(g, j))] as u64, c),
{
    let node = g.node_var(i, j);
    let tile = model_tiles(g, v)(i, j);
    assert(node >= 1) by (nonlinear_arith)
        requires
            node == 1 + (i * g.cols + j) * g.bb,
            0 <= i,
            0 <= j < g.cols,
            g.bb >= 1,
    ;
    lemma_code_holds(v, node, g.bb);
    lemma_two_pow_30();
    lemma_two_pow_monotone(g.bb as nat, 30);
    let head = seq![LineSpec::Cell(i, j, node)] + down_lines(g, i, j) + right_lines(g, i, j);
    lemma_lines_split(v, head, restrict_lines(g, node));
    lemma_lines_split(v, seq![LineSpec::Cell(i, j, node)] + down_lines(g, i, j), right_lines(g, i, j));
    lemma_lines_split(v, seq![LineSpec::Cell(i, j, node)], down_lines(g, i, j));
    // the edge below
    if i < g.hr() {
        let bi = below(g, i);
        let rel = g.node_var(bi, j);
        let edge = g.hedge_var(i, j);
        assert(0 <= bi < g.rows);
        assert(rel >= 1) by (nonlinear_arith)
            requires
                rel == 1 + (bi * g.cols + j) * g.bb,
                0 <= bi,
                0 <= j < g.cols,
                g.bb >= 1,
        ;
        assert(edge >= 1) by (nonlinear_arith)
            requires
                edge == 1 + g.rows * g.cols * g.bb + (i * g.cols + j) * g.cb,
                0 <= i,
                0 <= j < g.cols,
                g.bb >= 1,
                g.cb >= 1,
                g.rows >= 1,
        ;
        let pl = pair_lines(g, rel, node, edge, 0);
        if i < g.rows - 1 {
            lemma_lines_split(v, seq![LineSpec::UpDown], pl);
        } else {
            lemma_lines_split(v, seq![LineSpec::WrapRows(node, i, j)], pl);
        }
        assert(g.blocks[0].len() == g.tiles() && g.blocks[1].len() == g.tiles());
        lemma_lines_split(
            v,
            rule_lines(rel, edge, g.blocks[0], 0, g.bb, g.cb, g.blocks[0].len() as int),
            rule_lines(node, edge, g.blocks[1], 1, g.bb, g.cb, g.blocks[1].len() as int),
        );
        lemma_edge_colour(v, node, edge, g.blocks[1], 1, g.bb, g.cb, tile);
        let low = model_tiles(g, v)(bi, j);
        lemma_code_holds(v, rel, g.bb);
        lemma_edge_colour(v, rel, edge, g.blocks[0], 0, g.bb, g.cb, low);
    }
    // the edge on the right
    if j < g.vr() {
        let rj = right_of(g, j);
        let rel = g.node_var(i, rj);
        let edge = g.vedge_var(i, j);
        assert(0 <= rj < g.cols);
        assert(rel >= 1) by (nonlinear_arith)
            requires
                rel == 1 + (i * g.cols + rj) * g.bb,
                0 <= i,
                0 <= rj < g.cols,
                g.bb >= 1,
        ;
        assert(edge >= 1) by (nonlinear_arith)
            requires
                edge == 1 + g.rows * g.cols * g.bb + g.hr() * g.cols * g.cb + (i * g.vr() + j) * g.cb,
                0 <= i < g.rows,
                0 <= j < g.vr(),
                g.bb >= 1,
                g.cb >= 1,
                g.hr() >= 0,
                g.cols >= 0,
        ;
        let pl = pair_lines(g, rel, node, edge, 2);
        if j < g.cols - 1 {
            lemma_lines_split(v, seq![LineSpec::LeftRight], pl);
        } else {
            lemma_lines_split(v, seq![LineSpec::WrapColumns(node, i, j)], pl);
        }
        assert(g.blocks[2].len() == g.tiles() && g.blocks[3].len() == g.tiles());
        lemma_lines_split(
            v,
            rule_lines(rel, edge, g.blocks[2], 2, g.bb, g.cb, g.blocks[2].len() as int),
            rule_lines(node, edge, g.blocks[3], 3, g.bb, g.cb, g.blocks[3].len() as int),
        );
        lemma_edge_colour(v, node, edge, g.blocks[3], 3, g.bb, g.cb, tile);
        let next = model_tiles(g, v)(i, rj);
        lemma_code_holds(v, rel, g.bb);
        lemma_edge_colour(v, rel, edge, g.blocks[2], 2, g.bb, g.cb, next);
    }
}

/// The cell's code is a tile, when the cell's lines hold.
proof fn lemma_cell_code_below(g: Grid, v: spec_fn(int) -> bool, i: int, j: int)
    requires
        1 <= g.bb <= 30,
        1 <= g.tiles() <= two_pow(g.bb as nat),
        0 <= i < g.rows,
        0 <= j < g.cols,
        lines_hold(v, cell_lines(g, i, j)),
    ensures
        0 <= model_tiles(g, v)(i, j) < g.tiles(),
{
    let node = g.node_var(i, j);
    let tile = model_tiles(g, v)(i, j);
    lemma_code_holds(v, node, g.bb);
    let head = seq![LineSpec::Cell(i, j, node)] + down_lines(g, i, j) + right_lines(g, i, j);
    lemma_lines_split(v, head, restrict_lines(g, node));
    if tile >= g.tiles() {
        let spare = Seq::new(
            (two_pow(g.bb as nat) - g.tiles()) as nat,
            |k: int| LineSpec::Clause(tile_lits(node, (g.tiles() + k) as u64, g.bb)),
        );
        lemma_lines_split(v, seq![LineSpec::Restrict], spare);
        let k = tile - g.tiles();
        assert(spare[k] == LineSpec::Clause(tile_lits(node, tile as u64, g.bb)));
        let cl = tile_lits(node, tile as u64, g.bb);
        let t = choose|t: int| 0 <= t < cl.len() && lit_holds(v, #[trigger] cl[t]);
        assert(v(node + t) == bit_at(tile as u64, t));
        assert(false);
    }
}

/// The models of the tiling CNF are tilings, when every colour fits in the bits of an edge:
/// under an assignment that satisfies every clause of the lines of
/// [`crate::wang::wang_cnf`], the codes in the cells name tiles, and neighbours show the same
/// colour on their shared edge. (When a colour does not fit, two colours that agree in the
/// edge's bits are not told apart.)
pub proof fn lemma_models_are_tilings(vv: i32, h: i32, blocks: Seq<Seq<u8>>, v: spec_fn(int) -> bool)
    requires
        wang_args_ok(vv, h, blocks),
        colours_fit(grid_of(vv, h, blocks)),
        lines_hold(v, grid_lines(grid_of(vv, h, blocks), grid_of(vv, h, blocks).rows)),
    ensures
        is_tiling(grid_of(vv, h, blocks), model_tiles(grid_of(vv, h, blocks), v)),
{
    let g = grid_of(vv, h, blocks);
    let t = model_tiles(g, v);
    lemma_grid_shape(vv, h, blocks);
    assert forall|i: int, j: int| 0 <= i < g.rows && 0 <= j < g.cols implies 0 <= #[trigger] t(i, j) < g.tiles() by {
        lemma_cell_of_grid(g, v, g.rows, i, j);
        lemma_cell_code_below(g, v, i, j);
    }
    assert forall|i: int, j: int| 0 <= i < g.hr() && 0 <= j < g.cols implies g.blocks[0][#[trigger] t(below(g, i), j)] == g.blocks[1][t(i, j)] by {
        lemma_cell_of_grid(g, v, g.rows, i, j);
        lemma_cell_model(g, v, i, j);
        let bi = below(g, i);
        assert(0 <= bi < g.rows);
        lemma_cell_of_grid(g, v, g.rows, bi, j);
        lemma_cell_code_below(g, v, bi, j);
        let x = g.blocks[0][t(bi, j)] as u64;
        let y = g.blocks[1][t(i, j)] as u64;
        assert forall|c: int| 0 <= c < g.cb implies #[trigger] bit_at(x, c) == bit_at(y, c) by {
            assert(v(g.hedge_var(i, j) + c) == bit_at(y, c));
            assert(v(g.hedge_var(i, j) + c) == bit_at(x, c));
        }
        lemma_low_bits(x, y, g.cb as nat);
        assert(g.blocks[0][t(bi, j)] < two_pow(g.cb as nat));
        assert(g.blocks[1][t(i, j)] < two_pow(g.cb as nat));
        vstd::arithmetic::div_mod::lemma_small_mod(x as nat, two_pow(g.cb as nat));
        vstd::arithmetic::div_mod::lemma_small_mod(y as nat, two_pow(g.cb as nat));
    }
    assert forall|i: int, j: int| 0 <= i < g.rows && 0 <= j < g.vr() implies g.blocks[2][#[trigger] t(i, right_of(g, j))] == g.blocks[3][t(i, j)] by {
        lemma_cell_of_grid(g, v, g.rows, i, j);
        lemma_cell_model(g, v, i, j);
        let rj = right_of(g, j);
        assert(0 <= rj < g.cols);
        lemma_cell_of_grid(g, v, g.rows, i, rj);
        lemma_cell_code_below(g, v, i, rj);
        let x = g.blocks[2][t(i, rj)] as u64;
        let y = g.blocks[3][t(i, j)] as u64;
        assert forall|c: int| 0 <= c < g.cb implies #[trigger] bit_at(x, c) == bit_at(y, c) by {
            assert(v(g.vedge_var(i, j) + c) == bit_at(y, c));
            assert(v(g.vedge_var(i, j) + c) == bit_at(x, c));
        }
        lemma_low_bits(x, y, g.cb as nat);
        assert(g.blocks[2][t(i, rj)] < two_pow(g.cb as nat));
        assert(g.blocks[3][t(i, j)] < two_pow(g.cb as nat));
        vstd::arithmetic::div_mod::lemma_small_mod(x as nat, two_pow(g.cb as nat));
        vstd::arithmetic::div_mod::lemma_small_mod(y as nat, two_pow(g.cb as nat));
    }
}

} // verus!
