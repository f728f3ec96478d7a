//! Wang tilings as a SAT problem in CNF. Each cell of a `rows` by `cols` grid holds a
//! tile, encoded in `bb` bits; each edge between two neighbouring cells holds a colour,
//! encoded in `cb` bits. The clauses say that the tile on each side of an edge shows the
//! edge's colour on that side, and forbid the codes that name no tile.
use vstd::prelude::*;
use vstd::arithmetic::div_mod::{lemma_fundamental_div_mod, lemma_fundamental_div_mod_converse};
use vstd::string::StringSliceAdditionalSpecFns;
use vstd::arithmetic::power2::{lemma_pow2_unfold, pow2};

verus! {

/// `2` to the power `n`.
pub open spec fn two_pow(n: nat) -> nat
    decreases n,
{
    if n == 0 {
        1
    } else {
        2 * two_pow((n - 1) as nat)
    }
}

/// [`two_pow`] is vstd's `pow2`.
pub(crate) proof fn lemma_two_pow_is_pow2(n: nat)
    ensures
        two_pow(n) == pow2(n),
    decreases n,
{
    if n == 0 {
        reveal(vstd::arithmetic::power::pow);
        assert(pow2(0) == 1) by {
            reveal(vstd::arithmetic::power::pow);
        }
    } else {
        lemma_two_pow_is_pow2((n - 1) as nat);
        lemma_pow2_unfold(n);
    }
}

/// The number of bits of `x`, at least one: `ilog2(max(x, 1)) + 1`.
pub open spec fn bit_len(x: nat) -> nat
    decreases x,
{
    if x <= 1 {
        1
    } else {
        1 + bit_len(x / 2)
    }
}

/// Bit `i` of `n` is set.
pub open spec fn bit_set(n: u64, i: u64) -> bool {
    (n >> i) & 1u64 == 1u64
}

/// What a line of the tiling CNF says; the literals of a clause as integers.
pub ghost enum LineSpec {
    Cell(int, int, int),
    UpDown,
    WrapRows(int, int, int),
    LeftRight,
    WrapColumns(int, int, int),
    Rule(int, int, int),
    Restrict,
    Clause(Seq<int>),
}

/// A line of the tiling CNF: a comment that tells where the clauses after it come from,
/// or a clause.
#[derive(Debug)]
pub enum WangLine {
    /// The clauses of cell `(i, j)`, whose tile variables start at the given number.
    Cell(usize, usize, i32),
    /// The edge to the cell below.
    UpDown,
    /// The edge from the last row to the first, for the cell with these tile variables
    /// at `(i, j)`.
    WrapRows(i32, usize, usize),
    /// The edge to the cell on the right.
    LeftRight,
    /// The edge from the last column to the first, for the cell with these tile
    /// variables at `(i, j)`.
    WrapColumns(i32, usize, usize),
    /// The clauses of tile `n` of the side list `bidx`, whose colour there is the given one.
    Rule(usize, u8, usize),
    /// The codes that name no tile.
    Restrict,
    /// A clause.
    Clause(Vec<i32>),
}

impl View for WangLine {
    type V = LineSpec;

    open spec fn view(&self) -> LineSpec {
        match self {
            WangLine::Cell(i, j, n) => LineSpec::Cell(*i as int, *j as int, *n as int),
            WangLine::UpDown => LineSpec::UpDown,
            WangLine::WrapRows(n, i, j) => LineSpec::WrapRows(*n as int, *i as int, *j as int),
            WangLine::LeftRight => LineSpec::LeftRight,
            WangLine::WrapColumns(n, i, j) => LineSpec::WrapColumns(*n as int, *i as int, *j as int),
            WangLine::Rule(n, c, b) => LineSpec::Rule(*n as int, *c as int, *b as int),
            WangLine::Restrict => LineSpec::Restrict,
            WangLine::Clause(c) => LineSpec::Clause(ints(c@)),
        }
    }
}

/// The integers of `s`.
pub open spec fn ints(s: Seq<i32>) -> Seq<int> {
    s.map_values(|x: i32| x as int)
}

/// The lines, each by what it says.
pub open spec fn lines_view(s: Seq<WangLine>) -> Seq<LineSpec> {
    s.map_values(|l: WangLine| l@)
}

/// The shape of a tiling problem: the grid, whether its rows and its columns wrap around,
/// the bits per tile and per colour, and the four side lists (top, bottom, left, right)
/// that give each tile's colour on that side.
pub ghost struct Grid {
    pub rows: int,
    pub cols: int,
    pub wrap_rows: bool,
    pub wrap_cols: bool,
    pub bb: int,
    pub cb: int,
    pub blocks: Seq<Seq<u8>>,
}

impl Grid {
    /// The rows that have an edge to a next row.
    pub open spec fn hr(self) -> int {
        if self.wrap_rows { self.rows } else { self.rows - 1 }
    }

    /// The columns that have an edge to a next column.
    pub open spec fn vr(self) -> int {
        if self.wrap_cols { self.cols } else { self.cols - 1 }
    }

    /// The number of tiles.
    pub open spec fn tiles(self) -> int {
        self.blocks[0].len() as int
    }

    /// The first tile variable of cell `(i, j)`.
    pub open spec fn node_var(self, i: int, j: int) -> int {
        1 + (i * self.cols + j) * self.bb
    }

    /// The first colour variable of the edge below cell `(i, j)`.
    pub open spec fn hedge_var(self, i: int, j: int) -> int {
        1 + self.rows * self.cols * self.bb + (i * self.cols + j) * self.cb
    }

    /// The first colour variable of the edge right of cell `(i, j)`.
    pub open spec fn vedge_var(self, i: int, j: int) -> int {
        1 + self.rows * self.cols * self.bb + self.hr() * self.cols * self.cb + (i * self.vr() + j)
            * self.cb
    }

    /// The number of variables plus one.
    pub open spec fn vars(self) -> int {
        1 + self.rows * self.cols * self.bb + self.hr() * self.cols * self.cb + self.rows * self.vr()
            * self.cb
    }

    /// The number of clauses.
    pub open spec fn clause_total(self) -> int {
        2 * (self.hr() * self.cols + self.rows * self.vr()) * self.tiles() * self.cb + self.rows
            * self.cols * (two_pow(self.bb as nat) - self.tiles())
    }
}

/// The literals that say a cell whose tile variables start at `node` holds tile `n`:
/// variable `node + i` is false where bit `i` of `n` is set.
pub open spec fn tile_lits(node: int, n: u64, bb: int) -> Seq<int> {
    Seq::new(bb as nat, |i: int| if bit_set(n, i as u64) { -(node + i) } else { node + i })
}

/// The literal that says bit `c` of the edge colour is that of `color`.
pub open spec fn edge_lit(edge: int, c: int, color: u8) -> int {
    if bit_set(color as u64, c as u64) { edge + c } else { -(edge + c) }
}

/// For the first `n` tiles of side list `rule`: a comment, then the clauses saying that
/// the cell at `node` holding the tile gives the edge at `edge` the tile's colour.
pub open spec fn rule_lines(node: int, edge: int, rule: Seq<u8>, bidx: int, bb: int, cb: int, n: int) -> Seq<LineSpec>
    decreases n,
{
    if n <= 0 {
        Seq::empty()
    } else {
        rule_lines(node, edge, rule, bidx, bb, cb, n - 1) + seq![LineSpec::Rule(n - 1, rule[n - 1] as int, bidx)]
            + Seq::new(cb as nat, |c: int| LineSpec::Clause(tile_lits(node, (n - 1) as u64, bb).push(edge_lit(edge, c, rule[n - 1]))))
    }
}

/// The clauses of an edge between the cell at `rel` and the cell at `cur`: those of side
/// list `bidx` for `rel`, then those of side list `bidx + 1` for `cur`.
pub open spec fn pair_lines(g: Grid, rel: int, cur: int, edge: int, bidx: int) -> Seq<LineSpec> {
    rule_lines(rel, edge, g.blocks[bidx], bidx, g.bb, g.cb, g.blocks[bidx].len() as int) + rule_lines(
        cur,
        edge,
        g.blocks[bidx + 1],
        bidx + 1,
        g.bb,
        g.cb,
        g.blocks[bidx + 1].len() as int,
    )
}

/// The lines of the edge below cell `(i, j)`, if it has one.
pub open spec fn down_lines(g: Grid, i: int, j: int) -> Seq<LineSpec> {
    if i < g.rows - 1 {
        seq![LineSpec::UpDown] + pair_lines(g, g.node_var(i + 1, j), g.node_var(i, j), g.hedge_var(i, j), 0)
    } else if g.wrap_rows {
        seq![LineSpec::WrapRows(g.node_var(i, j), i, j)] + pair_lines(g, g.node_var(0, j), g.node_var(i, j), g.hedge_var(i, j), 0)
    } else {
        Seq::empty()
    }
}

/// The lines of the edge right of cell `(i, j)`, if it has one.
pub open spec fn right_lines(g: Grid, i: int, j: int) -> Seq<LineSpec> {
    if j < g.cols - 1 {
        seq![LineSpec::LeftRight] + pair_lines(g, g.node_var(i, j + 1), g.node_var(i, j), g.vedge_var(i, j), 2)
    } else if g.wrap_cols {
        seq![LineSpec::WrapColumns(g.node_var(i, j), i, j)] + pair_lines(g, g.node_var(i, 0), g.node_var(i, j), g.vedge_var(i, j), 2)
    } else {
        Seq::empty()
    }
}

/// The clauses that forbid the codes from the number of tiles up to `2^bb` at `node`.
pub open spec fn restrict_lines(g: Grid, node: int) -> Seq<LineSpec> {
    seq![LineSpec::Restrict] + Seq::new(
        (two_pow(g.bb as nat) - g.tiles()) as nat,
        |t: int| LineSpec::Clause(tile_lits(node, (g.tiles() + t) as u64, g.bb)),
    )
}

/// The lines of cell `(i, j)`.
pub open spec fn cell_lines(g: Grid, i: int, j: int) -> Seq<LineSpec> {
    seq![LineSpec::Cell(i, j, g.node_var(i, j))] + down_lines(g, i, j) + right_lines(g, i, j)
        + restrict_lines(g, g.node_var(i, j))
}

/// The lines of the first `j` cells of row `i`.
pub open spec fn row_lines(g: Grid, i: int, j: int) -> Seq<LineSpec>
    decreases j,
{
    if j <= 0 {
        Seq::empty()
    } else {
        row_lines(g, i, j - 1) + cell_lines(g, i, j - 1)
    }
}

/// The lines of the first `i` rows.
pub open spec fn grid_lines(g: Grid, i: int) -> Seq<LineSpec>
    decreases i,
{
    if i <= 0 {
        Seq::empty()
    } else {
        grid_lines(g, i - 1) + row_lines(g, i - 1, g.cols)
    }
}

/// The number of clauses among the lines.
pub open spec fn clause_count(s: Seq<LineSpec>) -> int
    decreases s.len(),
{
    if s.len() == 0 {
        0
    } else {
        clause_count(s.drop_last()) + (if s.last() is Clause { 1int } else { 0int })
    }
}

/// The CNF of a tiling problem: the variable numbers, their count plus one, the number of
/// clauses, and the lines.
pub struct WangCnf {
    /// The first tile variable of each cell.
    pub nodes: Vec<Vec<i32>>,
    /// The first colour variable of the edge below each cell that has one.
    pub h_edges: Vec<Vec<i32>>,
    /// The first colour variable of the edge right of each cell that has one.
    pub v_edges: Vec<Vec<i32>>,
    /// The number of variables plus one.
    pub vars: i32,
    /// The number of clauses.
    pub clauses: i32,
    /// The comments and clauses, in order.
    pub lines: Vec<WangLine>,
}

proof fn lemma_lines_push(s: Seq<WangLine>, x: WangLine)
    ensures
        lines_view(s.push(x)) == lines_view(s).push(x@),
{
    assert(lines_view(s.push(x)) =~= lines_view(s).push(x@));
}

/// The number of bits of `x`, at least one.
fn bits_for(x: u64) -> (r: u32)
    ensures
        r == bit_len(x as nat),
        1 <= r <= 64,
{
    let mut y = x;
    let mut b: u32 = 1;
    proof {
        assert(two_pow(0) == 1);
        assert(y * two_pow(0) == y);
    }
    while y > 1
        invariant
            1 <= b <= 64,
            b + bit_len(y as nat) - 1 == bit_len(x as nat),
            y <= x,
            y * two_pow((b - 1) as nat) <= x,
        decreases y,
    {
        proof {
            lemma_two_pow_monotone((b - 1) as nat, 63);
            lemma_two_pow_63();
            assert(b < 64) by (nonlinear_arith)
                requires
                    y > 1,
                    y * two_pow((b - 1) as nat) <= x,
                    x <= u64::MAX,
                    b >= 1,
                    b >= 64 ==> two_pow((b - 1) as nat) >= two_pow(63),
                    two_pow(63) == 0x8000_0000_0000_0000int,
            ;
            assert(two_pow(b as nat) == 2 * two_pow((b - 1) as nat));
            assert((y / 2) * two_pow(b as nat) <= x) by (nonlinear_arith)
                requires
                    y * two_pow((b - 1) as nat) <= x,
                    two_pow(b as nat) == 2 * two_pow((b - 1) as nat),
            ;
        }
        y = y / 2;
        b = b + 1;
    }
    b
}

pub(crate) proof fn lemma_two_pow_monotone(a: nat, b: nat)
    requires
        a <= b,
    ensures
        two_pow(a) <= two_pow(b),
        two_pow(a) >= 1,
    decreases b,
{
    if a < b {
        lemma_two_pow_monotone(a, (b - 1) as nat);
    } else if a > 0 {
        lemma_two_pow_monotone((a - 1) as nat, (a - 1) as nat);
    }
}

proof fn lemma_two_pow_63()
    ensures
        two_pow(63) == 0x8000_0000_0000_0000int,
{
    reveal_with_fuel(two_pow, 64);
}

/// `2` to the power `n`.
fn pow_two(n: u32) -> (r: u64)
    requires
        n < 64,
    ensures
        r == two_pow(n as nat),
{
    let mut r: u64 = 1;
    let mut i: u32 = 0;
    while i < n
        invariant
            0 <= i <= n < 64,
            r == two_pow(i as nat),
        decreases n - i,
    {
        proof {
            lemma_two_pow_monotone((i + 1) as nat, 63);
            lemma_two_pow_63();
        }
        r = r * 2;
        i += 1;
    }
    r
}

/// Whether bit `i` of `n` is set.
fn test_bit(n: u64, i: u32) -> (r: bool)
    requires
        i < 64,
    ensures
        r == bit_set(n, i as u64),
{
    (n >> i as u64) & 1u64 == 1u64
}

/// The literals that say the cell at `node` holds tile `n`.
fn tile_literals(node: i32, n: u64, bb: u32) -> (r: Vec<i32>)
    requires
        1 <= node,
        node + bb <= i32::MAX,
        bb < 64,
    ensures
        ints(r@) == tile_lits(node as int, n, bb as int),
{
    let mut r: Vec<i32> = Vec::new();
    let mut i: u32 = 0;
    while i < bb
        invariant
            1 <= node,
            node + bb <= i32::MAX,
            bb < 64,
            0 <= i <= bb,
            r.len() == i,
            ints(r@) == tile_lits(node as int, n, i as int),
        decreases bb - i,
    {
        let v = node + i as i32;
        let lit = if test_bit(n, i) { -v } else { v };
        let ghost before = r@;
        r.push(lit);
        proof {
            assert forall|k: int| 0 <= k < i + 1 implies #[trigger] ints(r@)[k] == tile_lits(node as int, n, (i + 1) as int)[k] by {
                if k < i {
                    assert(ints(before)[k] == tile_lits(node as int, n, i as int)[k]);
                }
            }
            assert(ints(r@) =~= tile_lits(node as int, n, (i + 1) as int));
        }
        i += 1;
    }
    r
}

/// Appends the lines of [`rule_lines`] for all the tiles of `rule`.
fn push_rule_lines(out: &mut Vec<WangLine>, node: i32, edge: i32, rule: &[u8], bidx: usize, bb: u32, cb: u32)
    requires
        1 <= node,
        node + bb <= i32::MAX,
        1 <= edge,
        edge + cb <= i32::MAX,
        bb < 64,
        cb < 64,
    ensures
        lines_view(final(out)@) == lines_view(old(out)@) + rule_lines(
            node as int,
            edge as int,
            rule@,
            bidx as int,
            bb as int,
            cb as int,
            rule@.len() as int,
        ),
{
    let ghost start = lines_view(out@);
    let mut n: usize = 0;
    while n < rule.len()
        invariant
            1 <= node,
            node + bb <= i32::MAX,
            1 <= edge,
            edge + cb <= i32::MAX,
            bb < 64,
            cb < 64,
            0 <= n <= rule.len(),
            lines_view(out@) == start + rule_lines(node as int, edge as int, rule@, bidx as int, bb as int, cb as int, n as int),
        decreases rule.len() - n,
    {
        let color = rule[n];
        proof {
            lemma_lines_push(out@, WangLine::Rule(n, color, bidx));
        }
        out.push(WangLine::Rule(n, color, bidx));
        let ghost mid = lines_view(out@);
        let mut c: u32 = 0;
        while c < cb
            invariant
                1 <= node,
                node + bb <= i32::MAX,
                1 <= edge,
                edge + cb <= i32::MAX,
                bb < 64,
                cb < 64,
                0 <= c <= cb,
                n < rule.len(),
                color == rule@[n as int],
                lines_view(out@) == mid + Seq::new(c as nat, |k: int| LineSpec::Clause(tile_lits(node as int, n as u64, bb as int).push(edge_lit(edge as int, k, color)))),
            decreases cb - c,
        {
            let mut clause = tile_literals(node, n as u64, bb);
            let e = edge + c as i32;
            let lit = if test_bit(color as u64, c) { e } else { -e };
            let ghost lits = clause@;
            clause.push(lit);
            proof {
                assert(ints(clause@) =~= ints(lits).push(lit as int));
                assert(edge_lit(edge as int, c as int, color) == lit as int);
                lemma_lines_push(out@, WangLine::Clause(clause));
            }
            out.push(WangLine::Clause(clause));
            proof {
                assert(lines_view(out@) =~= mid + Seq::new((c + 1) as nat, |k: int| LineSpec::Clause(tile_lits(node as int, n as u64, bb as int).push(edge_lit(edge as int, k, color)))));
            }
            c += 1;
        }
        proof {
            assert(lines_view(out@) =~= start + rule_lines(node as int, edge as int, rule@, bidx as int, bb as int, cb as int, (n + 1) as int));
        }
        n += 1;
    }
}

/// The largest entry of `s`, or `0`.
pub open spec fn seq_max(s: Seq<u8>) -> int
    decreases s.len(),
{
    if s.len() == 0 {
        0
    } else if seq_max(s.drop_last()) < s.last() {
        s.last() as int
    } else {
        seq_max(s.drop_last())
    }
}

/// The four side lists.
pub open spec fn sides(blocks: [&[u8]; 4]) -> Seq<Seq<u8>> {
    seq![blocks@[0]@, blocks@[1]@, blocks@[2]@, blocks@[3]@]
}

/// The largest colour of the side lists.
pub open spec fn max_color(b: Seq<Seq<u8>>) -> int {
    let m01 = if seq_max(b[0]) < seq_max(b[1]) { seq_max(b[1]) } else { seq_max(b[0]) };
    let m23 = if seq_max(b[2]) < seq_max(b[3]) { seq_max(b[3]) } else { seq_max(b[2]) };
    if m01 < m23 { m23 } else { m01 }
}

/// The shape of the problem of [`wang_cnf`]: `|h|` rows and `|v|` columns, the rows wrapping
/// around when `v < 0` and the columns when `h < 0`; enough bits per tile for the codes
/// `0..len - 1`, and per colour for `0..color - 1`, `color` the largest colour.
pub open spec fn grid_of(v: i32, h: i32, blocks: Seq<Seq<u8>>) -> Grid {
    let color = max_color(blocks);
    let len = blocks[0].len() as int;
    Grid {
        rows: if h < 0 { -h } else { h as int },
        cols: if v < 0 { -v } else { v as int },
        wrap_rows: v < 0,
        wrap_cols: h < 0,
        bb: bit_len((if len - 1 > 1 { len - 1 } else { 1 }) as nat) as int,
        cb: bit_len((if color - 1 > 1 { color - 1 } else { 1 }) as nat) as int,
        blocks,
    }
}

/// The inputs on which [`wang_cnf`] works: a grid of at least one row, with at least one
/// row of vertical edges and no negative count of horizontal edges, side lists of one
/// length from `1` to `2^30`, and variable and clause counts that fit in `i32`.
pub open spec fn wang_args_ok(v: i32, h: i32, blocks: Seq<Seq<u8>>) -> bool {
    let g = grid_of(v, h, blocks);
    &&& v != i32::MIN
    &&& h != i32::MIN
    &&& blocks.len() == 4
    &&& g.rows >= 1
    &&& g.hr() >= 1
    &&& g.vr() >= 0
    &&& 1 <= blocks[0].len() <= 0x4000_0000
    &&& blocks[1].len() == blocks[0].len()
    &&& blocks[2].len() == blocks[0].len()
    &&& blocks[3].len() == blocks[0].len()
    &&& g.vars() <= i32::MAX
    &&& g.clause_total() <= i32::MAX
}

proof fn lemma_seq_max_bound(s: Seq<u8>)
    ensures
        0 <= seq_max(s) <= 255,
        forall|k: int| 0 <= k < s.len() ==> s[k] <= seq_max(s),
    decreases s.len(),
{
    if s.len() > 0 {
        lemma_seq_max_bound(s.drop_last());
        assert forall|k: int| 0 <= k < s.len() implies s[k] <= seq_max(s) by {
            if k < s.len() - 1 {
                assert(s.drop_last()[k] == s[k]);
            }
        }
    }
}

/// The largest colour of the lists is a `u8`.
pub(crate) proof fn lemma_max_color_bound(b: Seq<Seq<u8>>)
    requires
        b.len() == 4,
    ensures
        0 <= max_color(b) <= 255,
{
    lemma_seq_max_bound(b[0]);
    lemma_seq_max_bound(b[1]);
    lemma_seq_max_bound(b[2]);
    lemma_seq_max_bound(b[3]);
}

/// The largest entry of `s`, or `0`.
fn slice_max(s: &[u8]) -> (r: u8)
    ensures
        r == seq_max(s@),
{
    let mut m: u8 = 0;
    let mut i: usize = 0;
    while i < s.len()
        invariant
            0 <= i <= s.len(),
            m == seq_max(s@.subrange(0, i as int)),
        decreases s.len() - i,
    {
        proof {
            assert(s@.subrange(0, i + 1).drop_last() =~= s@.subrange(0, i as int));
        }
        if m < s[i] {
            m = s[i];
        }
        i += 1;
    }
    proof {
        assert(s@.subrange(0, s.len() as int) =~= s@);
    }
    m
}

proof fn lemma_cell_index(i: int, j: int, rows: int, cols: int, b: int)
    requires
        0 <= i < rows,
        0 <= j < cols,
        b >= 0,
    ensures
        0 <= (i * cols + j) * b,
        (i * cols + j + 1) * b == (i * cols + j) * b + b,
        (i * cols + j + 1) * b <= rows * cols * b,
        i * cols + j + 1 <= rows * cols,
        ((i + 1) * cols + 0) * b == (i * cols + cols) * b,
{
    assert(i * cols + j + 1 <= rows * cols) by (nonlinear_arith)
        requires
            0 <= i < rows,
            0 <= j < cols,
    ;
    assert(0 <= (i * cols + j) * b) by (nonlinear_arith)
        requires
            0 <= i,
            0 <= j,
            0 <= cols,
            b >= 0,
    ;
    assert((i * cols + j + 1) * b == (i * cols + j) * b + b) by (nonlinear_arith);
    assert((i * cols + j + 1) * b <= rows * cols * b) by (nonlinear_arith)
        requires
            i * cols + j + 1 <= rows * cols,
            b >= 0,
    ;
    assert(((i + 1) * cols + 0) * b == (i * cols + cols) * b) by (nonlinear_arith);
}

/// Numbers `count` rows of `width` blocks of `step` variables each, from `first` on.
fn number_grid(first: i32, count: usize, width: usize, step: u32, Ghost(limit): Ghost<int>) -> (r: Vec<Vec<i32>>)
    requires
        first >= 1,
        step >= 0,
        first + count * width * step <= limit <= i32::MAX,
    ensures
        r.len() == count,
        forall|i: int| 0 <= i < count ==> (#[trigger] r@[i])@.len() == width,
        forall|i: int, j: int|
            0 <= i < count && 0 <= j < width ==> #[trigger] r@[i]@[j] == first + (i * width + j) * step,
{
    let mut r: Vec<Vec<i32>> = Vec::new();
    let mut t: i32 = first;
    let mut i: usize = 0;
    proof {
        assert(0 * width + 0 == 0);
    }
    while i < count
        invariant
            first >= 1,
            first + count * width * step <= limit <= i32::MAX,
            0 <= i <= count,
            r.len() == i,
            t == first + (i * width) * step,
            forall|a: int| 0 <= a < i ==> (#[trigger] r@[a])@.len() == width,
            forall|a: int, j: int|
                0 <= a < i && 0 <= j < width ==> #[trigger] r@[a]@[j] == first + (a * width + j) * step,
        decreases count - i,
    {
        let mut row: Vec<i32> = Vec::new();
        let mut j: usize = 0;
        while j < width
            invariant
                first >= 1,
                first + count * width * step <= limit <= i32::MAX,
                0 <= i < count,
                0 <= j <= width,
                row.len() == j,
                t == first + (i * width + j) * step,
                forall|c: int| 0 <= c < j ==> row@[c] == first + (i * width + c) * step,
            decreases width - j,
        {
            proof {
                lemma_cell_index(i as int, j as int, count as int, width as int, step as int);
            }
            row.push(t);
            t = t + step as i32;
            j += 1;
        }
        proof {
            assert((i * width + width) * step == ((i + 1) * width) * step) by (nonlinear_arith);
        }
        r.push(row);
        i += 1;
    }
    r
}

pub(crate) proof fn lemma_bit_len_bound(x: nat, k: nat)
    requires
        1 <= x < two_pow(k),
        k >= 1,
    ensures
        1 <= bit_len(x) <= k,
        x < two_pow(bit_len(x)),
    decreases x,
{
    if x > 1 {
        assert(two_pow(k) == 2 * two_pow((k - 1) as nat));
        if k == 1 {
            assert(false);
        }
        lemma_bit_len_bound(x / 2, (k - 1) as nat);
        assert(two_pow(bit_len(x)) == 2 * two_pow(bit_len(x / 2)));
    } else {
        reveal_with_fuel(two_pow, 2);
    }
}

proof fn lemma_le_mul(a: int, b: int)
    requires
        a >= 0,
        b >= 1,
    ensures
        a <= a * b,
{
    assert(a <= a * b) by (nonlinear_arith)
        requires
            a >= 0,
            b >= 1,
    ;
}

pub(crate) proof fn lemma_two_pow_30()
    ensures
        two_pow(30) == 0x4000_0000,
{
    reveal_with_fuel(two_pow, 31);
}

/// The variable numbers of the cells and edges of `g`, as laid out by [`wang_cnf`].
pub open spec fn numbered(nodes: Seq<Vec<i32>>, h_edges: Seq<Vec<i32>>, v_edges: Seq<Vec<i32>>, g: Grid) -> bool {
    &&& nodes.len() == g.rows
    &&& forall|i: int| 0 <= i < g.rows ==> (#[trigger] nodes[i])@.len() == g.cols
    &&& forall|i: int, j: int| 0 <= i < g.rows && 0 <= j < g.cols ==> #[trigger] nodes[i]@[j] == g.node_var(i, j)
    &&& h_edges.len() == g.hr()
    &&& forall|i: int| 0 <= i < g.hr() ==> (#[trigger] h_edges[i])@.len() == g.cols
    &&& forall|i: int, j: int| 0 <= i < g.hr() && 0 <= j < g.cols ==> #[trigger] h_edges[i]@[j] == g.hedge_var(i, j)
    &&& v_edges.len() == g.rows
    &&& forall|i: int| 0 <= i < g.rows ==> (#[trigger] v_edges[i])@.len() == g.vr()
    &&& forall|i: int, j: int| 0 <= i < g.rows && 0 <= j < g.vr() ==> #[trigger] v_edges[i]@[j] == g.vedge_var(i, j)
}

proof fn lemma_var_bounds(g: Grid, i: int, j: int)
    requires
        g.rows >= 1,
        g.cols >= 1,
        g.hr() >= 0,
        g.vr() >= 0,
        g.bb >= 1,
        g.cb >= 1,
        g.vars() <= i32::MAX,
        0 <= i < g.rows,
        0 <= j < g.cols,
    ensures
        1 <= g.node_var(i, j),
        g.node_var(i, j) + g.bb <= g.vars(),
        i < g.hr() ==> 1 <= g.hedge_var(i, j) && g.hedge_var(i, j) + g.cb <= g.vars(),
        j < g.vr() ==> 1 <= g.vedge_var(i, j) && g.vedge_var(i, j) + g.cb <= g.vars(),
{
    let rows = g.rows;
    let cols = g.cols;
    lemma_cell_index(i, j, rows, cols, g.bb);
    assert(0 <= g.hr() * cols * g.cb) by (nonlinear_arith)
        requires
            g.hr() >= 0,
            cols >= 0,
            g.cb >= 0,
    ;
    assert(0 <= rows * g.vr() * g.cb) by (nonlinear_arith)
        requires
            rows >= 0,
            g.vr() >= 0,
            g.cb >= 0,
    ;
    if i < g.hr() {
        lemma_cell_index(i, j, g.hr(), cols, g.cb);
    }
    if j < g.vr() {
        lemma_cell_index(i, j, rows, g.vr(), g.cb);
    }
}

proof fn lemma_count_add(a: Seq<LineSpec>, b: Seq<LineSpec>)
    ensures
        clause_count(a + b) == clause_count(a) + clause_count(b),
    decreases b.len(),
{
    if b.len() > 0 {
        lemma_count_add(a, b.drop_last());
        assert((a + b).drop_last() =~= a + b.drop_last());
    } else {
        assert(a + b =~= a);
    }
}

proof fn lemma_count_one(x: LineSpec)
    ensures
        clause_count(seq![x]) == (if x is Clause { 1int } else { 0int }),
{
    reveal_with_fuel(clause_count, 2);
    assert(seq![x].drop_last() =~= Seq::<LineSpec>::empty());
}

proof fn lemma_count_clauses(n: nat, f: spec_fn(int) -> Seq<int>)
    ensures
        clause_count(Seq::new(n, |k: int| LineSpec::Clause(f(k)))) == n,
    decreases n,
{
    if n > 0 {
        lemma_count_clauses((n - 1) as nat, f);
        assert(Seq::new(n, |k: int| LineSpec::Clause(f(k))).drop_last() =~= Seq::new((n - 1) as nat, |k: int| LineSpec::Clause(f(k))));
    }
}

proof fn lemma_count_rule(node: int, edge: int, rule: Seq<u8>, bidx: int, bb: int, cb: int, n: int)
    requires
        cb >= 0,
        n >= 0,
    ensures
        clause_count(rule_lines(node, edge, rule, bidx, bb, cb, n)) == n * cb,
    decreases n,
{
    if n > 0 {
        lemma_count_rule(node, edge, rule, bidx, bb, cb, n - 1);
        let head = rule_lines(node, edge, rule, bidx, bb, cb, n - 1) + seq![LineSpec::Rule(n - 1, rule[n - 1] as int, bidx)];
        let f = |c: int| tile_lits(node, (n - 1) as u64, bb).push(edge_lit(edge, c, rule[n - 1]));
        lemma_count_add(rule_lines(node, edge, rule, bidx, bb, cb, n - 1), seq![LineSpec::Rule(n - 1, rule[n - 1] as int, bidx)]);
        lemma_count_one(LineSpec::Rule(n - 1, rule[n - 1] as int, bidx));
        lemma_count_clauses(cb as nat, f);
        assert(Seq::new(cb as nat, |c: int| LineSpec::Clause(tile_lits(node, (n - 1) as u64, bb).push(edge_lit(edge, c, rule[n - 1]))))
            =~= Seq::new(cb as nat, |c: int| LineSpec::Clause(f(c))));
        lemma_count_add(head, Seq::new(cb as nat, |c: int| LineSpec::Clause(f(c))));
        assert(rule_lines(node, edge, rule, bidx, bb, cb, n) == head + Seq::new(cb as nat, |c: int| LineSpec::Clause(f(c))));
        assert(clause_count(head) == (n - 1) * cb);
        assert((n - 1) * cb + cb == n * cb) by (nonlinear_arith);
    } else {
        assert(n * cb == 0) by (nonlinear_arith)
            requires
                n == 0,
        ;
        assert(clause_count(rule_lines(node, edge, rule, bidx, bb, cb, n)) == 0);
    }
}

/// The number of clauses of one edge: twice the tiles times the colour bits.
pub open spec fn edge_clauses(g: Grid) -> int {
    2 * g.tiles() * g.cb
}

proof fn lemma_count_pair(g: Grid, rel: int, cur: int, edge: int, bidx: int)
    requires
        g.blocks.len() == 4,
        bidx == 0 || bidx == 2,
        g.blocks[bidx].len() == g.tiles(),
        g.blocks[bidx + 1].len() == g.tiles(),
        g.cb >= 0,
    ensures
        clause_count(pair_lines(g, rel, cur, edge, bidx)) == edge_clauses(g),
{
    lemma_count_rule(rel, edge, g.blocks[bidx], bidx, g.bb, g.cb, g.tiles());
    lemma_count_rule(cur, edge, g.blocks[bidx + 1], bidx + 1, g.bb, g.cb, g.tiles());
    lemma_count_add(
        rule_lines(rel, edge, g.blocks[bidx], bidx, g.bb, g.cb, g.tiles()),
        rule_lines(cur, edge, g.blocks[bidx + 1], bidx + 1, g.bb, g.cb, g.tiles()),
    );
    assert(g.tiles() * g.cb + g.tiles() * g.cb == 2 * g.tiles() * g.cb) by (nonlinear_arith);
}

/// What [`wang_cnf`] asks of the side lists: four of one length.
pub open spec fn even_sides(g: Grid) -> bool {
    &&& g.blocks.len() == 4
    &&& g.blocks[1].len() == g.tiles()
    &&& g.blocks[2].len() == g.tiles()
    &&& g.blocks[3].len() == g.tiles()
    &&& g.cb >= 0
    &&& g.tiles() <= two_pow(g.bb as nat)
}

proof fn lemma_count_cell(g: Grid, i: int, j: int)
    requires
        even_sides(g),
        0 <= i < g.rows,
        0 <= j < g.cols,
    ensures
        clause_count(cell_lines(g, i, j)) == (if i < g.hr() { edge_clauses(g) } else { 0 }) + (if j < g.vr() {
            edge_clauses(g)
        } else {
            0
        }) + (two_pow(g.bb as nat) - g.tiles()),
{
    let c0 = seq![LineSpec::Cell(i, j, g.node_var(i, j))];
    let d = down_lines(g, i, j);
    let r = right_lines(g, i, j);
    let x = restrict_lines(g, g.node_var(i, j));
    lemma_count_one(LineSpec::Cell(i, j, g.node_var(i, j)));
    lemma_count_add(c0, d);
    lemma_count_add(c0 + d, r);
    lemma_count_add(c0 + d + r, x);
    if i < g.rows - 1 {
        lemma_count_one(LineSpec::UpDown);
        lemma_count_pair(g, g.node_var(i + 1, j), g.node_var(i, j), g.hedge_var(i, j), 0);
        lemma_count_add(seq![LineSpec::UpDown], pair_lines(g, g.node_var(i + 1, j), g.node_var(i, j), g.hedge_var(i, j), 0));
    } else if g.wrap_rows {
        lemma_count_one(LineSpec::WrapRows(g.node_var(i, j), i, j));
        lemma_count_pair(g, g.node_var(0, j), g.node_var(i, j), g.hedge_var(i, j), 0);
        lemma_count_add(seq![LineSpec::WrapRows(g.node_var(i, j), i, j)], pair_lines(g, g.node_var(0, j), g.node_var(i, j), g.hedge_var(i, j), 0));
    } else {
        assert(clause_count(d) == 0);
    }
    if j < g.cols - 1 {
        lemma_count_one(LineSpec::LeftRight);
        lemma_count_pair(g, g.node_var(i, j + 1), g.node_var(i, j), g.vedge_var(i, j), 2);
        lemma_count_add(seq![LineSpec::LeftRight], pair_lines(g, g.node_var(i, j + 1), g.node_var(i, j), g.vedge_var(i, j), 2));
    } else if g.wrap_cols {
        lemma_count_one(LineSpec::WrapColumns(g.node_var(i, j), i, j));
        lemma_count_pair(g, g.node_var(i, 0), g.node_var(i, j), g.vedge_var(i, j), 2);
        lemma_count_add(seq![LineSpec::WrapColumns(g.node_var(i, j), i, j)], pair_lines(g, g.node_var(i, 0), g.node_var(i, j), g.vedge_var(i, j), 2));
    } else {
        assert(clause_count(r) == 0);
    }
    let n = (two_pow(g.bb as nat) - g.tiles()) as nat;
    let f = |t: int| tile_lits(g.node_var(i, j), (g.tiles() + t) as u64, g.bb);
    lemma_count_one(LineSpec::Restrict);
    lemma_count_clauses(n, f);
    assert(Seq::new(n, |t: int| LineSpec::Clause(tile_lits(g.node_var(i, j), (g.tiles() + t) as u64, g.bb)))
        =~= Seq::new(n, |t: int| LineSpec::Clause(f(t))));
    lemma_count_add(seq![LineSpec::Restrict], Seq::new(n, |t: int| LineSpec::Clause(f(t))));
}

proof fn lemma_count_row(g: Grid, i: int, j: int)
    requires
        even_sides(g),
        0 <= i < g.rows,
        0 <= j <= g.cols,
        0 <= g.vr() <= g.cols,
    ensures
        clause_count(row_lines(g, i, j)) == j * (two_pow(g.bb as nat) - g.tiles()) + (if i < g.hr() { j * edge_clauses(g) } else { 0 })
            + (if j <= g.vr() { j } else { g.vr() }) * edge_clauses(g),
    decreases j,
{
    if j > 0 {
        lemma_count_row(g, i, j - 1);
        lemma_count_cell(g, i, j - 1);
        lemma_count_add(row_lines(g, i, j - 1), cell_lines(g, i, j - 1));
        assert(row_lines(g, i, j) == row_lines(g, i, j - 1) + cell_lines(g, i, j - 1));
        let s = two_pow(g.bb as nat) - g.tiles();
        let d = edge_clauses(g);
        assert((j - 1) * s + s == j * s) by (nonlinear_arith);
        assert((j - 1) * d + d == j * d) by (nonlinear_arith);
        let mp = if j - 1 <= g.vr() { j - 1 } else { g.vr() };
        let m = if j <= g.vr() { j } else { g.vr() };
        assert(m * d == mp * d + (if j - 1 < g.vr() { d } else { 0 })) by (nonlinear_arith)
            requires
                m == mp + (if j - 1 < g.vr() { 1int } else { 0int }),
        ;
    } else {
        assert(clause_count(row_lines(g, i, j)) == 0);
        assert(j * (two_pow(g.bb as nat) - g.tiles()) == 0 && j * edge_clauses(g) == 0) by (nonlinear_arith)
            requires
                j == 0,
        ;
    }
}

proof fn lemma_count_grid(g: Grid, r: int)
    requires
        even_sides(g),
        0 <= r <= g.rows,
        g.vr() <= g.cols,
        0 <= g.hr() <= g.rows,
        g.vr() >= 0,
    ensures
        clause_count(grid_lines(g, r)) == r * g.cols * (two_pow(g.bb as nat) - g.tiles()) + (if r <= g.hr() { r } else { g.hr() })
            * g.cols * edge_clauses(g) + r * g.vr() * edge_clauses(g),
    decreases r,
{
    if r > 0 {
        lemma_count_grid(g, r - 1);
        lemma_count_row(g, r - 1, g.cols);
        lemma_count_add(grid_lines(g, r - 1), row_lines(g, r - 1, g.cols));
        assert(grid_lines(g, r) == grid_lines(g, r - 1) + row_lines(g, r - 1, g.cols));
        let s = two_pow(g.bb as nat) - g.tiles();
        let d = edge_clauses(g);
        let c = g.cols;
        let v = g.vr();
        assert((r - 1) * c * s + c * s == r * c * s) by (nonlinear_arith);
        assert((r - 1) * v * d + v * d == r * v * d) by (nonlinear_arith);
        assert((r - 1) * c * d + c * d == r * c * d) by (nonlinear_arith);
        let mp = if r - 1 <= g.hr() { r - 1 } else { g.hr() };
        let m = if r <= g.hr() { r } else { g.hr() };
        assert(m * c * d == mp * c * d + (if r - 1 < g.hr() { c * d } else { 0 })) by (nonlinear_arith)
            requires
                m == mp + (if r - 1 < g.hr() { 1int } else { 0int }),
        ;
    } else {
        assert(clause_count(grid_lines(g, r)) == 0);
        let s = two_pow(g.bb as nat) - g.tiles();
        let d = edge_clauses(g);
        assert(r * g.cols * s == 0 && r * g.cols * d == 0 && r * g.vr() * d == 0) by (nonlinear_arith)
            requires
                r == 0,
        ;
    }
}

/// The header's clause count of a tiling CNF is the number of its clauses.
pub proof fn lemma_clause_total(g: Grid)
    requires
        even_sides(g),
        g.rows >= 0,
        g.cols >= 0,
        g.hr() >= 0,
        g.vr() >= 0,
        g.vr() <= g.cols,
        g.hr() <= g.rows,
    ensures
        clause_count(grid_lines(g, g.rows)) == g.clause_total(),
{
    lemma_count_grid(g, g.rows);
    let s = two_pow(g.bb as nat) - g.tiles();
    let a = g.hr() * g.cols + g.rows * g.vr();
    assert(g.hr() * g.cols * (2 * g.tiles() * g.cb) + g.rows * g.vr() * (2 * g.tiles() * g.cb) == 2 * a * g.tiles() * g.cb) by (nonlinear_arith)
        requires
            a == g.hr() * g.cols + g.rows * g.vr(),
    ;
    assert(g.rows * g.cols * s == g.rows * g.cols * (two_pow(g.bb as nat) - g.tiles()));
}

/// What a cell of [`wang_cnf`] may count on: the numbering, the bounds, and its place.
pub open spec fn cell_ok(nodes: Seq<Vec<i32>>, h_edges: Seq<Vec<i32>>, v_edges: Seq<Vec<i32>>, g: Grid, i: int, j: int) -> bool {
    &&& numbered(nodes, h_edges, v_edges, g)
    &&& g.rows >= 1
    &&& g.cols >= 1
    &&& g.hr() >= 1
    &&& g.vr() >= 0
    &&& 1 <= g.bb <= 30
    &&& 1 <= g.cb <= 8
    &&& g.vars() <= i32::MAX
    &&& g.blocks.len() == 4
    &&& 0 <= i < g.rows
    &&& 0 <= j < g.cols
}

/// Appends the lines of the edge below cell `(i, j)`.
fn push_down_lines(
    lines: &mut Vec<WangLine>,
    nodes: &Vec<Vec<i32>>,
    h_edges: &Vec<Vec<i32>>,
    v_edges: &Vec<Vec<i32>>,
    blocks: [&[u8]; 4],
    i: usize,
    j: usize,
    wrap_rows: bool,
    wrap_cols: bool,
    bb: u32,
    cb: u32,
    len: usize,
    top: u64,
    Ghost(g): Ghost<Grid>,
)
    requires
        cell_ok(nodes@, h_edges@, v_edges@, g, i as int, j as int),
        g.blocks == sides(blocks),
        wrap_rows == g.wrap_rows,
        wrap_cols == g.wrap_cols,
        bb == g.bb,
        cb == g.cb,
        len == g.tiles(),
        top == two_pow(bb as nat),
        len <= top,
    ensures
        lines_view(final(lines)@) == lines_view(old(lines)@) + down_lines(g, i as int, j as int),
{
    let rows = nodes.len();
    let cur = nodes[i][j];
    proof {
        lemma_var_bounds(g, i as int, j as int);
        if i + 1 < rows {
            lemma_var_bounds(g, i + 1, j as int);
        }
        lemma_var_bounds(g, 0, j as int);
    }
    if i < rows - 1 {
        proof {
            lemma_lines_push(lines@, WangLine::UpDown);
        }
        lines.push(WangLine::UpDown);
        push_pair_lines(lines, nodes[i + 1][j], cur, h_edges[i][j], blocks, 0, bb, cb, Ghost(g));
    } else if wrap_rows {
        proof {
            lemma_lines_push(lines@, WangLine::WrapRows(cur, i, j));
        }
        lines.push(WangLine::WrapRows(cur, i, j));
        push_pair_lines(lines, nodes[0][j], cur, h_edges[i][j], blocks, 0, bb, cb, Ghost(g));
    }
    proof {
        assert(lines_view(lines@) =~= lines_view(old(lines)@) + down_lines(g, i as int, j as int));
    }
}

/// Appends the lines of the edge right of cell `(i, j)`.
fn push_right_lines(
    lines: &mut Vec<WangLine>,
    nodes: &Vec<Vec<i32>>,
    h_edges: &Vec<Vec<i32>>,
    v_edges: &Vec<Vec<i32>>,
    blocks: [&[u8]; 4],
    i: usize,
    j: usize,
    wrap_rows: bool,
    wrap_cols: bool,
    bb: u32,
    cb: u32,
    len: usize,
    top: u64,
    Ghost(g): Ghost<Grid>,
)
    requires
        cell_ok(nodes@, h_edges@, v_edges@, g, i as int, j as int),
        g.blocks == sides(blocks),
        wrap_rows == g.wrap_rows,
        wrap_cols == g.wrap_cols,
        bb == g.bb,
        cb == g.cb,
        len == g.tiles(),
        top == two_pow(bb as nat),
        len <= top,
    ensures
        lines_view(final(lines)@) == lines_view(old(lines)@) + right_lines(g, i as int, j as int),
{
    let cols = nodes[i].len();
    let cur = nodes[i][j];
    proof {
        lemma_var_bounds(g, i as int, j as int);
        if j + 1 < cols {
            lemma_var_bounds(g, i as int, j + 1);
        }
        lemma_var_bounds(g, i as int, 0);
    }
    if j < cols - 1 {
        proof {
            lemma_lines_push(lines@, WangLine::LeftRight);
        }
        lines.push(WangLine::LeftRight);
        push_pair_lines(lines, nodes[i][j + 1], cur, v_edges[i][j], blocks, 2, bb, cb, Ghost(g));
    } else if wrap_cols {
        proof {
            lemma_lines_push(lines@, WangLine::WrapColumns(cur, i, j));
        }
        lines.push(WangLine::WrapColumns(cur, i, j));
        push_pair_lines(lines, nodes[i][0], cur, v_edges[i][j], blocks, 2, bb, cb, Ghost(g));
    }
    proof {
        assert(lines_view(lines@) =~= lines_view(old(lines)@) + right_lines(g, i as int, j as int));
    }
}

/// Appends the lines of cell `(i, j)`.
fn push_cell_lines(
    lines: &mut Vec<WangLine>,
    nodes: &Vec<Vec<i32>>,
    h_edges: &Vec<Vec<i32>>,
    v_edges: &Vec<Vec<i32>>,
    blocks: [&[u8]; 4],
    i: usize,
    j: usize,
    wrap_rows: bool,
    wrap_cols: bool,
    bb: u32,
    cb: u32,
    len: usize,
    top: u64,
    Ghost(g): Ghost<Grid>,
)
    requires
        cell_ok(nodes@, h_edges@, v_edges@, g, i as int, j as int),
        g.blocks == sides(blocks),
        wrap_rows == g.wrap_rows,
        wrap_cols == g.wrap_cols,
        bb == g.bb,
        cb == g.cb,
        len == g.tiles(),
        top == two_pow(bb as nat),
        len <= top,
    ensures
        lines_view(final(lines)@) == lines_view(old(lines)@) + cell_lines(g, i as int, j as int),
{
    let ghost before = lines_view(lines@);
    let cur = nodes[i][j];
    proof {
        lemma_var_bounds(g, i as int, j as int);
        lemma_lines_push(lines@, WangLine::Cell(i, j, cur));
    }
    lines.push(WangLine::Cell(i, j, cur));
    let ghost after_cell = lines_view(lines@);
    push_down_lines(lines, nodes, h_edges, v_edges, blocks, i, j, wrap_rows, wrap_cols, bb, cb, len, top, Ghost(g));
    let ghost after_down = lines_view(lines@);
    push_right_lines(lines, nodes, h_edges, v_edges, blocks, i, j, wrap_rows, wrap_cols, bb, cb, len, top, Ghost(g));
    let ghost after_right = lines_view(lines@);
    proof {
        lemma_lines_push(lines@, WangLine::Restrict);
    }
    lines.push(WangLine::Restrict);
    let ghost after_restrict = lines_view(lines@);
    let mut t: u64 = len as u64;
    while t < top
        invariant
            1 <= cur,
            cur + bb <= i32::MAX,
            bb < 64,
            len <= t <= top,
            cur == g.node_var(i as int, j as int),
            g.bb == bb,
            g.tiles() == len,
            lines_view(lines@) == after_restrict + Seq::new((t - len) as nat, |k: int| LineSpec::Clause(tile_lits(cur as int, (len + k) as u64, bb as int))),
        decreases top - t,
    {
        let clause = tile_literals(cur, t, bb);
        proof {
            lemma_lines_push(lines@, WangLine::Clause(clause));
        }
        lines.push(WangLine::Clause(clause));
        proof {
            assert(lines_view(lines@) =~= after_restrict + Seq::new((t + 1 - len) as nat, |k: int| LineSpec::Clause(tile_lits(cur as int, (len + k) as u64, bb as int))));
        }
        t += 1;
    }
    proof {
        assert(lines_view(lines@) =~= before + cell_lines(g, i as int, j as int));
    }
}

/// Appends the lines of the edge between the cells at `rel` and `cur`.
fn push_pair_lines(out: &mut Vec<WangLine>, rel: i32, cur: i32, edge: i32, blocks: [&[u8]; 4], bidx: usize, bb: u32, cb: u32, Ghost(g): Ghost<Grid>)
    requires
        bidx == 0 || bidx == 2,
        g.blocks == sides(blocks),
        g.bb == bb,
        g.cb == cb,
        1 <= rel,
        rel + bb <= i32::MAX,
        1 <= cur,
        cur + bb <= i32::MAX,
        1 <= edge,
        edge + cb <= i32::MAX,
        bb < 64,
        cb < 64,
    ensures
        lines_view(final(out)@) == lines_view(old(out)@) + pair_lines(g, rel as int, cur as int, edge as int, bidx as int),
{
    push_rule_lines(out, rel, edge, blocks[bidx], bidx, bb, cb);
    push_rule_lines(out, cur, edge, blocks[bidx + 1], bidx + 1, bb, cb);
    proof {
        assert(lines_view(out@) =~= lines_view(old(out)@) + pair_lines(g, rel as int, cur as int, edge as int, bidx as int));
    }
}

proof fn lemma_count_bounds(rows: int, cols: int, hr: int, vr: int, bb: int, cb: int, len: int, top: int)
    requires
        0 <= rows <= 0x8000_0000,
        0 <= cols <= 0x8000_0000,
        0 <= hr <= 0x8000_0000,
        0 <= vr <= 0x8000_0000,
        0 <= bb <= 30,
        0 <= cb <= 8,
        1 <= len <= top <= 0x4000_0000,
    ensures
        0 <= rows * cols <= 0x4000_0000_0000_0000,
        0 <= hr * cols <= 0x4000_0000_0000_0000,
        0 <= rows * vr <= 0x4000_0000_0000_0000,
        0 <= rows * cols * bb <= 30 * 0x4000_0000_0000_0000,
        0 <= hr * cols * cb <= 8 * 0x4000_0000_0000_0000,
        0 <= rows * vr * cb <= 8 * 0x4000_0000_0000_0000,
        0 <= 2 * (hr * cols + rows * vr) * len <= 4 * 0x4000_0000_0000_0000 * 0x4000_0000,
        0 <= 2 * (hr * cols + rows * vr) * len * cb <= 32 * 0x4000_0000_0000_0000 * 0x4000_0000,
        0 <= rows * cols * (top - len) <= 0x4000_0000_0000_0000 * 0x4000_0000,
{
    assert(0 <= rows * cols <= 0x4000_0000_0000_0000) by (nonlinear_arith)
        requires
            0 <= rows <= 0x8000_0000,
            0 <= cols <= 0x8000_0000,
    ;
    assert(0 <= hr * cols <= 0x4000_0000_0000_0000) by (nonlinear_arith)
        requires
            0 <= hr <= 0x8000_0000,
            0 <= cols <= 0x8000_0000,
    ;
    assert(0 <= rows * vr <= 0x4000_0000_0000_0000) by (nonlinear_arith)
        requires
            0 <= rows <= 0x8000_0000,
            0 <= vr <= 0x8000_0000,
    ;
    let rc = rows * cols;
    let hc = hr * cols;
    let rv = rows * vr;
    assert(0 <= rc * bb <= 30 * 0x4000_0000_0000_0000) by (nonlinear_arith)
        requires
            0 <= rc <= 0x4000_0000_0000_0000,
            0 <= bb <= 30,
    ;
    assert(0 <= hc * cb <= 8 * 0x4000_0000_0000_0000) by (nonlinear_arith)
        requires
            0 <= hc <= 0x4000_0000_0000_0000,
            0 <= cb <= 8,
    ;
    assert(0 <= rv * cb <= 8 * 0x4000_0000_0000_0000) by (nonlinear_arith)
        requires
            0 <= rv <= 0x4000_0000_0000_0000,
            0 <= cb <= 8,
    ;
    let e = 2 * (hc + rv);
    assert(0 <= e * len <= 4 * 0x4000_0000_0000_0000 * 0x4000_0000) by (nonlinear_arith)
        requires
            0 <= e <= 4 * 0x4000_0000_0000_0000,
            1 <= len <= 0x4000_0000,
    ;
    let el = e * len;
    assert(0 <= el * cb <= 32 * 0x4000_0000_0000_0000 * 0x4000_0000) by (nonlinear_arith)
        requires
            0 <= el <= 4 * 0x4000_0000_0000_0000 * 0x4000_0000,
            0 <= cb <= 8,
    ;
    assert(0 <= rc * (top - len) <= 0x4000_0000_0000_0000 * 0x4000_0000) by (nonlinear_arith)
        requires
            0 <= rc <= 0x4000_0000_0000_0000,
            0 <= top - len <= 0x4000_0000,
    ;
}

/// Whether [`wang_cnf`] works on these inputs, [`wang_args_ok`]: the grid, the side lists'
/// lengths, and the counts of variables and clauses that must fit in `i32`.
pub fn wang_args_valid(v: i32, h: i32, blocks: [&[u8]; 4]) -> (r: bool)
    ensures
        r == wang_args_ok(v, h, sides(blocks)),
{
    let ghost b = sides(blocks);
    let ghost g = grid_of(v, h, b);
    if v == i32::MIN || h == i32::MIN {
        return false;
    }
    let len = blocks[0].len();
    if len < 1 || len > 0x4000_0000 || blocks[1].len() != len || blocks[2].len() != len || blocks[3].len() != len {
        return false;
    }
    let wrap_rows = v < 0;
    let wrap_cols = h < 0;
    let rows: u128 = if h < 0 { (-h) as u128 } else { h as u128 };
    let cols: u128 = if v < 0 { (-v) as u128 } else { v as u128 };
    if rows < 1 {
        return false;
    }
    let hr: u128 = if wrap_rows { rows } else { rows - 1 };
    if hr < 1 {
        return false;
    }
    if !wrap_cols && cols < 1 {
        return false;
    }
    let vr: u128 = if wrap_cols { cols } else { cols - 1 };
    let m0 = slice_max(blocks[0]);
    let m1 = slice_max(blocks[1]);
    let m2 = slice_max(blocks[2]);
    let m3 = slice_max(blocks[3]);
    let m01 = if m0 < m1 { m1 } else { m0 };
    let m23 = if m2 < m3 { m3 } else { m2 };
    let color = if m01 < m23 { m23 } else { m01 };
    let cb = bits_for(if color > 2 { (color - 1) as u64 } else { 1 });
    let bb = bits_for(if len > 2 { (len - 1) as u64 } else { 1 });
    proof {
        assert(g.rows == rows && g.cols == cols && g.hr() == hr && g.vr() == vr);
        assert(g.bb == bb && g.cb == cb);
        assert(g.tiles() == len);
        lemma_two_pow_30();
        lemma_bit_len_bound((if len - 1 > 1 { len - 1 } else { 1 }) as nat, 30);
        reveal_with_fuel(two_pow, 9);
        lemma_bit_len_bound((if color - 1 > 1 { color - 1 } else { 1 }) as nat, 8);
        lemma_two_pow_monotone(bb as nat, 30);
    }
    let top: u64 = pow_two(bb);
    let lenw = len as u128;
    let bbw = bb as u128;
    let cbw = cb as u128;
    let topw = top as u128;
    proof {
        lemma_count_bounds(rows as int, cols as int, hr as int, vr as int, bbw as int, cbw as int, lenw as int, topw as int);
    }
    let rc = rows * cols;
    let hc = hr * cols;
    let rv = rows * vr;
    let vars: u128 = 1 + rc * bbw + hc * cbw + rv * cbw;
    let edges: u128 = 2 * (hc + rv);
    let per_tile: u128 = edges * lenw;
    let clauses: u128 = per_tile * cbw + rc * (topw - lenw);
    proof {
        assert(vars == g.vars());
        assert(clauses == g.clause_total());
    }
    vars <= 0x7fff_ffff && clauses <= 0x7fff_ffff
}

/// The CNF whose models are the tilings of a grid of `|h|` rows and `|v|` columns by the
/// tiles whose top, bottom, left and right colours are listed in `blocks`; the rows wrap
/// around when `v < 0`, the columns when `h < 0`. `None` when the largest colour is `0`:
/// with one colour every grid can be tiled.
pub fn wang_cnf(v: i32, h: i32, blocks: [&[u8]; 4]) -> (r: Option<WangCnf>)
    requires
        wang_args_ok(v, h, sides(blocks)),
    ensures
        r is None <==> max_color(sides(blocks)) == 0,
        r matches Some(c) ==> {
            let g = grid_of(v, h, sides(blocks));
            &&& c.vars == g.vars()
            &&& c.clauses == g.clause_total()
            &&& lines_view(c.lines@) == grid_lines(g, g.rows)
            &&& clause_count(lines_view(c.lines@)) == c.clauses
            &&& c.nodes.len() == g.rows
            &&& forall|i: int| 0 <= i < g.rows ==> (#[trigger] c.nodes@[i])@.len() == g.cols
            &&& forall|i: int, j: int| 0 <= i < g.rows && 0 <= j < g.cols ==> #[trigger] c.nodes@[i]@[j] == g.node_var(i, j)
            &&& c.h_edges.len() == g.hr()
            &&& forall|i: int| 0 <= i < g.hr() ==> (#[trigger] c.h_edges@[i])@.len() == g.cols
            &&& forall|i: int, j: int| 0 <= i < g.hr() && 0 <= j < g.cols ==> #[trigger] c.h_edges@[i]@[j] == g.hedge_var(i, j)
            &&& c.v_edges.len() == g.rows
            &&& forall|i: int| 0 <= i < g.rows ==> (#[trigger] c.v_edges@[i])@.len() == g.vr()
            &&& forall|i: int, j: int| 0 <= i < g.rows && 0 <= j < g.vr() ==> #[trigger] c.v_edges@[i]@[j] == g.vedge_var(i, j)
        },
{
    let ghost b = sides(blocks);
    let ghost g = grid_of(v, h, b);
    let wrap_rows = v < 0;
    let wrap_cols = h < 0;
    let rows: usize = if h < 0 { (-h) as usize } else { h as usize };
    let cols: usize = if v < 0 { (-v) as usize } else { v as usize };
    let hr: usize = if wrap_rows { rows } else { rows - 1 };
    let vr: usize = if wrap_cols { cols } else { cols - 1 };
    let m0 = slice_max(blocks[0]);
    let m1 = slice_max(blocks[1]);
    let m2 = slice_max(blocks[2]);
    let m3 = slice_max(blocks[3]);
    let m01 = if m0 < m1 { m1 } else { m0 };
    let m23 = if m2 < m3 { m3 } else { m2 };
    let color = if m01 < m23 { m23 } else { m01 };
    if color == 0 {
        return None;
    }
    let len = blocks[0].len();
    let cb = bits_for(if color - 1 > 1 { (color - 1) as u64 } else { 1 });
    let bb = bits_for(if len - 1 > 1 { (len - 1) as u64 } else { 1 });
    proof {
        assert(g.rows == rows && g.cols == cols && g.hr() == hr && g.vr() == vr);
        assert(g.bb == bb && g.cb == cb);
        lemma_two_pow_30();
        lemma_bit_len_bound((if len - 1 > 1 { len - 1 } else { 1 }) as nat, 30);
        reveal_with_fuel(two_pow, 9);
        lemma_bit_len_bound((if color - 1 > 1 { color - 1 } else { 1 }) as nat, 8);
        assert(bb <= 30);
        assert(0 <= rows * cols * bb) by (nonlinear_arith)
            requires
                rows >= 0,
                cols >= 0,
                bb >= 0,
        ;
        assert(0 <= hr * cols * cb) by (nonlinear_arith)
            requires
                hr >= 0,
                cols >= 0,
                cb >= 0,
        ;
        assert(0 <= rows * vr * cb) by (nonlinear_arith)
            requires
                rows >= 0,
                vr >= 0,
                cb >= 0,
        ;
    }
    let top: u64 = pow_two(bb);
    proof {
        lemma_le_mul(rows * cols, bb as int);
        lemma_le_mul(hr * cols, cb as int);
        lemma_le_mul(rows * vr, cb as int);
        lemma_two_pow_monotone(bb as nat, 30);
        assert(len <= top);
        let a = hr * cols + rows * vr;
        assert(0 <= a) by (nonlinear_arith)
            requires
                hr >= 0,
                cols >= 0,
                rows >= 0,
                vr >= 0,
                a == hr * cols + rows * vr,
        ;
        lemma_le_mul(2 * a, len as int);
        lemma_le_mul(2 * a * len, cb as int);
        assert(0 <= rows * cols * (top - len)) by (nonlinear_arith)
            requires
                rows >= 0,
                cols >= 0,
                top >= len,
        ;
        assert(0 <= 2 * a * len * cb) by (nonlinear_arith)
            requires
                a >= 0,
                len >= 0,
                cb >= 0,
        ;
    }
    let nodes = number_grid(1, rows, cols, bb, Ghost(g.vars()));
    let first_h: i32 = 1 + (rows * cols * bb as usize) as i32;
    let h_edges = number_grid(first_h, hr, cols, cb, Ghost(g.vars()));
    let first_v: i32 = first_h + (hr * cols * cb as usize) as i32;
    let v_edges = number_grid(first_v, rows, vr, cb, Ghost(g.vars()));
    let vars: i32 = first_v + (rows * vr * cb as usize) as i32;
    proof {
        assert(vars == g.vars());
    }
    let spare: usize = top as usize - len;
    let clauses: i32 = (2 * (hr * cols + rows * vr) * len * cb as usize + rows * cols * spare) as i32;
    let mut lines: Vec<WangLine> = Vec::new();
    let mut i: usize = 0;
    proof {
        assert(numbered(nodes@, h_edges@, v_edges@, g));
        assert(lines_view(lines@) =~= grid_lines(g, 0));
    }
    while i < rows
        invariant
            g == grid_of(v, h, b),
            b == sides(blocks),
            wang_args_ok(v, h, b),
            rows == g.rows,
            cols == g.cols,
            wrap_rows == g.wrap_rows,
            wrap_cols == g.wrap_cols,
            hr == g.hr(),
            vr == g.vr(),
            bb == g.bb,
            cb == g.cb,
            1 <= bb <= 30,
            1 <= cb <= 8,
            len == g.tiles(),
            top == two_pow(bb as nat),
            len <= top,
            numbered(nodes@, h_edges@, v_edges@, g),
            0 <= i <= rows,
            lines_view(lines@) == grid_lines(g, i as int),
        decreases rows - i,
    {
        let mut j: usize = 0;
        proof {
            assert(lines_view(lines@) =~= grid_lines(g, i as int) + row_lines(g, i as int, 0));
        }
        while j < cols
            invariant
                g == grid_of(v, h, b),
                b == sides(blocks),
                wang_args_ok(v, h, b),
                rows == g.rows,
                cols == g.cols,
                wrap_rows == g.wrap_rows,
                wrap_cols == g.wrap_cols,
                hr == g.hr(),
                vr == g.vr(),
                bb == g.bb,
                cb == g.cb,
                1 <= bb <= 30,
                1 <= cb <= 8,
                len == g.tiles(),
                top == two_pow(bb as nat),
                len <= top,
                numbered(nodes@, h_edges@, v_edges@, g),
                0 <= i < rows,
                0 <= j <= cols,
                lines_view(lines@) == grid_lines(g, i as int) + row_lines(g, i as int, j as int),
            decreases cols - j,
        {
            let ghost before = lines_view(lines@);
            push_cell_lines(&mut lines, &nodes, &h_edges, &v_edges, blocks, i, j, wrap_rows, wrap_cols, bb, cb, len, top, Ghost(g));
            proof {
                assert(lines_view(lines@) =~= grid_lines(g, i as int) + row_lines(g, i as int, j + 1));
            }
            j += 1;
        }
        proof {
            assert(lines_view(lines@) =~= grid_lines(g, i + 1));
        }
        i += 1;
    }
    proof {
        lemma_clause_total(g);
    }
    Some(WangCnf { nodes, h_edges, v_edges, vars, clauses, lines })
}

/// Separators of the solver's answer: newline and space.
pub open spec fn is_sep(c: u8) -> bool {
    c == 10 || c == 32
}

/// `s[a..b]` is a token: a maximal run of bytes without separators.
pub open spec fn is_token(s: Seq<u8>, a: int, b: int) -> bool {
    &&& 0 <= a <= b <= s.len()
    &&& forall|k: int| a <= k < b ==> !is_sep(#[trigger] s[k])
    &&& a == 0 || is_sep(s[a - 1])
    &&& b == s.len() || is_sep(s[b])
}

/// All bytes are decimal digits.
pub open spec fn all_digits(s: Seq<u8>) -> bool {
    forall|k: int| 0 <= k < s.len() ==> 48 <= #[trigger] s[k] <= 57
}

/// The value of a string of decimal digits.
pub open spec fn digits_value(s: Seq<u8>) -> int
    decreases s.len(),
{
    if s.len() == 0 {
        0
    } else {
        digits_value(s.drop_last()) * 10 + (s.last() - 48)
    }
}

/// The `i32` that `s` writes: an optional `+` or `-`, then one digit or more, in range.
pub open spec fn parse_i32(s: Seq<u8>) -> Option<int> {
    let signed = s.len() > 0 && (s[0] == 45 || s[0] == 43);
    let body = if signed { s.subrange(1, s.len() as int) } else { s };
    let v = if signed && s[0] == 45 { -digits_value(body) } else { digits_value(body) };
    if body.len() > 0 && all_digits(body) && i32::MIN <= v <= i32::MAX {
        Some(v)
    } else {
        None
    }
}

proof fn lemma_digits_grow(s: Seq<u8>, k: int)
    requires
        all_digits(s),
        0 <= k <= s.len(),
    ensures
        digits_value(s.subrange(0, k)) <= digits_value(s),
        0 <= digits_value(s.subrange(0, k)),
    decreases s.len() - k,
{
    if k < s.len() {
        lemma_digits_grow(s, k + 1);
        assert(s.subrange(0, k + 1).drop_last() =~= s.subrange(0, k));
        assert(all_digits(s.subrange(0, k + 1)));
    } else {
        assert(s.subrange(0, k) =~= s);
        lemma_digits_nonneg(s);
    }
}

proof fn lemma_digits_nonneg(s: Seq<u8>)
    requires
        all_digits(s),
    ensures
        0 <= digits_value(s),
    decreases s.len(),
{
    if s.len() > 0 {
        assert(all_digits(s.drop_last()));
        lemma_digits_nonneg(s.drop_last());
    }
}

/// The `i32` that `bytes[a..b]` writes, if it writes one.
fn parse_token(bytes: &[u8], a: usize, b: usize) -> (r: Option<i32>)
    requires
        a <= b <= bytes.len(),
    ensures
        r matches Some(v) ==> parse_i32(bytes@.subrange(a as int, b as int)) == Some(v as int),
        r is None ==> parse_i32(bytes@.subrange(a as int, b as int)) is None,
{
    let ghost s = bytes@.subrange(a as int, b as int);
    let mut start = a;
    let mut neg = false;
    if a < b && (bytes[a] == 45u8 || bytes[a] == 43u8) {
        neg = bytes[a] == 45u8;
        start = a + 1;
    }
    let ghost body = bytes@.subrange(start as int, b as int);
    proof {
        let signed = s.len() > 0 && (s[0] == 45 || s[0] == 43);
        assert(body =~= if signed { s.subrange(1, s.len() as int) } else { s });
        assert(neg == (signed && s[0] == 45));
    }
    if start == b {
        return None;
    }
    let mut acc: i64 = 0;
    let mut k = start;
    while k < b
        invariant
            a <= start <= k <= b <= bytes.len(),
            body == bytes@.subrange(start as int, b as int),
            body.len() > 0,
            s == bytes@.subrange(a as int, b as int),
            parse_i32(s) == (if all_digits(body) && i32::MIN <= (if neg { -digits_value(body) } else { digits_value(body) }) <= i32::MAX {
                Some(if neg { -digits_value(body) } else { digits_value(body) })
            } else {
                None::<int>
            }),
            all_digits(bytes@.subrange(start as int, k as int)),
            acc == digits_value(bytes@.subrange(start as int, k as int)),
            0 <= acc <= 0x8000_0000,
        decreases b - k,
    {
        let c = bytes[k];
        if c < 48u8 || c > 57u8 {
            proof {
                assert(body[k - start] == c);
            }
            return None;
        }
        proof {
            assert(bytes@.subrange(start as int, k + 1).drop_last() =~= bytes@.subrange(start as int, k as int));
        }
        acc = acc * 10 + (c - 48u8) as i64;
        k += 1;
        if acc > 0x8000_0000i64 {
            proof {
                if all_digits(body) {
                    assert(body.subrange(0, k - start) =~= bytes@.subrange(start as int, k as int));
                    lemma_digits_grow(body, k - start);
                }
            }
            return None;
        }
    }
    proof {
        assert(bytes@.subrange(start as int, k as int) =~= body);
    }
    let v: i64 = if neg { -acc } else { acc };
    if v < i32::MIN as i64 || v > i32::MAX as i64 {
        return None;
    }
    Some(v as i32)
}

/// The tokens of `bytes`, in order.
fn tokens(bytes: &[u8]) -> (r: Vec<(usize, usize)>)
    ensures
        forall|t: int| 0 <= t < r.len() ==> is_token(bytes@, #[trigger] r@[t].0 as int, r@[t].1 as int),
        forall|a: int, b: int| is_token(bytes@, a, b) ==> exists|t: int| 0 <= t < r.len() && #[trigger] r@[t] == (a as usize, b as usize),
{
    let mut r: Vec<(usize, usize)> = Vec::new();
    let mut start: usize = 0;
    let mut i: usize = 0;
    while i < bytes.len()
        invariant
            0 <= start <= i <= bytes.len(),
            forall|k: int| start <= k < i ==> !is_sep(#[trigger] bytes@[k]),
            start == 0 || is_sep(bytes@[start - 1]),
            forall|t: int| 0 <= t < r.len() ==> is_token(bytes@, #[trigger] r@[t].0 as int, r@[t].1 as int),
            forall|a: int, b: int| is_token(bytes@, a, b) && b < i ==> exists|t: int| 0 <= t < r.len() && #[trigger] r@[t] == (a as usize, b as usize),
        decreases bytes.len() - i,
    {
        if bytes[i] == 10u8 || bytes[i] == 32u8 {
            let ghost before = r@;
            r.push((start, i));
            proof {
                assert(is_token(bytes@, start as int, i as int));
                assert forall|a: int, b: int| is_token(bytes@, a, b) && b < i + 1 implies exists|t: int| 0 <= t < r.len() && #[trigger] r@[t] == (a as usize, b as usize) by {
                    if b < i {
                        let t = choose|t: int| 0 <= t < before.len() && #[trigger] before[t] == (a as usize, b as usize);
                        assert(r@[t] == (a as usize, b as usize));
                    } else {
                        if a < start {
                            assert(!is_sep(bytes@[start - 1]));
                        }
                        if a > start {
                            assert(!is_sep(bytes@[a - 1]));
                        }
                        assert(r@[before.len() as int] == (a as usize, b as usize));
                    }
                }
                assert forall|t: int| 0 <= t < r.len() implies is_token(bytes@, #[trigger] r@[t].0 as int, r@[t].1 as int) by {
                    if t < before.len() {
                        assert(r@[t] == before[t]);
                    }
                }
            }
            start = i + 1;
        }
        i += 1;
    }
    let ghost before = r@;
    r.push((start, bytes.len()));
    proof {
        assert forall|a: int, b: int| is_token(bytes@, a, b) implies exists|t: int| 0 <= t < r.len() && #[trigger] r@[t] == (a as usize, b as usize) by {
            if b < bytes.len() {
                let t = choose|t: int| 0 <= t < before.len() && #[trigger] before[t] == (a as usize, b as usize);
                assert(r@[t] == (a as usize, b as usize));
            } else {
                if a < start {
                    assert(!is_sep(bytes@[start - 1]));
                }
                if a > start {
                    assert(!is_sep(bytes@[a - 1]));
                }
                assert(r@[before.len() as int] == (a as usize, b as usize));
            }
        }
        assert forall|t: int| 0 <= t < r.len() implies is_token(bytes@, #[trigger] r@[t].0 as int, r@[t].1 as int) by {
            if t < before.len() {
                assert(r@[t] == before[t]);
            }
        }
    }
    r
}

/// Bit `i` of `c` is set.
pub open spec fn bit32(c: u32, i: u32) -> bool {
    (c >> i) & 1u32 == 1u32
}

/// Some token of the answer `bytes` is the literal `k * bitw + i + 1`, from `1` to `limit`:
/// the variable of bit `i` of the code of cell `k` is true.
pub open spec fn sets_bit(bytes: Seq<u8>, limit: int, bitw: int, k: int, i: int) -> bool {
    exists|a: int, b: int|
        is_token(bytes, a, b) && #[trigger] parse_i32(bytes.subrange(a, b)) == Some(k * bitw + i + 1) && 1 <= k
            * bitw + i + 1 <= limit
}

proof fn lemma_bit_or(c: u32, o: u32)
    requires
        o < 32,
    ensures
        forall|i: u32| i < 32 ==> (#[trigger] bit32(c | (1u32 << o), i) <==> (bit32(c, i) || i == o)),
{
    assert forall|i: u32| i < 32 implies (#[trigger] bit32(c | (1u32 << o), i) <==> (bit32(c, i) || i == o)) by {
        assert(((c | (1u32 << o)) >> i) & 1u32 == 1u32 <==> ((c >> i) & 1u32 == 1u32 || i == o)) by (bit_vector)
            requires
                o < 32,
                i < 32,
        ;
    }
}

proof fn lemma_bit_zero()
    ensures
        forall|i: u32| i < 32 ==> !#[trigger] bit32(0u32, i),
{
    assert forall|i: u32| i < 32 implies !#[trigger] bit32(0u32, i) by {
        assert((0u32 >> i) & 1u32 == 0u32) by (bit_vector);
    }
}

/// The tile code of each of the `w * h` cells, read from a solver's answer: the tokens of
/// `contents`, split at newlines and spaces, that are `i32` literals from `1` to `w * h * 4`;
/// literal `y` sets bit `(y - 1) % bitw` of the code of cell `(y - 1) / bitw`, `bitw` the
/// number of bits of the tile count `tiles`.
pub fn decode_codes(contents: &str, w: i32, h: i32, tiles: usize) -> (r: Vec<u32>)
    requires
        w >= 0,
        h >= 0,
        w * h * 4 <= i32::MAX,
        1 <= tiles <= 0x4000_0000,
    ensures
        r.len() == w * h,
        forall|k: int, i: u32|
            0 <= k < w * h && i < 32 ==> (#[trigger] bit32(r@[k], i) <==> i < bit_len(tiles as nat) && sets_bit(
                contents.spec_bytes(),
                w * h * 4,
                bit_len(tiles as nat) as int,
                k,
                i as int,
            )),
{
    let bytes = contents.as_bytes();
    let ghost bs = bytes@;
    proof {
        lemma_two_pow_30();
        lemma_bit_len_bound(tiles as nat, 31);
        reveal_with_fuel(two_pow, 2);
        lemma_two_pow_monotone(30, 31);
        assert(two_pow(31) == 2 * two_pow(30));
        assert(0 <= w * h) by (nonlinear_arith)
            requires
                w >= 0,
                h >= 0,
        ;
    }
    let bitw = bits_for(tiles as u64);
    let n: usize = (w * h) as usize;
    let limit: i32 = w * h * 4;
    let mut codes: Vec<u32> = Vec::new();
    while codes.len() < n
        invariant
            codes.len() <= n,
            forall|k: int| 0 <= k < codes.len() ==> codes@[k] == 0u32,
        decreases n - codes.len(),
    {
        codes.push(0);
    }
    proof {
        lemma_bit_zero();
    }
    let toks = tokens(bytes);
    let mut t: usize = 0;
    while t < toks.len()
        invariant
            bytes@ == bs,
            1 <= bitw <= 31,
            bitw == bit_len(tiles as nat),
            n == w * h,
            limit == w * h * 4,
            codes.len() == n,
            0 <= t <= toks.len(),
            forall|u: int| 0 <= u < toks.len() ==> is_token(bs, #[trigger] toks@[u].0 as int, toks@[u].1 as int),
            forall|a: int, b: int| is_token(bs, a, b) ==> exists|u: int| 0 <= u < toks.len() && #[trigger] toks@[u] == (a as usize, b as usize),
            forall|k: int, i: u32|
                0 <= k < n && i < 32 ==> (#[trigger] bit32(codes@[k], i) <==> i < bitw && exists|u: int|
                    0 <= u < t && #[trigger] parse_i32(bs.subrange(toks@[u].0 as int, toks@[u].1 as int)) == Some(k * bitw + i + 1)
                        && 1 <= k * bitw + i + 1 <= limit),
        decreases toks.len() - t,
    {
        let (a, b) = toks[t];
        let parsed = parse_token(bytes, a, b);
        let ghost old_codes = codes@;
        match parsed {
            Some(y) => {
                if y <= limit && y > 0 {
                    let x = (y - 1) as usize;
                    let k = x / bitw as usize;
                    let o = (x % bitw as usize) as u32;
                    proof {
                        lemma_fundamental_div_mod(x as int, bitw as int);
                        assert(x as int == k as int * bitw as int + o as int) by (nonlinear_arith)
                            requires
                                x as int == bitw as int * (x as int / bitw as int) + x as int % bitw as int,
                                k as int == x as int / bitw as int,
                                o as int == x as int % bitw as int,
                        ;
                    }
                    if k < n {
                        let c = codes[k] | (1u32 << o);
                        codes.set(k, c);
                        proof {
                            lemma_bit_or(old_codes[k as int], o);
                        }
                    }
                    proof {
                        assert forall|kk: int, i: u32| 0 <= kk < n && i < 32 implies (#[trigger] bit32(codes@[kk], i) <==> i < bitw && exists|u: int|
                            0 <= u < t + 1 && #[trigger] parse_i32(bs.subrange(toks@[u].0 as int, toks@[u].1 as int)) == Some(kk * bitw + i + 1)
                                && 1 <= kk * bitw + i + 1 <= limit) by {
                            let hit = i < bitw && kk * bitw + i + 1 == y;
                            if hit {
                                lemma_fundamental_div_mod_converse(x as int, bitw as int, kk, i as int);
                                assert(kk == k && i == o);
                                assert(bit32(codes@[kk], i));
                                assert(parse_i32(bs.subrange(toks@[t as int].0 as int, toks@[t as int].1 as int)) == Some(kk * bitw + i + 1));
                            } else {
                                if k < n && kk == k {
                                    assert(bit32(codes@[kk], i) == (bit32(old_codes[kk], i) || i == o));
                                    if i == o {
                                        assert(kk * bitw + i + 1 == y);
                                    }
                                    assert(bit32(codes@[kk], i) == bit32(old_codes[kk], i));
                                } else {
                                    assert(codes@[kk] == old_codes[kk]);
                                }
                                if exists|u: int| 0 <= u < t + 1 && #[trigger] parse_i32(bs.subrange(toks@[u].0 as int, toks@[u].1 as int)) == Some(kk * bitw + i + 1)
                                    && 1 <= kk * bitw + i + 1 <= limit {
                                    let u = choose|u: int| 0 <= u < t + 1 && #[trigger] parse_i32(bs.subrange(toks@[u].0 as int, toks@[u].1 as int)) == Some(kk * bitw + i + 1)
                                        && 1 <= kk * bitw + i + 1 <= limit;
                                    if u == t {
                                        assert(kk * bitw + i + 1 == y);
                                        if i >= bitw {
                                            assert(kk * bitw + i + 1 == y);
                                        }
                                    }
                                }
                            }
                        }
                    }
                } else {
                    proof {
                        assert forall|kk: int, i: u32| 0 <= kk < n && i < 32 implies (#[trigger] bit32(codes@[kk], i) <==> i < bitw && exists|u: int|
                            0 <= u < t + 1 && #[trigger] parse_i32(bs.subrange(toks@[u].0 as int, toks@[u].1 as int)) == Some(kk * bitw + i + 1)
                                && 1 <= kk * bitw + i + 1 <= limit) by {
                            if exists|u: int| 0 <= u < t + 1 && #[trigger] parse_i32(bs.subrange(toks@[u].0 as int, toks@[u].1 as int)) == Some(kk * bitw + i + 1)
                                && 1 <= kk * bitw + i + 1 <= limit {
                                let u = choose|u: int| 0 <= u < t + 1 && #[trigger] parse_i32(bs.subrange(toks@[u].0 as int, toks@[u].1 as int)) == Some(kk * bitw + i + 1)
                                    && 1 <= kk * bitw + i + 1 <= limit;
                                assert(u != t);
                            }
                        }
                    }
                }
            },
            None => {},
        }
        t += 1;
    }
    proof {
        assert forall|k: int, i: u32|
            0 <= k < w * h && i < 32 implies (#[trigger] bit32(codes@[k], i) <==> i < bit_len(tiles as nat) && sets_bit(
                bs,
                w * h * 4,
                bit_len(tiles as nat) as int,
                k,
                i as int,
            )) by {
            if sets_bit(bs, w * h * 4, bitw as int, k, i as int) {
                let (a, b) = choose|a: int, b: int|
                    is_token(bs, a, b) && #[trigger] parse_i32(bs.subrange(a, b)) == Some(k * bitw + i + 1) && 1 <= k
                        * bitw + i + 1 <= w * h * 4;
                assert(bs.len() == bytes.len());
                assert(a as usize as int == a && b as usize as int == b);
                let u = choose|u: int| 0 <= u < toks.len() && #[trigger] toks@[u] == (a as usize, b as usize);
                assert(parse_i32(bs.subrange(toks@[u].0 as int, toks@[u].1 as int)) == Some(k * bitw + i + 1));
            }
            if exists|u: int| 0 <= u < toks.len() && #[trigger] parse_i32(bs.subrange(toks@[u].0 as int, toks@[u].1 as int)) == Some(k * bitw + i + 1)
                && 1 <= k * bitw + i + 1 <= limit {
                let u = choose|u: int| 0 <= u < toks.len() && #[trigger] parse_i32(bs.subrange(toks@[u].0 as int, toks@[u].1 as int)) == Some(k * bitw + i + 1)
                    && 1 <= k * bitw + i + 1 <= limit;
                assert(is_token(bs, toks@[u].0 as int, toks@[u].1 as int));
            }
        }
    }
    codes
}

/// The colours of each cell's tile, top, bottom, left and right; `None` when some code
/// names no tile.
pub fn codes_to_tiles(codes: &Vec<u32>, blocks: [&[u8]; 4]) -> (r: Option<Vec<[u8; 4]>>)
    requires
        blocks@[1]@.len() == blocks@[0]@.len(),
        blocks@[2]@.len() == blocks@[0]@.len(),
        blocks@[3]@.len() == blocks@[0]@.len(),
    ensures
        r is None <==> exists|k: int| 0 <= k < codes.len() && #[trigger] codes@[k] >= blocks@[0]@.len(),
        r matches Some(t) ==> t.len() == codes.len() && forall|k: int|
            0 <= k < codes.len() ==> #[trigger] t@[k] == [
                blocks@[0]@[codes@[k] as int],
                blocks@[1]@[codes@[k] as int],
                blocks@[2]@[codes@[k] as int],
                blocks@[3]@[codes@[k] as int],
            ],
{
    let mut out: Vec<[u8; 4]> = Vec::new();
    let len = blocks[0].len();
    let mut k: usize = 0;
    while k < codes.len()
        invariant
            len == blocks@[0]@.len(),
            blocks@[1]@.len() == len,
            blocks@[2]@.len() == len,
            blocks@[3]@.len() == len,
            0 <= k <= codes.len(),
            out.len() == k,
            forall|j: int| 0 <= j < k ==> codes@[j] < len,
            forall|j: int|
                0 <= j < k ==> #[trigger] out@[j] == [
                    blocks@[0]@[codes@[j] as int],
                    blocks@[1]@[codes@[j] as int],
                    blocks@[2]@[codes@[j] as int],
                    blocks@[3]@[codes@[j] as int],
                ],
        decreases codes.len() - k,
    {
        let c = codes[k] as usize;
        if c >= len {
            return None;
        }
        out.push([blocks[0][c], blocks[1][c], blocks[2][c], blocks[3][c]]);
        k += 1;
    }
    Some(out)
}

/// Colour `x` occurs in one of the lists.
pub open spec fn occurs(lists: Seq<Seq<u8>>, x: int) -> bool {
    exists|l: int, k: int| 0 <= l < lists.len() && 0 <= k < lists[l].len() && #[trigger] lists[l][k] == x
}

/// The number of distinct colours of the lists below `x`.
pub open spec fn rank(lists: Seq<Seq<u8>>, x: int) -> int
    decreases x,
{
    if x <= 0 {
        0
    } else {
        rank(lists, x - 1) + (if occurs(lists, x - 1) { 1int } else { 0int })
    }
}

proof fn lemma_rank_bound(lists: Seq<Seq<u8>>, x: int)
    requires
        0 <= x,
    ensures
        0 <= rank(lists, x) <= x,
    decreases x,
{
    if x > 0 {
        lemma_rank_bound(lists, x - 1);
    }
}

/// The rank of each colour `0..=255` among the distinct colours of the lists: the number
/// of distinct colours below it.
pub fn color_ranks(lists: &Vec<Vec<u8>>) -> (r: Vec<u8>)
    ensures
        r.len() == 256,
        forall|x: int| 0 <= x < 256 ==> #[trigger] r@[x] == rank(lists@.map_values(|l: Vec<u8>| l@), x),
{
    let ghost ls = lists@.map_values(|l: Vec<u8>| l@);
    let mut present: Vec<bool> = Vec::new();
    while present.len() < 256
        invariant
            present.len() <= 256,
            forall|x: int| 0 <= x < present.len() ==> !present@[x],
        decreases 256 - present.len(),
    {
        present.push(false);
    }
    let mut l: usize = 0;
    while l < lists.len()
        invariant
            ls == lists@.map_values(|l: Vec<u8>| l@),
            present.len() == 256,
            0 <= l <= lists.len(),
            forall|x: int| 0 <= x < 256 ==> (#[trigger] present@[x] <==> exists|a: int, k: int|
                0 <= a < l && 0 <= k < ls[a].len() && #[trigger] ls[a][k] == x),
        decreases lists.len() - l,
    {
        let mut k: usize = 0;
        while k < lists[l].len()
            invariant
                ls == lists@.map_values(|l: Vec<u8>| l@),
                present.len() == 256,
                0 <= l < lists.len(),
                0 <= k <= lists@[l as int].len(),
                forall|x: int| 0 <= x < 256 ==> (#[trigger] present@[x] <==> (exists|a: int, j: int|
                    0 <= a < l && 0 <= j < ls[a].len() && #[trigger] ls[a][j] == x) || exists|j: int|
                    0 <= j < k && #[trigger] ls[l as int][j] == x),
            decreases lists@[l as int].len() - k,
        {
            let c = lists[l][k] as usize;
            present.set(c, true);
            proof {
                assert(ls[l as int][k as int] == c);
            }
            k += 1;
        }
        proof {
            assert forall|x: int| 0 <= x < 256 implies (#[trigger] present@[x] <==> exists|a: int, j: int|
                0 <= a < l + 1 && 0 <= j < ls[a].len() && #[trigger] ls[a][j] == x) by {
                if exists|a: int, j: int| 0 <= a < l + 1 && 0 <= j < ls[a].len() && #[trigger] ls[a][j] == x {
                    let (a, j) = choose|a: int, j: int| 0 <= a < l + 1 && 0 <= j < ls[a].len() && #[trigger] ls[a][j] == x;
                    if a == l {
                        assert(ls[l as int][j] == x);
                    }
                }
            }
        }
        l += 1;
    }
    let mut r: Vec<u8> = Vec::new();
    let mut count: u16 = 0;
    let mut x: usize = 0;
    while x < 256
        invariant
            present.len() == 256,
            0 <= x <= 256,
            r.len() == x,
            count == rank(ls, x as int),
            forall|y: int| 0 <= y < 256 ==> (#[trigger] present@[y] <==> occurs(ls, y)),
            forall|y: int| 0 <= y < x ==> #[trigger] r@[y] == rank(ls, y),
        decreases 256 - x,
    {
        proof {
            lemma_rank_bound(ls, x as int);
            lemma_rank_bound(ls, x + 1);
        }
        r.push(count as u8);
        if present[x] {
            count = count + 1;
        }
        x += 1;
    }
    r
}

} // verus!
