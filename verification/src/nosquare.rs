//! Colouring `1..=nodes` with `slots` colours so that no two numbers of one colour sum to
//! a square, as a SAT problem in CNF. Number `i` holds its colour in `bits` variables,
//! `i * bits - bits + 1 ..= i * bits`, the variable `i * bits - b` for bit `b`.
use vstd::prelude::*;
use crate::sieve::isqrt;
use crate::cnf::{clause_holds, lemma_clause_concat, lit_holds};
use crate::wang::{lemma_two_pow_30, lemma_two_pow_is_pow2, lemma_two_pow_monotone, two_pow};
use vstd::arithmetic::div_mod::lemma_breakdown;
use vstd::bits::lemma_u32_shr_is_div;

verus! {

/// `n` is a perfect square.
pub open spec fn is_square(n: int) -> bool {
    exists|r: int| 0 <= r && #[trigger] (r * r) == n
}

/// `(j, k)` is a pair of numbers of `1..=nodes` that sum to a square, `j < k`.
pub open spec fn square_pair(j: int, k: int, nodes: int) -> bool {
    1 <= j < k <= nodes && is_square(j + k)
}

/// `p` comes before `q`: by sum, then by first number.
pub open spec fn pair_before(p: (u32, u32), q: (u32, u32)) -> bool {
    p.0 + p.1 < q.0 + q.1 || (p.0 + p.1 == q.0 + q.1 && p.0 < q.0)
}

/// The pair `(j, sq - j)`.
pub open spec fn pair_at(sq: int, j: int) -> (u32, u32) {
    (j as u32, (sq - j) as u32)
}

/// The pair `p` stands in `s` at `from` or after.
pub open spec fn listed(s: Seq<(u32, u32)>, from: int, p: (u32, u32)) -> bool {
    exists|t: int| from <= t < s.len() && #[trigger] s[t] == p
}

/// `pairs` lists exactly the pairs of `1..=nodes` that sum to a square, by sum and then by
/// first number.
pub open spec fn square_listing(pairs: Seq<(u32, u32)>, nodes: int) -> bool {
    &&& forall|t: int| 0 <= t < pairs.len() ==> square_pair(#[trigger] pairs[t].0 as int, pairs[t].1 as int, nodes)
    &&& forall|j: int, k: int| square_pair(j, k, nodes) ==> exists|t: int| 0 <= t < pairs.len() && #[trigger] pairs[t] == (j as u32, k as u32)
    &&& forall|a: int, b: int| 0 <= a < b < pairs.len() ==> pair_before(pairs[a], pairs[b])
}

/// `2^b` is the least power of two from `slots` up: `b` bits code the colours.
pub open spec fn slot_bits(slots: int, b: nat) -> bool {
    slots <= two_pow(b) && (b == 0 || two_pow((b - 1) as nat) < slots)
}

/// With `b` bits to a colour and the square pairs listed in `p`, the number of variables or
/// of clauses of the colouring CNF is more than a `u32` holds.
pub open spec fn ns_too_big(nodes: int, slots: int, b: nat, p: Seq<(u32, u32)>) -> bool {
    &&& slot_bits(slots, b)
    &&& square_listing(p, nodes)
    &&& (nodes * b > u32::MAX || nodes * (two_pow(b) - slots) + slots * p.len() > u32::MAX)
}

/// The literal of bit `b` in a clause that rules out colour `idx` for number `i`.
pub open spec fn bit_lit(i: int, idx: u32, b: int, bits: int) -> int {
    if (idx >> (b as u32)) & 1u32 == 1u32 { -(i * bits - b) } else { i * bits - b }
}

/// The literals that rule out colour `idx` for number `i`, from bit `bits - 1` down to bit `0`.
pub open spec fn number_lits(i: int, idx: u32, bits: int) -> Seq<int> {
    Seq::new(bits as nat, |t: int| bit_lit(i, idx, bits - 1 - t, bits))
}

/// What a line of the CNF says; the literals of a clause as integers.
pub ghost enum NsLineSpec {
    Number(int),
    Pair(int, int),
    Clause(Seq<int>),
}

/// A line of the CNF: a comment naming the number or the pair whose clauses follow, or a
/// clause.
#[derive(Debug)]
pub enum NsLine {
    Number(u32),
    Pair(u32, u32),
    Clause(Vec<i64>),
}

impl View for NsLine {
    type V = NsLineSpec;

    open spec fn view(&self) -> NsLineSpec {
        match self {
            NsLine::Number(i) => NsLineSpec::Number(*i as int),
            NsLine::Pair(i, j) => NsLineSpec::Pair(*i as int, *j as int),
            NsLine::Clause(c) => NsLineSpec::Clause(c@.map_values(|x: i64| x as int)),
        }
    }
}

/// The lines, each by what it says.
pub open spec fn ns_view(s: Seq<NsLine>) -> Seq<NsLineSpec> {
    s.map_values(|l: NsLine| l@)
}

/// The clauses of number `i`: its codes `slots..codes` name no colour.
pub open spec fn number_lines(i: int, slots: int, codes: int, bits: int) -> Seq<NsLineSpec> {
    seq![NsLineSpec::Number(i)] + Seq::new(
        (codes - slots) as nat,
        |t: int| NsLineSpec::Clause(number_lits(i, (slots + t) as u32, bits)),
    )
}

/// The clauses of the pair `(i, j)`: the two numbers do not share a colour.
pub open spec fn pair_lines(i: int, j: int, slots: int, bits: int) -> Seq<NsLineSpec> {
    seq![NsLineSpec::Pair(i, j)] + Seq::new(
        slots as nat,
        |idx: int| NsLineSpec::Clause(number_lits(i, idx as u32, bits) + number_lits(j, idx as u32, bits)),
    )
}

/// The lines of the numbers `1..=n`.
pub open spec fn numbers_lines(n: int, slots: int, codes: int, bits: int) -> Seq<NsLineSpec>
    decreases n,
{
    if n <= 0 {
        Seq::empty()
    } else {
        numbers_lines(n - 1, slots, codes, bits) + number_lines(n, slots, codes, bits)
    }
}

/// The lines of the first `n` pairs.
pub open spec fn pairs_lines(pairs: Seq<(u32, u32)>, n: int, slots: int, bits: int) -> Seq<NsLineSpec>
    decreases n,
{
    if n <= 0 {
        Seq::empty()
    } else {
        pairs_lines(pairs, n - 1, slots, bits) + pair_lines(pairs[n - 1].0 as int, pairs[n - 1].1 as int, slots, bits)
    }
}

/// The number of clauses among the lines.
pub open spec fn ns_clause_count(s: Seq<NsLineSpec>) -> int
    decreases s.len(),
{
    if s.len() == 0 {
        0
    } else {
        ns_clause_count(s.drop_last()) + (if s.last() is Clause { 1int } else { 0int })
    }
}

/// The pairs of `1..=nodes` that sum to a square, by sum and then by first number.
pub fn square_pairs(nodes: u32) -> (r: Vec<(u32, u32)>)
    requires
        nodes < 0x4000_0000,
    ensures
        square_listing(r@, nodes as int),
{
    let twice: usize = nodes as usize * 2;
    let root_wide = isqrt(twice);
    proof {
        assert(root_wide <= 0xffff) by (nonlinear_arith)
            requires
                root_wide * root_wide <= twice,
                twice < 0x8000_0000,
        ;
    }
    let root = root_wide as u32;
    let mut r: Vec<(u32, u32)> = Vec::new();
    let mut i: u32 = 1;
    while i <= root
        invariant
            nodes < 0x4000_0000,
            root * root <= nodes * 2 < (root + 1) * (root + 1),
            root <= 0xffff,
            1 <= i <= root + 1,
            forall|t: int| 0 <= t < r.len() ==> square_pair(#[trigger] r@[t].0 as int, r@[t].1 as int, nodes as int),
            forall|t: int| 0 <= t < r.len() ==> (#[trigger] r@[t]).0 + r@[t].1 < i * i,
            forall|j: int, k: int| square_pair(j, k, nodes as int) && j + k < i * i ==> exists|t: int| 0 <= t < r.len() && #[trigger] r@[t] == (j as u32, k as u32),
            forall|a: int, b: int| 0 <= a < b < r.len() ==> pair_before(r@[a], r@[b]),
        decreases root + 1 - i,
    {
        proof {
            assert(i * i <= root * root) by (nonlinear_arith)
                requires
                    1 <= i <= root,
            ;
        }
        let sq = i * i;
        let lo: u32 = if sq > nodes && sq - nodes > 1 { sq - nodes } else { 1 };
        let hi: u32 = (sq + 1) / 2;
        let ghost start = r@;
        let mut j = lo;
        while j < hi
            invariant
                nodes < 0x4000_0000,
                sq == i * i,
                1 <= i,
                sq <= nodes * 2,
                lo <= j,
                lo >= 1,
                lo >= sq - nodes,
                hi == (sq + 1) / 2,
                j <= hi || j == lo,
                r@.len() >= start.len(),
                r@.subrange(0, start.len() as int) == start,
                forall|t: int| 0 <= t < r.len() ==> square_pair(#[trigger] r@[t].0 as int, r@[t].1 as int, nodes as int),
                forall|t: int| 0 <= t < start.len() ==> (#[trigger] r@[t]).0 + r@[t].1 < i * i,
                forall|t: int| start.len() <= t < r.len() ==> (#[trigger] r@[t]).0 + r@[t].1 == sq && r@[t].0 < j,
                forall|jj: int| lo <= jj < j ==> #[trigger] listed(r@, start.len() as int, pair_at(sq as int, jj)),
                forall|a: int, b: int| 0 <= a < b < r.len() ==> pair_before(r@[a], r@[b]),
            decreases hi - j,
        {
            let ghost before = r@;
            proof {
                assert(is_square(sq as int)) by {
                    assert(i * i == sq);
                }
            }
            r.push((j, sq - j));
            proof {
                assert(r@.subrange(0, start.len() as int) =~= before.subrange(0, start.len() as int));
                assert forall|jj: int| lo <= jj < j + 1 implies #[trigger] listed(r@, start.len() as int, pair_at(sq as int, jj)) by {
                    if jj < j {
                        assert(listed(before, start.len() as int, pair_at(sq as int, jj)));
                        let t = choose|t: int| start.len() <= t < before.len() && #[trigger] before[t] == pair_at(sq as int, jj);
                        assert(r@[t] == before[t]);
                    } else {
                        assert(r@[before.len() as int] == pair_at(sq as int, jj));
                    }
                }
                assert forall|a: int, b: int| 0 <= a < b < r.len() implies pair_before(r@[a], r@[b]) by {
                    if b == before.len() {
                        if a >= start.len() {
                            assert(before[a].0 < j);
                        } else {
                            assert(before[a].0 + before[a].1 < i * i);
                        }
                    } else {
                        assert(r@[a] == before[a] && r@[b] == before[b]);
                    }
                }
            }
            j += 1;
        }
        proof {
            assert forall|jj: int, k: int| square_pair(jj, k, nodes as int) && jj + k < (i + 1) * (i + 1) implies exists|t: int| 0 <= t < r.len() && #[trigger] r@[t] == (jj as u32, k as u32) by {
                if jj + k < i * i {
                    let t = choose|t: int| 0 <= t < start.len() && #[trigger] start[t] == (jj as u32, k as u32);
                    assert(r@.subrange(0, start.len() as int)[t] == start[t]);
                    assert(r@[t] == start[t]);
                } else {
                    let s = choose|s: int| 0 <= s && #[trigger] (s * s) == jj + k;
                    lemma_square_between(s, i as int);
                    assert(jj + k == sq);
                    assert(lo <= jj < hi);
                    assert(listed(r@, start.len() as int, pair_at(sq as int, jj)));
                    assert(pair_at(sq as int, jj) == (jj as u32, k as u32));
                }
            }
            assert(i * i + 2 * i + 1 == (i + 1) * (i + 1)) by (nonlinear_arith);
        }
        i += 1;
    }
    proof {
        assert forall|j: int, k: int| square_pair(j, k, nodes as int) implies exists|t: int| 0 <= t < r.len() && #[trigger] r@[t] == (j as u32, k as u32) by {
            assert(j + k < (root + 1) * (root + 1));
        }
    }
    r
}

proof fn lemma_square_between(s: int, i: int)
    requires
        0 <= s,
        1 <= i,
        i * i <= s * s < (i + 1) * (i + 1),
    ensures
        s == i,
{
    if s < i {
        assert(s * s < i * i) by (nonlinear_arith)
            requires
                0 <= s < i,
        ;
    }
    if s > i {
        assert(s * s >= (i + 1) * (i + 1)) by (nonlinear_arith)
            requires
                s >= i + 1,
                i >= 0,
        ;
    }
}

/// The CNF of the colouring problem: the pairs that must differ, the number of variables
/// and of clauses, and the lines.
pub struct NoSquareCnf {
    /// The pairs of numbers that sum to a square.
    pub pairs: Vec<(u32, u32)>,
    /// The bits of a colour code.
    pub bits: u32,
    /// The number of colour codes, the power of two from `slots` up.
    pub codes: u32,
    /// The number of variables.
    pub vars: u32,
    /// The number of clauses.
    pub clauses: u32,
    /// The comments and clauses, in order.
    pub lines: Vec<NsLine>,
}

proof fn lemma_ns_push(s: Seq<NsLine>, x: NsLine)
    ensures
        ns_view(s.push(x)) == ns_view(s).push(x@),
{
    assert(ns_view(s.push(x)) =~= ns_view(s).push(x@));
}

/// The literals that rule out colour `idx` for number `i`, from bit `bits - 1` down.
fn number_literals(i: u32, idx: u32, bits: u32) -> (r: Vec<i64>)
    requires
        i >= 1,
        bits <= 32,
        i * bits <= u32::MAX,
    ensures
        r@.map_values(|x: i64| x as int) == number_lits(i as int, idx, bits as int),
{
    let mut r: Vec<i64> = Vec::new();
    let mut t: u32 = 0;
    proof {
        assert(i * bits >= bits) by (nonlinear_arith)
            requires
                i >= 1,
                bits >= 0,
        ;
    }
    while t < bits
        invariant
            i >= 1,
            bits <= 32,
            i * bits <= u32::MAX,
            i * bits >= bits,
            0 <= t <= bits,
            r.len() == t,
            r@.map_values(|x: i64| x as int) == number_lits(i as int, idx, bits as int).subrange(0, t as int),
        decreases bits - t,
    {
        let b = bits - 1 - t;
        let v = (i * bits - b) as i64;
        let lit = if (idx >> b) & 1u32 == 1u32 { -v } else { v };
        let ghost before = r@;
        r.push(lit);
        proof {
            assert(r@.map_values(|x: i64| x as int) =~= number_lits(i as int, idx, bits as int).subrange(0, t + 1));
        }
        t += 1;
    }
    proof {
        assert(number_lits(i as int, idx, bits as int).subrange(0, bits as int) =~= number_lits(i as int, idx, bits as int));
    }
    r
}

/// The lines of the colouring CNF: for each number its comment and the clauses that rule
/// out its codes `slots..codes`, then for each pair its comment and one clause per colour.
fn cnf_lines(nodes: u32, slots: u32, codes: u32, bits: u32, pairs: &Vec<(u32, u32)>) -> (lines: Vec<NsLine>)
    requires
        nodes < 0x4000_0000,
        bits <= 31,
        nodes * bits <= u32::MAX,
        slots <= codes,
        forall|t: int| 0 <= t < pairs.len() ==> square_pair(#[trigger] pairs@[t].0 as int, pairs@[t].1 as int, nodes as int),
    ensures
        ns_view(lines@) == numbers_lines(nodes as int, slots as int, codes as int, bits as int)
            + pairs_lines(pairs@, pairs.len() as int, slots as int, bits as int),
{
    let mut lines: Vec<NsLine> = Vec::new();
    let mut i: u32 = 1;
    proof {
        assert(ns_view(lines@) =~= numbers_lines(0, slots as int, codes as int, bits as int));
    }
    while i <= nodes
        invariant
            nodes < 0x4000_0000,
            bits <= 31,
            nodes * bits <= u32::MAX,
            slots <= codes,
            1 <= i <= nodes + 1,
            ns_view(lines@) == numbers_lines(i - 1, slots as int, codes as int, bits as int),
        decreases nodes + 1 - i,
    {
        proof {
            assert(i * bits <= nodes * bits) by (nonlinear_arith)
                requires
                    i <= nodes,
                    bits >= 0,
            ;
            lemma_ns_push(lines@, NsLine::Number(i));
        }
        let ghost before = ns_view(lines@);
        lines.push(NsLine::Number(i));
        let mut idx = slots;
        while idx < codes
            invariant
                bits <= 31,
                i * bits <= u32::MAX,
                1 <= i,
                slots <= idx <= codes,
                ns_view(lines@) == before + seq![NsLineSpec::Number(i as int)] + Seq::new(
                    (idx - slots) as nat,
                    |t: int| NsLineSpec::Clause(number_lits(i as int, (slots + t) as u32, bits as int)),
                ),
            decreases codes - idx,
        {
            let c = number_literals(i, idx, bits);
            proof {
                lemma_ns_push(lines@, NsLine::Clause(c));
            }
            lines.push(NsLine::Clause(c));
            proof {
                assert(ns_view(lines@) =~= before + seq![NsLineSpec::Number(i as int)] + Seq::new(
                    (idx + 1 - slots) as nat,
                    |t: int| NsLineSpec::Clause(number_lits(i as int, (slots + t) as u32, bits as int)),
                ));
            }
            idx += 1;
        }
        proof {
            assert(ns_view(lines@) =~= numbers_lines(i as int, slots as int, codes as int, bits as int));
        }
        i += 1;
    }
    let ghost mid = ns_view(lines@);
    proof {
        assert(ns_view(lines@) =~= mid + pairs_lines(pairs@, 0, slots as int, bits as int));
    }
    let mut p: usize = 0;
    while p < pairs.len()
        invariant
            nodes < 0x4000_0000,
            bits <= 31,
            nodes * bits <= u32::MAX,
            0 <= p <= pairs.len(),
            forall|t: int| 0 <= t < pairs.len() ==> square_pair(#[trigger] pairs@[t].0 as int, pairs@[t].1 as int, nodes as int),
            ns_view(lines@) == mid + pairs_lines(pairs@, p as int, slots as int, bits as int),
        decreases pairs.len() - p,
    {
        let (a, b) = pairs[p];
        proof {
            assert(square_pair(pairs@[p as int].0 as int, pairs@[p as int].1 as int, nodes as int));
            assert(a * bits <= nodes * bits && b * bits <= nodes * bits) by (nonlinear_arith)
                requires
                    a <= nodes,
                    b <= nodes,
                    bits >= 0,
            ;
            lemma_ns_push(lines@, NsLine::Pair(a, b));
        }
        let ghost before = ns_view(lines@);
        lines.push(NsLine::Pair(a, b));
        let mut idx: u32 = 0;
        while idx < slots
            invariant
                bits <= 31,
                a * bits <= u32::MAX,
                b * bits <= u32::MAX,
                1 <= a,
                1 <= b,
                0 <= idx <= slots,
                ns_view(lines@) == before + seq![NsLineSpec::Pair(a as int, b as int)] + Seq::new(
                    idx as nat,
                    |t: int| NsLineSpec::Clause(number_lits(a as int, t as u32, bits as int) + number_lits(b as int, t as u32, bits as int)),
                ),
            decreases slots - idx,
        {
            let mut c = number_literals(a, idx, bits);
            let mut d = number_literals(b, idx, bits);
            let ghost cv = c@;
            let ghost dv = d@;
            c.append(&mut d);
            proof {
                assert(c@.map_values(|x: i64| x as int) =~= cv.map_values(|x: i64| x as int) + dv.map_values(|x: i64| x as int));
                lemma_ns_push(lines@, NsLine::Clause(c));
            }
            lines.push(NsLine::Clause(c));
            proof {
                assert(ns_view(lines@) =~= before + seq![NsLineSpec::Pair(a as int, b as int)] + Seq::new(
                    (idx + 1) as nat,
                    |t: int| NsLineSpec::Clause(number_lits(a as int, t as u32, bits as int) + number_lits(b as int, t as u32, bits as int)),
                ));
            }
            idx += 1;
        }
        proof {
            assert(ns_view(lines@) =~= mid + pairs_lines(pairs@, p + 1, slots as int, bits as int));
        }
        p += 1;
    }
    lines
}

/// The CNF that colours `1..=nodes` with `slots` colours so that no two numbers that sum to
/// a square share a colour: each number's codes from `slots` up to the next power of two
/// are ruled out, and for each pair of [`square_pairs`] each colour is ruled out for the
/// two together. `None` when the variables or the clauses are more than `u32` counts. Its
/// models are the colourings (see [`lemma_ns_models`]).
#[verifier::spinoff_prover]
pub fn no_square_cnf(nodes: u32, slots: u32) -> (r: Option<NoSquareCnf>)
    requires
        nodes < 0x4000_0000,
        slots <= 0x8000_0000,
    ensures
        r matches Some(c) ==> {
            &&& two_pow(c.bits as nat) == c.codes
            &&& slots <= c.codes
            &&& (c.bits == 0 || two_pow((c.bits - 1) as nat) < slots)
            &&& c.vars == nodes * c.bits
            &&& c.clauses == nodes * (c.codes - slots) + slots * c.pairs.len()
        },
        r matches Some(c) ==> square_listing(c.pairs@, nodes as int),
        r is None <==> exists|b: nat, p: Seq<(u32, u32)>| #[trigger] ns_too_big(nodes as int, slots as int, b, p),
        r matches Some(c) ==> {
            &&& ns_view(c.lines@) == numbers_lines(nodes as int, slots as int, c.codes as int, c.bits as int)
                + pairs_lines(c.pairs@, c.pairs.len() as int, slots as int, c.bits as int)
            &&& ns_clause_count(ns_view(c.lines@)) == c.clauses
        },
        r matches Some(c) ==> forall|v: spec_fn(int) -> bool|
            #[trigger] ns_satisfied(v, ns_view(c.lines@)) <==> colouring_ok(v, nodes as int, slots as int, c.bits as int),
{
    let mut codes: u64 = 1;
    let mut bits: u32 = 0;
    while codes < slots as u64
        invariant
            slots <= 0x8000_0000,
            codes == two_pow(bits as nat),
            bits == 0 || two_pow((bits - 1) as nat) < slots,
            codes <= 0x8000_0000,
            bits <= 31,
        decreases 0x8000_0000 - codes,
    {
        proof {
            reveal_with_fuel(two_pow, 2);
            lemma_two_pow_30();
            assert(two_pow(31) == 2 * two_pow(30));
            if bits >= 31 {
                lemma_two_pow_monotone(31, bits as nat);
            }
            lemma_two_pow_monotone((bits + 1) as nat, 31);
            assert(two_pow((bits + 1) as nat) == 2 * two_pow(bits as nat));
        }
        codes = codes * 2;
        bits = bits + 1;
    }
    let pairs = square_pairs(nodes);
    proof {
        assert(nodes as u64 * bits as u64 <= 0x4000_0000 * 31) by (nonlinear_arith)
            requires
                nodes < 0x4000_0000,
                bits <= 31,
        ;
        assert(nodes as u128 * (codes - slots as u64) as u128 <= 0x4000_0000 * 0x8000_0000) by (nonlinear_arith)
            requires
                nodes < 0x4000_0000,
                codes >= slots,
                codes - slots <= 0x8000_0000,
        ;
        assert(slots as u128 * pairs.len() as u128 <= 0x8000_0000 * 0x1_0000_0000_0000_0000) by (nonlinear_arith)
            requires
                slots <= 0x8000_0000,
                pairs.len() <= 0xffff_ffff_ffff_ffff,
        ;
    }
    let vars_wide: u64 = nodes as u64 * bits as u64;
    if vars_wide > u32::MAX as u64 {
        proof {
            assert(ns_too_big(nodes as int, slots as int, bits as nat, pairs@));
        }
        return None;
    }
    let clauses_wide: u128 = nodes as u128 * (codes - slots as u64) as u128 + slots as u128 * pairs.len() as u128;
    if clauses_wide > u32::MAX as u128 {
        proof {
            assert(ns_too_big(nodes as int, slots as int, bits as nat, pairs@));
        }
        return None;
    }
    proof {
        assert forall|b: nat, p: Seq<(u32, u32)>| !#[trigger] ns_too_big(nodes as int, slots as int, b, p) by {
            if ns_too_big(nodes as int, slots as int, b, p) {
                lemma_slot_bits_unique(slots as int, b, bits as nat);
                lemma_listing_len(p, pairs@, nodes as int);
                lemma_listing_len(pairs@, p, nodes as int);
            }
        }
    }
    let codes = codes as u32;
    let lines = cnf_lines(nodes, slots, codes, bits, &pairs);
    let vars = vars_wide as u32;
    let clauses = clauses_wide as u32;
    proof {
        lemma_ns_total(nodes as int, slots as int, codes as int, bits as int, pairs@);
        assert(ns_view(lines@) == numbers_lines(nodes as int, slots as int, codes as int, bits as int)
            + pairs_lines(pairs@, pairs.len() as int, slots as int, bits as int));
        assert(ns_clause_count(ns_view(lines@)) == clauses);
        lemma_ns_models_all(nodes as int, slots as int, bits as int, pairs@);
    }
    let cnf = NoSquareCnf { pairs, bits, codes, vars, clauses, lines };
    Some(cnf)
}

proof fn lemma_ns_add(a: Seq<NsLineSpec>, b: Seq<NsLineSpec>)
    ensures
        ns_clause_count(a + b) == ns_clause_count(a) + ns_clause_count(b),
    decreases b.len(),
{
    if b.len() > 0 {
        lemma_ns_add(a, b.drop_last());
        assert((a + b).drop_last() =~= a + b.drop_last());
    } else {
        assert(a + b =~= a);
    }
}

proof fn lemma_ns_clauses(n: nat, f: spec_fn(int) -> Seq<int>)
    ensures
        ns_clause_count(Seq::new(n, |k: int| NsLineSpec::Clause(f(k)))) == n,
    decreases n,
{
    if n > 0 {
        lemma_ns_clauses((n - 1) as nat, f);
        assert(Seq::new(n, |k: int| NsLineSpec::Clause(f(k))).drop_last() =~= Seq::new((n - 1) as nat, |k: int| NsLineSpec::Clause(f(k))));
    }
}

proof fn lemma_ns_one(x: NsLineSpec)
    requires
        !(x is Clause),
    ensures
        ns_clause_count(seq![x]) == 0,
{
    reveal_with_fuel(ns_clause_count, 2);
    assert(seq![x].drop_last() =~= Seq::<NsLineSpec>::empty());
}

proof fn lemma_ns_numbers(n: int, slots: int, codes: int, bits: int)
    requires
        0 <= n,
        slots <= codes,
    ensures
        ns_clause_count(numbers_lines(n, slots, codes, bits)) == n * (codes - slots),
    decreases n,
{
    if n > 0 {
        lemma_ns_numbers(n - 1, slots, codes, bits);
        let f = |t: int| number_lits(n, (slots + t) as u32, bits);
        lemma_ns_clauses((codes - slots) as nat, f);
        assert(Seq::new((codes - slots) as nat, |t: int| NsLineSpec::Clause(number_lits(n, (slots + t) as u32, bits)))
            =~= Seq::new((codes - slots) as nat, |t: int| NsLineSpec::Clause(f(t))));
        lemma_ns_one(NsLineSpec::Number(n));
        lemma_ns_add(seq![NsLineSpec::Number(n)], Seq::new((codes - slots) as nat, |t: int| NsLineSpec::Clause(f(t))));
        lemma_ns_add(numbers_lines(n - 1, slots, codes, bits), number_lines(n, slots, codes, bits));
        assert((n - 1) * (codes - slots) + (codes - slots) == n * (codes - slots)) by (nonlinear_arith);
    } else {
        assert(n * (codes - slots) == 0) by (nonlinear_arith)
            requires
                n == 0,
        ;
        assert(ns_clause_count(numbers_lines(n, slots, codes, bits)) == 0);
    }
}

proof fn lemma_ns_pairs(pairs: Seq<(u32, u32)>, n: int, slots: int, bits: int)
    requires
        0 <= n,
        0 <= slots,
    ensures
        ns_clause_count(pairs_lines(pairs, n, slots, bits)) == n * slots,
    decreases n,
{
    if n > 0 {
        lemma_ns_pairs(pairs, n - 1, slots, bits);
        let i = pairs[n - 1].0 as int;
        let j = pairs[n - 1].1 as int;
        let f = |idx: int| number_lits(i, idx as u32, bits) + number_lits(j, idx as u32, bits);
        lemma_ns_clauses(slots as nat, f);
        assert(Seq::new(slots as nat, |idx: int| NsLineSpec::Clause(number_lits(i, idx as u32, bits) + number_lits(j, idx as u32, bits)))
            =~= Seq::new(slots as nat, |idx: int| NsLineSpec::Clause(f(idx))));
        lemma_ns_one(NsLineSpec::Pair(i, j));
        lemma_ns_add(seq![NsLineSpec::Pair(i, j)], Seq::new(slots as nat, |idx: int| NsLineSpec::Clause(f(idx))));
        lemma_ns_add(pairs_lines(pairs, n - 1, slots, bits), pair_lines(i, j, slots, bits));
        assert((n - 1) * slots + slots == n * slots) by (nonlinear_arith);
    } else {
        assert(n * slots == 0) by (nonlinear_arith)
            requires
                n == 0,
        ;
        assert(ns_clause_count(pairs_lines(pairs, n, slots, bits)) == 0);
    }
}

/// The header's clause count of the colouring CNF is the number of its clauses.
pub proof fn lemma_ns_total(nodes: int, slots: int, codes: int, bits: int, pairs: Seq<(u32, u32)>)
    requires
        0 <= nodes,
        0 <= slots <= codes,
    ensures
        ns_clause_count(numbers_lines(nodes, slots, codes, bits) + pairs_lines(pairs, pairs.len() as int, slots, bits))
            == nodes * (codes - slots) + slots * pairs.len(),
{
    lemma_ns_numbers(nodes, slots, codes, bits);
    lemma_ns_pairs(pairs, pairs.len() as int, slots, bits);
    lemma_ns_add(numbers_lines(nodes, slots, codes, bits), pairs_lines(pairs, pairs.len() as int, slots, bits));
    assert(pairs.len() * slots == slots * pairs.len()) by (nonlinear_arith);
}

/// Every clause among the lines holds.
pub open spec fn ns_satisfied(v: spec_fn(int) -> bool, s: Seq<NsLineSpec>) -> bool {
    forall|t: int| 0 <= t < s.len() ==> (#[trigger] s[t] matches NsLineSpec::Clause(c) ==> clause_holds(v, c))
}

/// The value of the low `n` bits of number `i`'s colour under `v`: bit `b` is variable
/// `i * bits - b`.
pub open spec fn colour_low(v: spec_fn(int) -> bool, i: int, bits: int, n: nat) -> nat
    decreases n,
{
    if n == 0 {
        0
    } else {
        colour_low(v, i, bits, (n - 1) as nat) + if v(i * bits - (n - 1)) { two_pow((n - 1) as nat) } else { 0 }
    }
}

/// The colour of number `i` under `v`.
pub open spec fn colour(v: spec_fn(int) -> bool, i: int, bits: int) -> nat {
    colour_low(v, i, bits, bits as nat)
}

/// Under `v` every number of `1..=nodes` has a colour below `slots`, and no two numbers
/// that sum to a square share their colour.
pub open spec fn colouring_ok(v: spec_fn(int) -> bool, nodes: int, slots: int, bits: int) -> bool {
    &&& forall|i: int| 1 <= i <= nodes ==> #[trigger] colour(v, i, bits) < slots
    &&& forall|j: int, k: int| square_pair(j, k, nodes) ==> #[trigger] colour(v, j, bits) != #[trigger] colour(v, k, bits)
}

/// The bit `b` of `idx`, as [`bit_lit`] reads it.
pub open spec fn idx_bit(idx: u32, b: int) -> bool {
    (idx >> (b as u32)) & 1u32 == 1u32
}

proof fn lemma_colour_low_bound(v: spec_fn(int) -> bool, i: int, bits: int, n: nat)
    ensures
        colour_low(v, i, bits, n) < two_pow(n),
    decreases n,
{
    if n > 0 {
        lemma_colour_low_bound(v, i, bits, (n - 1) as nat);
    }
}

/// The low `n` bits of the colour are those of `idx` exactly when each bit agrees.
proof fn lemma_colour_bits(v: spec_fn(int) -> bool, i: int, bits: int, n: nat, idx: u32)
    requires
        n <= 32,
    ensures
        colour_low(v, i, bits, n) == (idx as nat) % two_pow(n)
            <==> forall|b: int| 0 <= b < n ==> v(i * bits - b) == #[trigger] idx_bit(idx, b),
    decreases n,
{
    if n == 0 {
        assert(two_pow(0) == 1);
        assert((idx as nat) % 1 == 0);
    } else {
        let m = (n - 1) as nat;
        lemma_colour_bits(v, i, bits, m, idx);
        lemma_colour_low_bound(v, i, bits, m);
        lemma_two_pow_is_pow2(m);
        let p = two_pow(m);
        assert(p > 0) by {
            lemma_two_pow_monotone(0, m);
        }
        lemma_breakdown(idx as int, p as int, 2);
        assert(two_pow(n) == p * 2);
        let sh = m as u32;
        lemma_u32_shr_is_div(idx, sh);
        let q = idx >> sh;
        assert(q == (idx as nat) / p);
        assert((q & 1u32 == 1u32) <==> (q % 2 == 1)) by (bit_vector);
        let low = (idx as nat) % p;
        let c = colour_low(v, i, bits, m);
        assert(0 <= low < p) by {
            vstd::arithmetic::div_mod::lemma_mod_bound(idx as int, p as int);
        }
        let top: int = if v(i * bits - m) { 1 } else { 0 };
        let want: int = ((idx as nat) / p) as int % 2;
        assert(colour_low(v, i, bits, n) == c + top * p);
        assert((idx as nat) % two_pow(n) == p * want + low);
        if colour_low(v, i, bits, n) == (idx as nat) % two_pow(n) {
            assert(c + top * p == p * want + low);
            assert(c == low && top == want) by (nonlinear_arith)
                requires
                    c + top * p == p * want + low,
                    0 <= c < p,
                    0 <= low < p,
                    0 <= top <= 1,
                    0 <= want <= 1,
            ;
            assert forall|b: int| 0 <= b < n implies v(i * bits - b) == #[trigger] idx_bit(idx, b) by {
                if b == m {
                    assert(idx_bit(idx, b) == (q & 1u32 == 1u32));
                }
            }
        }
        if forall|b: int| 0 <= b < n ==> v(i * bits - b) == #[trigger] idx_bit(idx, b) {
            assert forall|b: int| 0 <= b < m implies v(i * bits - b) == #[trigger] idx_bit(idx, b) by {
                assert(v(i * bits - b) == idx_bit(idx, b));
            }
            assert(v(i * bits - m) == idx_bit(idx, m as int));
            assert(idx_bit(idx, m as int) == (q & 1u32 == 1u32));
            assert(top == want);
            assert(c == low);
            assert(c + top * p == p * want + low) by (nonlinear_arith)
                requires
                    c == low,
                    top == want,
            ;
        }
    }
}

/// The clause of [`number_lits`] holds exactly when number `i` does not have colour `idx`.
proof fn lemma_number_clause(v: spec_fn(int) -> bool, i: int, idx: u32, bits: int)
    requires
        i >= 1,
        0 <= bits <= 32,
        idx < two_pow(bits as nat),
    ensures
        clause_holds(v, number_lits(i, idx, bits)) <==> colour(v, i, bits) != idx,
{
    let c = number_lits(i, idx, bits);
    lemma_colour_bits(v, i, bits, bits as nat, idx);
    vstd::arithmetic::div_mod::lemma_small_mod(idx as nat, two_pow(bits as nat));
    assert(i * bits >= bits) by (nonlinear_arith)
        requires
            i >= 1,
            bits >= 0,
    ;
    if clause_holds(v, c) {
        let t = choose|t: int| 0 <= t < c.len() && lit_holds(v, #[trigger] c[t]);
        let b = bits - 1 - t;
        assert(c[t] == bit_lit(i, idx, b, bits));
        assert(v(i * bits - b) != idx_bit(idx, b));
    }
    if colour(v, i, bits) != idx {
        let b = choose|b: int| 0 <= b < bits && v(i * bits - b) != #[trigger] idx_bit(idx, b);
        let t = bits - 1 - b;
        assert(c[t] == bit_lit(i, idx, b, bits));
        assert(lit_holds(v, c[t]));
    }
}

proof fn lemma_satisfied_concat(v: spec_fn(int) -> bool, a: Seq<NsLineSpec>, b: Seq<NsLineSpec>)
    ensures
        ns_satisfied(v, a + b) <==> ns_satisfied(v, a) && ns_satisfied(v, b),
{
    if ns_satisfied(v, a + b) {
        assert forall|t: int| 0 <= t < a.len() implies (#[trigger] a[t] matches NsLineSpec::Clause(c) ==> clause_holds(v, c)) by {
            assert((a + b)[t] == a[t]);
        }
        assert forall|t: int| 0 <= t < b.len() implies (#[trigger] b[t] matches NsLineSpec::Clause(c) ==> clause_holds(v, c)) by {
            assert((a + b)[a.len() + t] == b[t]);
        }
    }
    if ns_satisfied(v, a) && ns_satisfied(v, b) {
        assert forall|t: int| 0 <= t < (a + b).len() implies (#[trigger] (a + b)[t] matches NsLineSpec::Clause(c) ==> clause_holds(v, c)) by {
            if t < a.len() {
                assert((a + b)[t] == a[t]);
            } else {
                assert((a + b)[t] == b[t - a.len()]);
            }
        }
    }
}

/// The clauses of the numbers `1..=n` hold exactly when each has a colour below `slots`.
proof fn lemma_numbers_models(v: spec_fn(int) -> bool, n: int, slots: int, bits: int)
    requires
        0 <= bits <= 31,
        0 <= slots <= two_pow(bits as nat),
    ensures
        ns_satisfied(v, numbers_lines(n, slots, two_pow(bits as nat) as int, bits)) <==> forall|i: int|
            1 <= i <= n ==> #[trigger] colour(v, i, bits) < slots,
    decreases n,
{
    let codes = two_pow(bits as nat) as int;
    if n > 0 {
        lemma_numbers_models(v, n - 1, slots, bits);
        let rest = numbers_lines(n - 1, slots, codes, bits);
        let own = number_lines(n, slots, codes, bits);
        lemma_satisfied_concat(v, rest, own);
        lemma_colour_low_bound(v, n, bits, bits as nat);
        lemma_two_pow_monotone(bits as nat, 31);
        lemma_two_pow_30();
        assert(two_pow(31) == 2 * two_pow(30));
        if ns_satisfied(v, own) && colour(v, n, bits) >= slots {
            let t = colour(v, n, bits) - slots;
            assert(own[1 + t] == NsLineSpec::Clause(number_lits(n, (slots + t) as u32, bits)));
            lemma_number_clause(v, n, (slots + t) as u32, bits);
        }
        if colour(v, n, bits) < slots {
            assert forall|t: int| 0 <= t < own.len() implies (#[trigger] own[t] matches NsLineSpec::Clause(c) ==> clause_holds(v, c)) by {
                if t >= 1 {
                    lemma_number_clause(v, n, (slots + t - 1) as u32, bits);
                }
            }
        }
        if forall|i: int| 1 <= i <= n ==> #[trigger] colour(v, i, bits) < slots {
            assert(colour(v, n, bits) < slots);
        }
    }
}

/// The clauses of the first `n` pairs hold exactly when, for each of them, the two numbers
/// do not share a colour below `slots`.
proof fn lemma_pairs_models(v: spec_fn(int) -> bool, pairs: Seq<(u32, u32)>, n: int, slots: int, bits: int)
    requires
        0 <= bits <= 31,
        0 <= slots <= two_pow(bits as nat),
        n <= pairs.len(),
        forall|t: int| 0 <= t < pairs.len() ==> #[trigger] pairs[t].0 >= 1 && pairs[t].1 >= 1,
    ensures
        ns_satisfied(v, pairs_lines(pairs, n, slots, bits)) <==> forall|t: int|
            0 <= t < n ==> !(colour(v, (#[trigger] pairs[t]).0 as int, bits) == colour(v, pairs[t].1 as int, bits)
                && colour(v, pairs[t].0 as int, bits) < slots),
    decreases n,
{
    if n > 0 {
        lemma_pairs_models(v, pairs, n - 1, slots, bits);
        let (i, j) = (pairs[n - 1].0 as int, pairs[n - 1].1 as int);
        let rest = pairs_lines(pairs, n - 1, slots, bits);
        let own = pair_lines(i, j, slots, bits);
        lemma_satisfied_concat(v, rest, own);
        lemma_two_pow_monotone(bits as nat, 31);
        lemma_two_pow_30();
        assert(two_pow(31) == 2 * two_pow(30));
        let bad = colour(v, i, bits) == colour(v, j, bits) && colour(v, i, bits) < slots;
        if ns_satisfied(v, own) && bad {
            let idx = colour(v, i, bits) as int;
            assert(own[1 + idx] == NsLineSpec::Clause(number_lits(i, idx as u32, bits) + number_lits(j, idx as u32, bits)));
            lemma_clause_concat(v, number_lits(i, idx as u32, bits), number_lits(j, idx as u32, bits));
            lemma_number_clause(v, i, idx as u32, bits);
            lemma_number_clause(v, j, idx as u32, bits);
        }
        if !bad {
            assert forall|t: int| 0 <= t < own.len() implies (#[trigger] own[t] matches NsLineSpec::Clause(c) ==> clause_holds(v, c)) by {
                if t >= 1 {
                    let idx = (t - 1) as u32;
                    lemma_clause_concat(v, number_lits(i, idx, bits), number_lits(j, idx, bits));
                    lemma_number_clause(v, i, idx, bits);
                    lemma_number_clause(v, j, idx, bits);
                }
            }
        }
        if forall|t: int| 0 <= t < n ==> !(colour(v, (#[trigger] pairs[t]).0 as int, bits) == colour(v, pairs[t].1 as int, bits)
            && colour(v, pairs[t].0 as int, bits) < slots) {
            assert(pairs[n - 1] == pairs[n - 1]);
        }
    }
}

/// The models of the colouring CNF are the colourings: an assignment satisfies every
/// clause exactly when it gives each number of `1..=nodes` a colour below `slots` and no
/// two numbers that sum to a square the same colour. `pairs` lists the pairs that sum to a
/// square, as [`square_pairs`] does.
pub proof fn lemma_ns_models(
    v: spec_fn(int) -> bool,
    nodes: int,
    slots: int,
    bits: int,
    pairs: Seq<(u32, u32)>,
)
    requires
        0 <= nodes <= u32::MAX,
        0 <= bits <= 31,
        0 <= slots <= two_pow(bits as nat),
        square_listing(pairs, nodes),
    ensures
        ns_satisfied(v, numbers_lines(nodes, slots, two_pow(bits as nat) as int, bits) + pairs_lines(pairs, pairs.len() as int, slots, bits))
            <==> colouring_ok(v, nodes, slots, bits),
{
    let codes = two_pow(bits as nat) as int;
    let nl = numbers_lines(nodes, slots, codes, bits);
    let pl = pairs_lines(pairs, pairs.len() as int, slots, bits);
    lemma_satisfied_concat(v, nl, pl);
    lemma_numbers_models(v, nodes, slots, bits);
    assert forall|t: int| 0 <= t < pairs.len() implies #[trigger] pairs[t].0 >= 1 && pairs[t].1 >= 1 by {
        assert(square_pair(pairs[t].0 as int, pairs[t].1 as int, nodes));
    }
    lemma_pairs_models(v, pairs, pairs.len() as int, slots, bits);
    if ns_satisfied(v, nl) && ns_satisfied(v, pl) {
        assert forall|j: int, k: int| square_pair(j, k, nodes) implies #[trigger] colour(v, j, bits) != #[trigger] colour(v, k, bits) by {
            let t = choose|t: int| 0 <= t < pairs.len() && #[trigger] pairs[t] == (j as u32, k as u32);
            assert(pairs[t].0 as int == j && pairs[t].1 as int == k);
            assert(colour(v, j, bits) < slots);
        }
    }
    if colouring_ok(v, nodes, slots, bits) {
        assert forall|t: int| 0 <= t < pairs.len() implies !(colour(v, (#[trigger] pairs[t]).0 as int, bits) == colour(v, pairs[t].1 as int, bits)
            && colour(v, pairs[t].0 as int, bits) < slots) by {
            assert(square_pair(pairs[t].0 as int, pairs[t].1 as int, nodes));
        }
    }
}

/// [`lemma_ns_models`] for every assignment.
proof fn lemma_ns_models_all(nodes: int, slots: int, bits: int, pairs: Seq<(u32, u32)>)
    requires
        0 <= nodes <= u32::MAX,
        0 <= bits <= 31,
        0 <= slots <= two_pow(bits as nat),
        square_listing(pairs, nodes),
    ensures
        forall|v: spec_fn(int) -> bool|
            #[trigger] ns_satisfied(v, numbers_lines(nodes, slots, two_pow(bits as nat) as int, bits) + pairs_lines(pairs, pairs.len() as int, slots, bits))
                <==> colouring_ok(v, nodes, slots, bits),
{
    assert forall|v: spec_fn(int) -> bool|
        #[trigger] ns_satisfied(v, numbers_lines(nodes, slots, two_pow(bits as nat) as int, bits) + pairs_lines(pairs, pairs.len() as int, slots, bits))
            <==> colouring_ok(v, nodes, slots, bits) by {
        lemma_ns_models(v, nodes, slots, bits, pairs);
    }
}

/// One number of bits codes the colours.
proof fn lemma_slot_bits_unique(slots: int, b1: nat, b2: nat)
    requires
        slot_bits(slots, b1),
        slot_bits(slots, b2),
    ensures
        b1 == b2,
{
    if b1 < b2 {
        lemma_two_pow_monotone(b1, (b2 - 1) as nat);
    } else if b2 < b1 {
        lemma_two_pow_monotone(b2, (b1 - 1) as nat);
    }
}

/// The place in `q` of an entry of it.
spec fn place_in(q: Seq<(u32, u32)>, x: (u32, u32)) -> int {
    choose|u: int| 0 <= u < q.len() && q[u] == x
}

/// Each entry `p[t]` stands in `q` at place `t` or later.
proof fn lemma_place_grows(p: Seq<(u32, u32)>, q: Seq<(u32, u32)>, nodes: int, t: int)
    requires
        square_listing(p, nodes),
        square_listing(q, nodes),
        0 <= t < p.len(),
    ensures
        0 <= place_in(q, p[t]) < q.len(),
        q[place_in(q, p[t])] == p[t],
        place_in(q, p[t]) >= t,
    decreases t,
{
    assert(square_pair(p[t].0 as int, p[t].1 as int, nodes));
    assert(exists|u: int| 0 <= u < q.len() && #[trigger] q[u] == ((p[t].0 as int) as u32, (p[t].1 as int) as u32));
    assert(p[t] == ((p[t].0 as int) as u32, (p[t].1 as int) as u32));
    if t > 0 {
        lemma_place_grows(p, q, nodes, t - 1);
        let u0 = place_in(q, p[t - 1]);
        let u1 = place_in(q, p[t]);
        assert(pair_before(p[t - 1], p[t]));
        if u1 == u0 {
            assert(p[t - 1] == p[t]);
        } else if u1 < u0 {
            assert(pair_before(q[u1], q[u0]));
        }
    }
}

/// A listing of the square pairs is no longer than another.
proof fn lemma_listing_len(p: Seq<(u32, u32)>, q: Seq<(u32, u32)>, nodes: int)
    requires
        square_listing(p, nodes),
        square_listing(q, nodes),
    ensures
        p.len() <= q.len(),
{
    if p.len() > 0 {
        lemma_place_grows(p, q, nodes, p.len() - 1);
    }
}

} // verus!
