//! Encoding a binary multiplication as a SAT problem in CNF: bits are constants or
//! variables, and every AND or XOR of two variables gets a fresh variable with its
//! defining clauses.
use vstd::prelude::*;
use vstd::string::StringSliceAdditionalSpecFns;
use vstd::arithmetic::power2::{lemma_pow2_pos, lemma_pow2_unfold, pow2};
use vstd::arithmetic::div_mod::{lemma_fundamental_div_mod, lemma_mod_bound};
use crate::cnf::{clause_holds, lit_holds};
use crate::text::{dec, digit_char, nat_dec, push_int, push_nat};

verus! {

/// Lexicographic order on pairs.
pub open spec fn pair_lt(a: (i32, i32), b: (i32, i32)) -> bool {
    a.0 < b.0 || (a.0 == b.0 && a.1 < b.1)
}

fn pair_less(a: (i32, i32), b: (i32, i32)) -> (r: bool)
    ensures
        r == pair_lt(a, b),
{
    a.0 < b.0 || (a.0 == b.0 && a.1 < b.1)
}

/// Entries strictly increasing by key.
pub open spec fn keys_sorted<V>(s: Seq<((i32, i32), V)>) -> bool {
    forall|i: int, j: int| 0 <= i < j < s.len() ==> pair_lt(s[i].0, s[j].0)
}

/// Some entry of `s` has key `k`.
pub open spec fn has_key<V>(s: Seq<((i32, i32), V)>, k: (i32, i32)) -> bool {
    exists|i: int| 0 <= i < s.len() && #[trigger] s[i].0 == k
}

/// A map from pairs of integers, listed in increasing order of keys.
pub struct PairMap<V> {
    entries: Vec<((i32, i32), V)>,
}

impl<V: Copy> PairMap<V> {
    /// The entries, in increasing order of keys.
    pub closed spec fn listing(&self) -> Seq<((i32, i32), V)> {
        self.entries@
    }

    pub closed spec fn wf(&self) -> bool {
        keys_sorted(self.entries@)
    }

    /// The entries, in no order.
    pub open spec fn contents(&self) -> Set<((i32, i32), V)> {
        self.listing().to_set()
    }

    pub fn new() -> (r: Self)
        ensures
            r.wf(),
            r.listing() == Seq::<((i32, i32), V)>::empty(),
    {
        Self { entries: Vec::new() }
    }

    pub fn len(&self) -> (r: usize)
        ensures
            r == self.listing().len(),
    {
        self.entries.len()
    }

    /// The `i`-th entry in increasing order of keys.
    pub fn entry(&self, i: usize) -> (r: ((i32, i32), V))
        requires
            i < self.listing().len(),
        ensures
            r == self.listing()[i as int],
    {
        self.entries[i]
    }

    /// The value for key `k`, if there is one.
    pub fn find(&self, k: (i32, i32)) -> (r: Option<V>)
        requires
            self.wf(),
        ensures
            r is None <==> !has_key(self.listing(), k),
            r matches Some(v) ==> exists|i: int|
                0 <= i < self.listing().len() && #[trigger] self.listing()[i] == (k, v),
    {
        let mut i: usize = 0;
        while i < self.entries.len()
            invariant
                0 <= i <= self.entries.len(),
                forall|j: int| 0 <= j < i ==> self.entries@[j].0 != k,
            decreases self.entries.len() - i,
        {
            let key = self.entries[i].0;
            if key.0 == k.0 && key.1 == k.1 {
                proof {
                    assert(self.listing()[i as int] == (k, self.entries[i as int].1));
                }
                return Some(self.entries[i].1);
            }
            i += 1;
        }
        None
    }

    /// Adds the entry `(k, v)` for a new key, in its place in the order.
    pub fn insert_new(&mut self, k: (i32, i32), v: V)
        requires
            old(self).wf(),
            !has_key(old(self).listing(), k),
        ensures
            final(self).wf(),
            exists|p: int|
                0 <= p <= old(self).listing().len() && final(self).listing() == old(
                    self,
                ).listing().insert(p, (k, v)),
    {
        let mut i: usize = 0;
        while i < self.entries.len() && pair_less(self.entries[i].0, k)
            invariant
                0 <= i <= self.entries.len(),
                forall|j: int| 0 <= j < i ==> pair_lt(self.entries@[j].0, k),
            decreases self.entries.len() - i,
        {
            i += 1;
        }
        let ghost before = self.entries@;
        self.entries.insert(i, (k, v));
        proof {
            assert forall|a: int, b: int| 0 <= a < b < self.entries@.len() implies pair_lt(
                self.entries@[a].0,
                self.entries@[b].0,
            ) by {
                if i < before.len() {
                    assert(!pair_lt(before[i as int].0, k));
                    assert(before[i as int].0 != k);
                }
                if a < i && b > i {
                    if b - 1 > i {
                        assert(pair_lt(before[i as int].0, before[b - 1].0));
                    }
                }
                if a == i && b > i {
                    if b - 1 > i {
                        assert(pair_lt(before[i as int].0, before[b - 1].0));
                    }
                }
            }
        }
    }
}

/// A set of integers, listed in increasing order.
pub struct IntSet {
    items: Vec<i32>,
}

impl IntSet {
    /// The members, in increasing order.
    pub closed spec fn listing(&self) -> Seq<i32> {
        self.items@
    }

    pub closed spec fn wf(&self) -> bool {
        forall|i: int, j: int| 0 <= i < j < self.items@.len() ==> self.items@[i] < self.items@[j]
    }

    /// The members, in no order.
    pub open spec fn contents(&self) -> Set<i32> {
        self.listing().to_set()
    }

    pub fn new() -> (r: Self)
        ensures
            r.wf(),
            r.listing() == Seq::<i32>::empty(),
    {
        Self { items: Vec::new() }
    }

    pub fn len(&self) -> (r: usize)
        ensures
            r == self.listing().len(),
    {
        self.items.len()
    }

    /// The members of a well-formed set are listed in increasing order.
    pub proof fn lemma_increasing(&self)
        requires
            self.wf(),
        ensures
            forall|i: int, j: int| 0 <= i < j < self.listing().len() ==> self.listing()[i] < self.listing()[j],
    {
    }

    pub fn item(&self, i: usize) -> (r: i32)
        requires
            i < self.listing().len(),
        ensures
            r == self.listing()[i as int],
    {
        self.items[i]
    }

    /// Adds `x` unless it is already a member.
    pub fn insert(&mut self, x: i32)
        requires
            old(self).wf(),
        ensures
            final(self).wf(),
            old(self).listing().contains(x) ==> final(self).listing() == old(self).listing(),
            !old(self).listing().contains(x) ==> exists|p: int|
                0 <= p <= old(self).listing().len() && final(self).listing() == old(
                    self,
                ).listing().insert(p, x),
    {
        let mut i: usize = 0;
        while i < self.items.len() && self.items[i] < x
            invariant
                0 <= i <= self.items.len(),
                forall|j: int| 0 <= j < i ==> self.items@[j] < x,
            decreases self.items.len() - i,
        {
            i += 1;
        }
        if i < self.items.len() && self.items[i] == x {
            return;
        }
        let ghost before = self.items@;
        proof {
            assert forall|j: int| 0 <= j < before.len() implies before[j] != x by {
                if j >= i {
                    if j > i {
                        assert(before[i as int] < before[j]);
                    }
                }
            }
        }
        self.items.insert(i, x);
        proof {
            assert forall|a: int, b: int| 0 <= a < b < self.items@.len() implies self.items@[a]
                < self.items@[b] by {
                if b > i && b - 1 > i && a <= i {
                    assert(before[i as int] < before[b - 1]);
                }
            }
        }
    }
}

/// A bit of the encoding: a constant, or variable `n` (`n > 0`) or its negation (`n < 0`).
#[derive(Clone, Copy, Debug, PartialEq, Eq, Structural)]
pub enum Bit {
    Constant(bool),
    Node(i32),
}

/// A bit whose negation can be formed: not the variable `i32::MIN`.
pub open spec fn negatable(b: Bit) -> bool {
    b matches Bit::Node(x) ==> x != i32::MIN
}

/// Two bits that are not two different constants.
pub open spec fn consistent(a: Bit, b: Bit) -> bool {
    match (a, b) {
        (Bit::Constant(x), Bit::Constant(y)) => x == y,
        _ => true,
    }
}

/// The negation of a bit.
pub open spec fn neg_spec(b: Bit) -> Bit {
    match b {
        Bit::Constant(x) => Bit::Constant(!x),
        Bit::Node(x) => Bit::Node(-x as i32),
    }
}

/// The number of variable characters `x` or `X` in `s`.
pub open spec fn x_count(s: Seq<u8>) -> int
    decreases s.len(),
{
    if s.len() == 0 {
        0
    } else {
        x_count(s.drop_last()) + (if s.last() == 0x78 || s.last() == 0x58 { 1int } else { 0int })
    }
}

/// The characters `0`, `1`, `x` and `X`.
pub open spec fn is_bit_char(c: u8) -> bool {
    c == 0x30 || c == 0x31 || c == 0x78 || c == 0x58
}

/// The bit for character `c`, with `n` the variable number if it is one.
pub open spec fn bit_of_char(c: u8, n: int) -> Bit {
    if c == 0x31 {
        Bit::Constant(true)
    } else if c == 0x30 {
        Bit::Constant(false)
    } else {
        Bit::Node(n as i32)
    }
}

/// `v` names one of the variables `1..=node`, plain or negated.
pub open spec fn var_ok(v: int, node: int) -> bool {
    1 <= v <= node || 1 <= -v <= node
}

/// A bit that is a constant or a literal of one of the variables `1..=node`.
pub open spec fn bit_ok(b: Bit, node: int) -> bool {
    match b {
        Bit::Constant(_) => true,
        Bit::Node(v) => var_ok(v as int, node),
    }
}

/// Every entry of an AND or XOR table is on literals of `1..=node` and names one of these
/// variables.
pub open spec fn table_ok(s: Seq<((i32, i32), Bit)>, node: int) -> bool {
    forall|i: int|
        0 <= i < s.len() ==> var_ok((#[trigger] s[i]).0.0 as int, node) && var_ok(s[i].0.1 as int, node)
            && fresh_var(s[i].1, node)
}

/// A bit that is a plain variable of `1..=node`.
pub open spec fn fresh_var(b: Bit, node: int) -> bool {
    match b {
        Bit::Node(z) => 1 <= z <= node,
        Bit::Constant(_) => false,
    }
}

/// Every unit clause is a literal of `1..=node`.
pub open spec fn units_ok(s: Seq<i32>, node: int) -> bool {
    forall|i: int| 0 <= i < s.len() ==> var_ok(#[trigger] s[i] as int, node)
}

/// Every binary clause is on literals of `1..=node`.
pub open spec fn pairs_ok(s: Seq<((i32, i32), ())>, node: int) -> bool {
    forall|i: int| 0 <= i < s.len() ==> var_ok((#[trigger] s[i]).0.0 as int, node) && var_ok(s[i].0.1 as int, node)
}

proof fn lemma_table_grow(s: Seq<((i32, i32), Bit)>, n1: int, n2: int)
    requires
        table_ok(s, n1),
        n1 <= n2,
    ensures
        table_ok(s, n2),
{
}

proof fn lemma_calc_ok(
    l0: Seq<((i32, i32), Bit)>,
    l1: Seq<((i32, i32), Bit)>,
    n0: int,
    n1: int,
    x: i32,
    y: i32,
    r: Bit,
)
    requires
        0 <= n0,
        n1 <= i32::MAX,
        table_ok(l0, n0),
        var_ok(x as int, n0),
        var_ok(y as int, n0),
        has_key(l0, sort_spec(x, y)) ==> {
            &&& exists|i: int| 0 <= i < l0.len() && #[trigger] l0[i] == (sort_spec(x, y), r)
            &&& n1 == n0
            &&& l1 == l0
        },
        !has_key(l0, sort_spec(x, y)) ==> {
            &&& n1 == n0 + 1
            &&& r == Bit::Node(n1 as i32)
            &&& exists|p: int| 0 <= p <= l0.len() && l1 == l0.insert(p, (sort_spec(x, y), r))
        },
    ensures
        n0 <= n1 <= n0 + 1,
        l1.len() + n0 == l0.len() + n1,
        table_ok(l1, n1),
        bit_ok(r, n1),
{
    if has_key(l0, sort_spec(x, y)) {
        let i = choose|i: int| 0 <= i < l0.len() && #[trigger] l0[i] == (sort_spec(x, y), r);
        assert(l0[i].1 == r);
    } else {
        let p = choose|p: int| 0 <= p <= l0.len() && l1 == l0.insert(p, (sort_spec(x, y), r));
        assert((n1 as i32) as int == n1);
        assert(l1[p] == (sort_spec(x, y), r));
        assert forall|i: int| 0 <= i < l1.len() implies var_ok((#[trigger] l1[i]).0.0 as int, n1) && var_ok(l1[i].0.1 as int, n1)
            && fresh_var(l1[i].1, n1) by {
            if i < p {
                assert(l1[i] == l0[i]);
            } else if i > p {
                assert(l1[i] == l0[i - 1]);
            }
        }
    }
}

proof fn lemma_eq_ok(a: Bit, b: Bit, c0: Seq<i32>, c1: Seq<i32>, p0: Seq<((i32, i32), ())>, p1: Seq<((i32, i32), ())>, n: int)
    requires
        eq_effect(a, b, c0, c1, p0, p1),
        units_ok(c0, n),
        pairs_ok(p0, n),
        bit_ok(a, n),
        bit_ok(b, n),
        n <= i32::MAX,
    ensures
        units_ok(c1, n),
        pairs_ok(p1, n),
        c1.len() <= c0.len() + 1,
        p1.len() <= p0.len() + 2,
{
    match (a, b) {
        (Bit::Constant(_), Bit::Constant(_)) => {},
        (Bit::Node(x), Bit::Node(y)) => {
            let k1 = sort_spec(x, -y as i32);
            let k2 = sort_spec(-x as i32, y);
            let mid = choose|mid: Seq<((i32, i32), ())>| key_added(p0, mid, k1) && key_added(mid, p1, k2);
            lemma_key_added_ok(p0, mid, k1, n);
            lemma_key_added_ok(mid, p1, k2, n);
        },
        (Bit::Node(v), Bit::Constant(c)) | (Bit::Constant(c), Bit::Node(v)) => {
            let w: i32 = if c { v } else { -v as i32 };
            if !c0.contains(w) {
                let p = choose|p: int| 0 <= p <= c0.len() && c1 == c0.insert(p, w);
                assert forall|i: int| 0 <= i < c1.len() implies var_ok(#[trigger] c1[i] as int, n) by {
                    if i < p {
                        assert(c1[i] == c0[i]);
                    } else if i > p {
                        assert(c1[i] == c0[i - 1]);
                    }
                }
            }
        },
    }
}

proof fn lemma_key_added_ok(s0: Seq<((i32, i32), ())>, s1: Seq<((i32, i32), ())>, k: (i32, i32), n: int)
    requires
        key_added(s0, s1, k),
        pairs_ok(s0, n),
        var_ok(k.0 as int, n),
        var_ok(k.1 as int, n),
    ensures
        pairs_ok(s1, n),
        s1.len() <= s0.len() + 1,
{
    if !has_key(s0, k) {
        let p = choose|p: int| 0 <= p <= s0.len() && s1 == s0.insert(p, (k, ()));
        assert forall|i: int| 0 <= i < s1.len() implies var_ok((#[trigger] s1[i]).0.0 as int, n) && var_ok(s1[i].0.1 as int, n) by {
            if i < p {
                assert(s1[i] == s0[i]);
            } else if i > p {
                assert(s1[i] == s0[i - 1]);
            }
        }
    }
}

impl Bit {
    /// The negated bit.
    pub fn neg(self) -> (r: Self)
        requires
            negatable(self),
        ensures
            r == neg_spec(self),
    {
        match self {
            Self::Constant(x) => Self::Constant(!x),
            Self::Node(x) => Self::Node(-x),
        }
    }

    /// The pair in increasing order.
    pub fn sort(x: i32, y: i32) -> (r: (i32, i32))
        ensures
            r == (if x < y { (x, y) } else { (y, x) }),
    {
        if x < y {
            (x, y)
        } else {
            (y, x)
        }
    }

    /// The variable for the unordered pair `x, y` in the table `hm`; a new pair gets a
    /// fresh one (the next number after `node`), recorded in `hm`.
    pub fn calc(x: i32, y: i32, node: &mut i32, hm: &mut PairMap<Self>) -> (r: Self)
        requires
            old(hm).wf(),
            *old(node) < i32::MAX,
        ensures
            final(hm).wf(),
            calc_effect(old(hm).listing(), final(hm).listing(), sort_spec(x, y), r, *old(node) as int, *final(node) as int),
            has_key(final(hm).listing(), sort_spec(x, y)),
            exists|i: int|
                0 <= i < final(hm).listing().len() && #[trigger] final(hm).listing()[i] == (
                    sort_spec(x, y),
                    r,
                ),
    {
        let k = Self::sort(x, y);
        match hm.find(k) {
            Some(v) => {
                proof {
                    let i = choose|i: int|
                        0 <= i < hm.listing().len() && #[trigger] hm.listing()[i] == (k, v);
                    assert(hm.listing()[i].0 == k);
                }
                v
            },
            None => {
                *node += 1;
                let v = Bit::Node(*node);
                let ghost before = hm.listing();
                hm.insert_new(k, v);
                proof {
                    let p = choose|p: int|
                        0 <= p <= before.len() && hm.listing() == before.insert(p, (k, v));
                    assert(hm.listing()[p] == (k, v));
                    assert(hm.listing()[p].0 == k);
                }
                v
            },
        }
    }

    /// The bits of a string of `0`, `1`, `x` and `X`: `x` and `X` get fresh variables,
    /// numbered on from `cntr`.
    pub fn str2bin(input: &str, cntr: &mut i32) -> (r: Vec<Self>)
        requires
            forall|i: int| 0 <= i < input.spec_bytes().len() ==> is_bit_char(#[trigger] input.spec_bytes()[i]),
            *old(cntr) + x_count(input.spec_bytes()) <= i32::MAX,
        ensures
            r.len() == input.spec_bytes().len(),
            *final(cntr) == *old(cntr) + x_count(input.spec_bytes()),
            forall|i: int|
                0 <= i < r.len() ==> #[trigger] r[i] == bit_of_char(
                    input.spec_bytes()[i],
                    *old(cntr) + x_count(input.spec_bytes().subrange(0, i + 1)),
                ),
    {
        let bytes = input.as_bytes();
        let ghost s = input.spec_bytes();
        let ghost c0 = *cntr;
        let mut r: Vec<Self> = Vec::new();
        let mut i: usize = 0;
        proof {
            assert(s.subrange(0, 0) =~= Seq::<u8>::empty());
        }
        while i < bytes.len()
            invariant
                bytes@ == s,
                0 <= i <= bytes.len(),
                r.len() == i,
                forall|j: int| 0 <= j < s.len() ==> is_bit_char(#[trigger] s[j]),
                c0 + x_count(s) <= i32::MAX,
                *cntr == c0 + x_count(s.subrange(0, i as int)),
                forall|j: int|
                    0 <= j < i ==> #[trigger] r[j] == bit_of_char(s[j], c0 + x_count(s.subrange(0, j + 1))),
            decreases bytes.len() - i,
        {
            let b = bytes[i];
            proof {
                assert(is_bit_char(s[i as int]));
                assert(s.subrange(0, i + 1).drop_last() =~= s.subrange(0, i as int));
                lemma_x_count_prefix(s, i + 1);
                lemma_x_count_mono(s, i + 1);
            }
            let bit = if b == 0x31u8 {
                Self::Constant(true)
            } else if b == 0x30u8 {
                Self::Constant(false)
            } else {
                *cntr += 1;
                Self::Node(*cntr)
            };
            r.push(bit);
            i += 1;
        }
        proof {
            assert(s.subrange(0, s.len() as int) =~= s);
        }
        r
    }

    /// Adds the clauses that say two bits are equal: a constant to a variable gives a unit
    /// clause in `ceq`, two variables give two binary clauses in `neq`. Two constants must agree.
    pub fn eq(self, rhs: Self, ceq: &mut IntSet, neq: &mut PairMap<()>)
        requires
            old(ceq).wf(),
            old(neq).wf(),
            negatable(self),
            negatable(rhs),
            consistent(self, rhs),
        ensures
            final(ceq).wf(),
            final(neq).wf(),
            eq_effect(self, rhs, old(ceq).listing(), final(ceq).listing(), old(neq).listing(), final(neq).listing()),
    {
        match (self, rhs) {
            (Self::Constant(_), Self::Constant(_)) => {},
            (Self::Constant(true), Self::Node(res)) | (Self::Node(res), Self::Constant(true)) => {
                ceq.insert(res);
            },
            (Self::Constant(false), Self::Node(res)) | (Self::Node(res), Self::Constant(false)) => {
                ceq.insert(-res);
            },
            (Self::Node(x), Self::Node(y)) => {
                let k1 = Self::sort(x, -y);
                if neq.find(k1).is_none() {
                    neq.insert_new(k1, ());
                }
                let ghost mid = neq.listing();
                let k2 = Self::sort(-x, y);
                if neq.find(k2).is_none() {
                    neq.insert_new(k2, ());
                }
                proof {
                    assert(key_added(old(neq).listing(), mid, k1));
                    assert(key_added(mid, neq.listing(), k2));
                }
            },
        }
    }

    /// The sum bit and the carry bit of two bits; variables get an XOR and an AND gate.
    pub fn add(self, rhs: Self, node: &mut i32, and: &mut PairMap<Self>, xor: &mut PairMap<Self>) -> (r: (Self, Self))
        requires
            old(and).wf(),
            old(xor).wf(),
            *old(node) < i32::MAX - 1,
            negatable(self),
            negatable(rhs),
        ensures
            final(and).wf(),
            final(xor).wf(),
            *old(node) <= *final(node) <= *old(node) + 2,
            match (self, rhs) {
                (Bit::Constant(false), b) | (b, Bit::Constant(false)) => {
                    &&& r == (b, Bit::Constant(false))
                    &&& *final(node) == *old(node)
                    &&& final(and).listing() == old(and).listing()
                    &&& final(xor).listing() == old(xor).listing()
                },
                (Bit::Constant(true), b) | (b, Bit::Constant(true)) => {
                    &&& r == (neg_spec(b), b)
                    &&& *final(node) == *old(node)
                    &&& final(and).listing() == old(and).listing()
                    &&& final(xor).listing() == old(xor).listing()
                },
                (Bit::Node(x), Bit::Node(y)) => {
                    let k = if x < y { (x, y) } else { (y, x) };
                    &&& has_key(final(xor).listing(), k)
                    &&& has_key(final(and).listing(), k)
                    &&& exists|i: int| 0 <= i < final(xor).listing().len() && #[trigger] final(xor).listing()[i] == (k, r.0)
                    &&& exists|i: int| 0 <= i < final(and).listing().len() && #[trigger] final(and).listing()[i] == (k, r.1)
                    &&& calc_effect(old(xor).listing(), final(xor).listing(), k, r.0, *old(node) as int, xor_node(old(xor).listing(), k, *old(node) as int))
                    &&& calc_effect(old(and).listing(), final(and).listing(), k, r.1, xor_node(old(xor).listing(), k, *old(node) as int), *final(node) as int)
                },
            },
            table_ok(old(and).listing(), *old(node) as int) && table_ok(old(xor).listing(), *old(node) as int)
                && bit_ok(self, *old(node) as int) && bit_ok(rhs, *old(node) as int) ==> {
                &&& table_ok(final(and).listing(), *final(node) as int)
                &&& table_ok(final(xor).listing(), *final(node) as int)
                &&& bit_ok(r.0, *final(node) as int)
                &&& bit_ok(r.1, *final(node) as int)
                &&& final(and).listing().len() + final(xor).listing().len() + *old(node) == old(and).listing().len()
                    + old(xor).listing().len() + *final(node)
            },
    {
        match (self, rhs) {
            (Self::Constant(false), res) | (res, Self::Constant(false)) => (res, Self::Constant(false)),
            (Self::Constant(true), res) | (res, Self::Constant(true)) => (res.neg(), res),
            (Self::Node(x), Self::Node(y)) => {
                let ghost n0 = *node as int;
                let ghost x0 = xor.listing();
                let ghost a0 = and.listing();
                let xr = Self::calc(x, y, node, xor);
                let ghost n1 = *node as int;
                let ar = Self::calc(x, y, node, and);
                proof {
                    assert(calc_effect(x0, xor.listing(), sort_spec(x, y), xr, n0, n1));
                    if table_ok(a0, n0) && table_ok(x0, n0) && bit_ok(self, n0) && bit_ok(rhs, n0) {
                        lemma_calc_ok(x0, xor.listing(), n0, n1, x, y, xr);
                        lemma_table_grow(a0, n0, n1);
                        lemma_calc_ok(a0, and.listing(), n1, *node as int, x, y, ar);
                        lemma_table_grow(xor.listing(), n1, *node as int);
                    }
                }
                (xr, ar)
            },
        }
    }

    /// The product (AND) of two bits; two variables get an AND gate.
    pub fn mul(self, rhs: Self, node: &mut i32, and: &mut PairMap<Self>) -> (r: Self)
        requires
            old(and).wf(),
            *old(node) < i32::MAX,
        ensures
            final(and).wf(),
            *old(node) <= *final(node) <= *old(node) + 1,
            match (self, rhs) {
                (Bit::Constant(true), b) | (b, Bit::Constant(true)) => {
                    &&& r == b
                    &&& *final(node) == *old(node)
                    &&& final(and).listing() == old(and).listing()
                },
                (Bit::Constant(false), _) | (_, Bit::Constant(false)) => {
                    &&& r == Bit::Constant(false)
                    &&& *final(node) == *old(node)
                    &&& final(and).listing() == old(and).listing()
                },
                (Bit::Node(x), Bit::Node(y)) => {
                    let k = if x < y { (x, y) } else { (y, x) };
                    &&& exists|i: int| 0 <= i < final(and).listing().len() && #[trigger] final(and).listing()[i] == (k, r)
                    &&& calc_effect(old(and).listing(), final(and).listing(), k, r, *old(node) as int, *final(node) as int)
                },
            },
            table_ok(old(and).listing(), *old(node) as int) && bit_ok(self, *old(node) as int) && bit_ok(rhs, *old(node) as int) ==> {
                &&& table_ok(final(and).listing(), *final(node) as int)
                &&& bit_ok(r, *final(node) as int)
                &&& final(and).listing().len() + *old(node) == old(and).listing().len() + *final(node)
            },
    {
        match (self, rhs) {
            (Self::Constant(true), res) | (res, Self::Constant(true)) => res,
            (Self::Constant(false), _) | (_, Self::Constant(false)) => Self::Constant(false),
            (Self::Node(x), Self::Node(y)) => {
                let ghost n0 = *node as int;
                let ghost a0 = and.listing();
                let r = Self::calc(x, y, node, and);
                proof {
                    if table_ok(a0, n0) && bit_ok(self, n0) && bit_ok(rhs, n0) {
                        lemma_calc_ok(a0, and.listing(), n0, *node as int, x, y, r);
                    }
                }
                r
            },
        }
    }
}

/// What [`Bit::calc`] does for key `k`, giving `r`, to a table listed as `m0` before and
/// `m1` after, with `n0` the last variable before and `n1` after: a key of the table gives
/// its entry and changes nothing; a new key gets the next variable, inserted in its place.
pub open spec fn calc_effect(
    m0: Seq<((i32, i32), Bit)>,
    m1: Seq<((i32, i32), Bit)>,
    k: (i32, i32),
    r: Bit,
    n0: int,
    n1: int,
) -> bool {
    &&& has_key(m0, k) ==> {
        &&& exists|i: int| 0 <= i < m0.len() && #[trigger] m0[i] == (k, r)
        &&& n1 == n0
        &&& m1 == m0
    }
    &&& !has_key(m0, k) ==> {
        &&& n1 == n0 + 1
        &&& r == Bit::Node(n1 as i32)
        &&& exists|p: int| 0 <= p <= m0.len() && m1 == m0.insert(p, (k, r))
    }
}

/// The last variable once [`Bit::add`] has looked up key `k` in its XOR table: one more
/// than `n` when the key is new.
pub open spec fn xor_node(m: Seq<((i32, i32), Bit)>, k: (i32, i32), n: int) -> int {
    if has_key(m, k) { n } else { n + 1 }
}

/// What [`Bit::eq`] adds to the unit clauses `ceq` and the binary clauses `neq`.
pub open spec fn eq_effect(
    a: Bit,
    b: Bit,
    ceq0: Seq<i32>,
    ceq1: Seq<i32>,
    neq0: Seq<((i32, i32), ())>,
    neq1: Seq<((i32, i32), ())>,
) -> bool {
    match (a, b) {
        (Bit::Constant(_), Bit::Constant(_)) => ceq1 == ceq0 && neq1 == neq0,
        (Bit::Constant(true), Bit::Node(v)) | (Bit::Node(v), Bit::Constant(true)) => {
            &&& neq1 == neq0
            &&& set_added(ceq0, ceq1, v)
        },
        (Bit::Constant(false), Bit::Node(v)) | (Bit::Node(v), Bit::Constant(false)) => {
            &&& neq1 == neq0
            &&& set_added(ceq0, ceq1, -v as i32)
        },
        (Bit::Node(x), Bit::Node(y)) => {
            &&& ceq1 == ceq0
            &&& pairs_added(neq0, neq1, sort_spec(x, -y as i32), sort_spec(-x as i32, y))
        },
    }
}

/// The pair in increasing order.
pub open spec fn sort_spec(x: i32, y: i32) -> (i32, i32) {
    if x < y {
        (x, y)
    } else {
        (y, x)
    }
}

/// `s1` is `s0` with `x` added in its place, or `s0` itself if `x` was there.
pub open spec fn set_added(s0: Seq<i32>, s1: Seq<i32>, x: i32) -> bool {
    &&& s0.contains(x) ==> s1 == s0
    &&& !s0.contains(x) ==> exists|p: int| 0 <= p <= s0.len() && s1 == s0.insert(p, x)
}

/// `n1` is `n0` with the keys `k1` and `k2` added where they are new.
pub open spec fn pairs_added(
    n0: Seq<((i32, i32), ())>,
    n1: Seq<((i32, i32), ())>,
    k1: (i32, i32),
    k2: (i32, i32),
) -> bool {
    exists|mid: Seq<((i32, i32), ())>|
        key_added(n0, mid, k1) && key_added(mid, n1, k2)
}

/// `s1` is `s0` with the key `k` added in its place, or `s0` itself if `k` was there.
pub open spec fn key_added(s0: Seq<((i32, i32), ())>, s1: Seq<((i32, i32), ())>, k: (i32, i32)) -> bool {
    &&& has_key(s0, k) ==> s1 == s0
    &&& !has_key(s0, k) ==> exists|p: int| 0 <= p <= s0.len() && s1 == s0.insert(p, (k, ()))
}

proof fn lemma_x_count_mono(s: Seq<u8>, n: int)
    requires
        0 <= n <= s.len(),
    ensures
        0 <= x_count(s.subrange(0, n)) <= x_count(s),
    decreases s.len() - n,
{
    if n == s.len() {
        assert(s.subrange(0, n) =~= s);
        lemma_x_count_nonneg(s);
    } else {
        lemma_x_count_mono(s, n + 1);
        lemma_x_count_prefix(s, n + 1);
        lemma_x_count_nonneg(s.subrange(0, n));
    }
}

proof fn lemma_x_count_nonneg(s: Seq<u8>)
    ensures
        x_count(s) >= 0,
    decreases s.len(),
{
    if s.len() > 0 {
        lemma_x_count_nonneg(s.drop_last());
    }
}

proof fn lemma_x_count_prefix(s: Seq<u8>, n: int)
    requires
        1 <= n <= s.len(),
    ensures
        x_count(s.subrange(0, n)) == x_count(s.subrange(0, n - 1)) + (if s[n - 1] == 0x78 || s[n - 1] == 0x58 { 1int } else { 0int }),
{
    assert(s.subrange(0, n).drop_last() =~= s.subrange(0, n - 1));
}

/// The literals of a clause, each followed by a space.
pub open spec fn lits_text(c: Seq<int>) -> Seq<char>
    decreases c.len(),
{
    if c.len() == 0 {
        Seq::empty()
    } else {
        lits_text(c.drop_last()) + dec(c.last()) + seq![' ']
    }
}

/// The lines of the clauses, separated by newlines.
pub open spec fn clauses_text(cs: Seq<Seq<int>>) -> Seq<char>
    decreases cs.len(),
{
    if cs.len() == 0 {
        Seq::empty()
    } else if cs.len() == 1 {
        lits_text(cs[0]) + seq!['0']
    } else {
        clauses_text(cs.drop_last()) + seq!['\n'] + lits_text(cs.last()) + seq!['0']
    }
}

/// The clauses that define an AND node `x & y`, by its value in the table.
pub open spec fn and_clauses(k: (i32, i32), v: Bit) -> Seq<Seq<int>> {
    let x = k.0 as int;
    let y = k.1 as int;
    match v {
        Bit::Constant(false) => seq![seq![x], seq![y]],
        Bit::Constant(true) => Seq::empty(),
        Bit::Node(z) => seq![
            seq![x, y, -z],
            seq![x, -y, -z],
            seq![-x, y, -z],
            seq![-x, -y, z as int],
        ],
    }
}

/// The clauses that define an XOR node `x ^ y`, by its value in the table.
pub open spec fn xor_clauses(k: (i32, i32), v: Bit) -> Seq<Seq<int>> {
    let x = k.0 as int;
    let y = k.1 as int;
    match v {
        Bit::Constant(false) => seq![seq![x, -y], seq![-x, y]],
        Bit::Constant(true) => seq![seq![x, y], seq![-x, -y]],
        Bit::Node(z) => seq![
            seq![x, y, -z],
            seq![x, -y, z as int],
            seq![-x, y, z as int],
            seq![-x, -y, -z],
        ],
    }
}

pub open spec fn and_part(s: Seq<((i32, i32), Bit)>) -> Seq<Seq<int>>
    decreases s.len(),
{
    if s.len() == 0 {
        Seq::empty()
    } else {
        and_part(s.drop_last()) + and_clauses(s.last().0, s.last().1)
    }
}

pub open spec fn xor_part(s: Seq<((i32, i32), Bit)>) -> Seq<Seq<int>>
    decreases s.len(),
{
    if s.len() == 0 {
        Seq::empty()
    } else {
        xor_part(s.drop_last()) + xor_clauses(s.last().0, s.last().1)
    }
}

pub open spec fn unit_part(s: Seq<i32>) -> Seq<Seq<int>> {
    Seq::new(s.len(), |i: int| seq![s[i] as int])
}

pub open spec fn binary_part(s: Seq<((i32, i32), ())>) -> Seq<Seq<int>> {
    Seq::new(s.len(), |i: int| seq![s[i].0.0 as int, s[i].0.1 as int])
}

/// All clauses: the AND gates, the XOR gates, the unit clauses and the binary clauses,
/// each table in increasing order of keys.
pub open spec fn all_clauses(
    and: Seq<((i32, i32), Bit)>,
    xor: Seq<((i32, i32), Bit)>,
    ceq: Seq<i32>,
    neq: Seq<((i32, i32), ())>,
) -> Seq<Seq<int>> {
    and_part(and) + xor_part(xor) + unit_part(ceq) + binary_part(neq)
}

/// Every clause is satisfied.
pub open spec fn satisfies(sigma: spec_fn(int) -> bool, cs: Seq<Seq<int>>) -> bool {
    forall|i: int| 0 <= i < cs.len() ==> #[trigger] clause_holds(sigma, cs[i])
}

proof fn lemma_satisfies_concat(sigma: spec_fn(int) -> bool, a: Seq<Seq<int>>, b: Seq<Seq<int>>)
    requires
        satisfies(sigma, a + b),
    ensures
        satisfies(sigma, a),
        satisfies(sigma, b),
{
    assert forall|i: int| 0 <= i < a.len() implies #[trigger] clause_holds(sigma, a[i]) by {
        assert((a + b)[i] == a[i]);
    }
    assert forall|i: int| 0 <= i < b.len() implies #[trigger] clause_holds(sigma, b[i]) by {
        assert((a + b)[a.len() + i] == b[i]);
    }
}

proof fn lemma_lit_neg(sigma: spec_fn(int) -> bool, v: int)
    requires
        v != 0,
    ensures
        lit_holds(sigma, -v) == !lit_holds(sigma, v),
{
}

proof fn lemma_and_gate(sigma: spec_fn(int) -> bool, x: int, y: int, z: int)
    requires
        x != 0,
        y != 0,
        z != 0,
        satisfies(sigma, seq![seq![x, y, -z], seq![x, -y, -z], seq![-x, y, -z], seq![-x, -y, z]]),
    ensures
        lit_holds(sigma, z) == (lit_holds(sigma, x) && lit_holds(sigma, y)),
{
    let cs = seq![seq![x, y, -z], seq![x, -y, -z], seq![-x, y, -z], seq![-x, -y, z]];
    lemma_lit_neg(sigma, x);
    lemma_lit_neg(sigma, y);
    lemma_lit_neg(sigma, z);
    assert(clause_holds(sigma, cs[0]));
    assert(clause_holds(sigma, cs[1]));
    assert(clause_holds(sigma, cs[2]));
    assert(clause_holds(sigma, cs[3]));
}

proof fn lemma_xor_gate(sigma: spec_fn(int) -> bool, x: int, y: int, z: int)
    requires
        x != 0,
        y != 0,
        z != 0,
        satisfies(sigma, seq![seq![x, y, -z], seq![x, -y, z], seq![-x, y, z], seq![-x, -y, -z]]),
    ensures
        lit_holds(sigma, z) == (lit_holds(sigma, x) != lit_holds(sigma, y)),
{
    let cs = seq![seq![x, y, -z], seq![x, -y, z], seq![-x, y, z], seq![-x, -y, -z]];
    lemma_lit_neg(sigma, x);
    lemma_lit_neg(sigma, y);
    lemma_lit_neg(sigma, z);
    assert(clause_holds(sigma, cs[0]));
    assert(clause_holds(sigma, cs[1]));
    assert(clause_holds(sigma, cs[2]));
    assert(clause_holds(sigma, cs[3]));
}

/// Under `sigma`, the variable of every gate of `s` is the AND of its two literals.
pub open spec fn and_gates_hold(sigma: spec_fn(int) -> bool, s: Seq<((i32, i32), Bit)>) -> bool {
    forall|i: int| 0 <= i < s.len() ==> #[trigger] s[i].1 is Node ==> lit_holds(sigma, s[i].1->Node_0 as int)
        == (lit_holds(sigma, s[i].0.0 as int) && lit_holds(sigma, s[i].0.1 as int))
}

/// Under `sigma`, the variable of every gate of `s` is the XOR of its two literals.
pub open spec fn xor_gates_hold(sigma: spec_fn(int) -> bool, s: Seq<((i32, i32), Bit)>) -> bool {
    forall|i: int| 0 <= i < s.len() ==> #[trigger] s[i].1 is Node ==> lit_holds(sigma, s[i].1->Node_0 as int)
        == (lit_holds(sigma, s[i].0.0 as int) != lit_holds(sigma, s[i].0.1 as int))
}

proof fn lemma_parts_hold(sigma: spec_fn(int) -> bool, s: Seq<((i32, i32), Bit)>, node: int)
    requires
        table_ok(s, node),
    ensures
        satisfies(sigma, and_part(s)) ==> and_gates_hold(sigma, s),
        satisfies(sigma, xor_part(s)) ==> xor_gates_hold(sigma, s),
    decreases s.len(),
{
    if s.len() > 0 {
        let t = s.drop_last();
        let e = s.last();
        assert(table_ok(t, node)) by {
            assert forall|i: int| 0 <= i < t.len() implies var_ok((#[trigger] t[i]).0.0 as int, node) && var_ok(t[i].0.1 as int, node)
                && fresh_var(t[i].1, node) by {
                assert(t[i] == s[i]);
            }
        }
        lemma_parts_hold(sigma, t, node);
        assert(var_ok(s[s.len() - 1].0.0 as int, node) && var_ok(s[s.len() - 1].0.1 as int, node)
            && fresh_var(s[s.len() - 1].1, node));
        let z = e.1->Node_0 as int;
        if satisfies(sigma, and_part(s)) {
            lemma_satisfies_concat(sigma, and_part(t), and_clauses(e.0, e.1));
            lemma_and_gate(sigma, e.0.0 as int, e.0.1 as int, z);
            assert forall|i: int| #![trigger s[i]] 0 <= i < s.len() && s[i].1 is Node implies lit_holds(sigma, s[i].1->Node_0 as int)
                == (lit_holds(sigma, s[i].0.0 as int) && lit_holds(sigma, s[i].0.1 as int)) by {
                if i < t.len() {
                    assert(s[i] == t[i]);
                }
            }
        }
        if satisfies(sigma, xor_part(s)) {
            lemma_satisfies_concat(sigma, xor_part(t), xor_clauses(e.0, e.1));
            lemma_xor_gate(sigma, e.0.0 as int, e.0.1 as int, z);
            assert forall|i: int| #![trigger s[i]] 0 <= i < s.len() && s[i].1 is Node implies lit_holds(sigma, s[i].1->Node_0 as int)
                == (lit_holds(sigma, s[i].0.0 as int) != lit_holds(sigma, s[i].0.1 as int)) by {
                if i < t.len() {
                    assert(s[i] == t[i]);
                }
            }
        }
    }
}

/// What the clauses of the tables say of an assignment that satisfies them all: each AND
/// gate's variable is the AND of its two literals, each XOR gate's the XOR, each unit
/// literal is true, and each binary clause has a true literal.
pub proof fn lemma_clauses_meaning(
    and: PairMap<Bit>,
    xor: PairMap<Bit>,
    ceq: IntSet,
    neq: PairMap<()>,
    node: int,
    sigma: spec_fn(int) -> bool,
)
    requires
        tables_ok(and, xor, ceq, neq, node),
        satisfies(sigma, all_clauses(and.listing(), xor.listing(), ceq.listing(), neq.listing())),
    ensures
        and_gates_hold(sigma, and.listing()),
        xor_gates_hold(sigma, xor.listing()),
        forall|i: int| 0 <= i < ceq.listing().len() ==> lit_holds(sigma, #[trigger] ceq.listing()[i] as int),
        forall|i: int| 0 <= i < neq.listing().len() ==> lit_holds(sigma, (#[trigger] neq.listing()[i]).0.0 as int)
            || lit_holds(sigma, neq.listing()[i].0.1 as int),
{
    let a = and_part(and.listing());
    let x = xor_part(xor.listing());
    let u = unit_part(ceq.listing());
    let b = binary_part(neq.listing());
    lemma_satisfies_concat(sigma, a + x + u, b);
    lemma_satisfies_concat(sigma, a + x, u);
    lemma_satisfies_concat(sigma, a, x);
    lemma_parts_hold(sigma, and.listing(), node);
    lemma_parts_hold(sigma, xor.listing(), node);
    assert forall|i: int| 0 <= i < ceq.listing().len() implies lit_holds(sigma, #[trigger] ceq.listing()[i] as int) by {
        assert(clause_holds(sigma, u[i]));
        assert(u[i] == seq![ceq.listing()[i] as int]);
    }
    assert forall|i: int| 0 <= i < neq.listing().len() implies lit_holds(sigma, (#[trigger] neq.listing()[i]).0.0 as int)
        || lit_holds(sigma, neq.listing()[i].0.1 as int) by {
        assert(clause_holds(sigma, b[i]));
        assert(b[i] == seq![neq.listing()[i].0.0 as int, neq.listing()[i].0.1 as int]);
    }
}

/// Two listings sorted by key with the same entries are the same listing.
proof fn lemma_keys_sorted_unique<V>(s1: Seq<((i32, i32), V)>, s2: Seq<((i32, i32), V)>)
    requires
        keys_sorted(s1),
        keys_sorted(s2),
        s1.to_set() == s2.to_set(),
    ensures
        s1 == s2,
    decreases s1.len(),
{
    if s1.len() == 0 {
        if s2.len() > 0 {
            assert(s2.contains(s2[0]));
            assert(s2.to_set().contains(s2[0]));
        }
        assert(s1 =~= s2);
    } else {
        assert(s1.contains(s1[0]));
        assert(s1.to_set().contains(s1[0]));
        assert(s2.len() > 0);
        assert(s2.contains(s2[0]));
        assert(s2.to_set().contains(s2[0]));
        let a = s1[0];
        let b = s2[0];
        let j = choose|j: int| 0 <= j < s2.len() && s2[j] == a;
        let i = choose|i: int| 0 <= i < s1.len() && s1[i] == b;
        if j > 0 && i > 0 {
            assert(pair_lt(b.0, a.0));
            assert(pair_lt(a.0, b.0));
        }
        assert(a == b);
        let t1 = s1.subrange(1, s1.len() as int);
        let t2 = s2.subrange(1, s2.len() as int);
        assert forall|e: ((i32, i32), V)| #[trigger] t1.contains(e) <==> s1.contains(e) && e != a by {
            if t1.contains(e) {
                let k = choose|k: int| 0 <= k < t1.len() && t1[k] == e;
                assert(s1[k + 1] == e);
                assert(pair_lt(s1[0].0, s1[k + 1].0));
            }
            if s1.contains(e) && e != a {
                let k = choose|k: int| 0 <= k < s1.len() && s1[k] == e;
                assert(t1[k - 1] == e);
            }
        }
        assert forall|e: ((i32, i32), V)| #[trigger] t2.contains(e) <==> s2.contains(e) && e != b by {
            if t2.contains(e) {
                let k = choose|k: int| 0 <= k < t2.len() && t2[k] == e;
                assert(s2[k + 1] == e);
                assert(pair_lt(s2[0].0, s2[k + 1].0));
            }
            if s2.contains(e) && e != b {
                let k = choose|k: int| 0 <= k < s2.len() && s2[k] == e;
                assert(t2[k - 1] == e);
            }
        }
        assert forall|e: ((i32, i32), V)| t1.to_set().contains(e) <==> t2.to_set().contains(e) by {
            assert(s1.to_set().contains(e) == s2.to_set().contains(e));
            assert(s1.to_set().contains(e) == s1.contains(e));
            assert(s2.to_set().contains(e) == s2.contains(e));
            assert(t1.contains(e) == (s1.contains(e) && e != a));
            assert(t2.contains(e) == (s2.contains(e) && e != b));
        }
        assert(t1.to_set() =~= t2.to_set());
        lemma_keys_sorted_unique(t1, t2);
        assert forall|k: int| 0 <= k < s1.len() implies s1[k] == s2[k] by {
            if k > 0 {
                assert(s1[k] == t1[k - 1]);
                assert(s2[k] == t2[k - 1]);
            }
        }
        assert(s1 =~= s2);
    }
}

/// Two increasing listings with the same members are the same listing.
proof fn lemma_increasing_unique(s1: Seq<i32>, s2: Seq<i32>)
    requires
        forall|i: int, j: int| 0 <= i < j < s1.len() ==> s1[i] < s1[j],
        forall|i: int, j: int| 0 <= i < j < s2.len() ==> s2[i] < s2[j],
        s1.to_set() == s2.to_set(),
    ensures
        s1 == s2,
    decreases s1.len(),
{
    if s1.len() == 0 {
        if s2.len() > 0 {
            assert(s2.contains(s2[0]));
            assert(s2.to_set().contains(s2[0]));
        }
        assert(s1 =~= s2);
    } else {
        assert(s1.contains(s1[0]));
        assert(s1.to_set().contains(s1[0]));
        assert(s2.len() > 0);
        assert(s2.contains(s2[0]));
        assert(s2.to_set().contains(s2[0]));
        let a = s1[0];
        let b = s2[0];
        let j = choose|j: int| 0 <= j < s2.len() && s2[j] == a;
        let i = choose|i: int| 0 <= i < s1.len() && s1[i] == b;
        if j > 0 && i > 0 {
            assert(b < a);
            assert(a < b);
        }
        assert(a == b);
        let t1 = s1.subrange(1, s1.len() as int);
        let t2 = s2.subrange(1, s2.len() as int);
        assert forall|e: i32| #[trigger] t1.contains(e) <==> s1.contains(e) && e != a by {
            if t1.contains(e) {
                let k = choose|k: int| 0 <= k < t1.len() && t1[k] == e;
                assert(s1[k + 1] == e);
            }
            if s1.contains(e) && e != a {
                let k = choose|k: int| 0 <= k < s1.len() && s1[k] == e;
                assert(t1[k - 1] == e);
            }
        }
        assert forall|e: i32| #[trigger] t2.contains(e) <==> s2.contains(e) && e != b by {
            if t2.contains(e) {
                let k = choose|k: int| 0 <= k < t2.len() && t2[k] == e;
                assert(s2[k + 1] == e);
            }
            if s2.contains(e) && e != b {
                let k = choose|k: int| 0 <= k < s2.len() && s2[k] == e;
                assert(t2[k - 1] == e);
            }
        }
        assert forall|e: i32| t1.to_set().contains(e) <==> t2.to_set().contains(e) by {
            assert(s1.to_set().contains(e) == s2.to_set().contains(e));
            assert(s1.to_set().contains(e) == s1.contains(e));
            assert(s2.to_set().contains(e) == s2.contains(e));
            assert(t1.contains(e) == (s1.contains(e) && e != a));
            assert(t2.contains(e) == (s2.contains(e) && e != b));
        }
        assert(t1.to_set() =~= t2.to_set());
        lemma_increasing_unique(t1, t2);
        assert forall|k: int| 0 <= k < s1.len() implies s1[k] == s2[k] by {
            if k > 0 {
                assert(s1[k] == t1[k - 1]);
                assert(s2[k] == t2[k - 1]);
            }
        }
        assert(s1 =~= s2);
    }
}

/// The text of [`Bit::format`] depends only on what the tables hold, not on the order in
/// which it was put in: [`Bit::format`] gives `cnf_text(node, all_clauses(..))` of the
/// listings, and tables with the same contents have the same listings, so the same text.
pub proof fn lemma_format_contents(
    and1: PairMap<Bit>,
    xor1: PairMap<Bit>,
    ceq1: IntSet,
    neq1: PairMap<()>,
    and2: PairMap<Bit>,
    xor2: PairMap<Bit>,
    ceq2: IntSet,
    neq2: PairMap<()>,
    node: int,
)
    requires
        and1.wf(),
        xor1.wf(),
        ceq1.wf(),
        neq1.wf(),
        and2.wf(),
        xor2.wf(),
        ceq2.wf(),
        neq2.wf(),
        and1.contents() == and2.contents(),
        xor1.contents() == xor2.contents(),
        ceq1.contents() == ceq2.contents(),
        neq1.contents() == neq2.contents(),
    ensures
        all_clauses(and1.listing(), xor1.listing(), ceq1.listing(), neq1.listing()) == all_clauses(
            and2.listing(),
            xor2.listing(),
            ceq2.listing(),
            neq2.listing(),
        ),
        cnf_text(node, all_clauses(and1.listing(), xor1.listing(), ceq1.listing(), neq1.listing()))
            == cnf_text(node, all_clauses(and2.listing(), xor2.listing(), ceq2.listing(), neq2.listing())),
{
    lemma_keys_sorted_unique(and1.listing(), and2.listing());
    lemma_keys_sorted_unique(xor1.listing(), xor2.listing());
    lemma_keys_sorted_unique(neq1.listing(), neq2.listing());
    ceq1.lemma_increasing();
    ceq2.lemma_increasing();
    lemma_increasing_unique(ceq1.listing(), ceq2.listing());
}

/// The value of a bit under the assignment `sigma`.
pub open spec fn bit_value(sigma: spec_fn(int) -> bool, b: Bit) -> bool {
    match b {
        Bit::Constant(c) => c,
        Bit::Node(v) => lit_holds(sigma, v as int),
    }
}

/// Every item of `s0` is an item of `s1`.
pub open spec fn grows<T>(s0: Seq<T>, s1: Seq<T>) -> bool {
    forall|e: T| #[trigger] s0.contains(e) ==> s1.contains(e)
}

/// Under `sigma`, every unit clause holds.
pub open spec fn units_hold(sigma: spec_fn(int) -> bool, s: Seq<i32>) -> bool {
    forall|i: int| 0 <= i < s.len() ==> lit_holds(sigma, #[trigger] s[i] as int)
}

/// Under `sigma`, every binary clause holds.
pub open spec fn pairs_hold(sigma: spec_fn(int) -> bool, s: Seq<((i32, i32), ())>) -> bool {
    forall|i: int| 0 <= i < s.len() ==> lit_holds(sigma, (#[trigger] s[i]).0.0 as int) || lit_holds(sigma, s[i].0.1 as int)
}

/// Under `sigma`, every AND and XOR gate holds.
pub open spec fn gates_hold(sigma: spec_fn(int) -> bool, and: Seq<((i32, i32), Bit)>, xor: Seq<((i32, i32), Bit)>) -> bool {
    and_gates_hold(sigma, and) && xor_gates_hold(sigma, xor)
}

/// Under `sigma`, every unit and binary clause holds.
pub open spec fn eqs_hold(sigma: spec_fn(int) -> bool, ceq: Seq<i32>, neq: Seq<((i32, i32), ())>) -> bool {
    units_hold(sigma, ceq) && pairs_hold(sigma, neq)
}

proof fn lemma_gates_mono(
    sigma: spec_fn(int) -> bool,
    a0: Seq<((i32, i32), Bit)>,
    x0: Seq<((i32, i32), Bit)>,
    a1: Seq<((i32, i32), Bit)>,
    x1: Seq<((i32, i32), Bit)>,
)
    requires
        grows(a0, a1),
        grows(x0, x1),
        gates_hold(sigma, a1, x1),
    ensures
        gates_hold(sigma, a0, x0),
{
    assert forall|i: int| 0 <= i < a0.len() implies (#[trigger] a0[i].1 is Node ==> lit_holds(sigma, a0[i].1->Node_0 as int)
        == (lit_holds(sigma, a0[i].0.0 as int) && lit_holds(sigma, a0[i].0.1 as int))) by {
        assert(a0.contains(a0[i]));
        let j = choose|j: int| 0 <= j < a1.len() && a1[j] == a0[i];
        assert(a1[j].1 is Node ==> lit_holds(sigma, a1[j].1->Node_0 as int)
            == (lit_holds(sigma, a1[j].0.0 as int) && lit_holds(sigma, a1[j].0.1 as int)));
    }
    assert forall|i: int| 0 <= i < x0.len() implies (#[trigger] x0[i].1 is Node ==> lit_holds(sigma, x0[i].1->Node_0 as int)
        == (lit_holds(sigma, x0[i].0.0 as int) != lit_holds(sigma, x0[i].0.1 as int))) by {
        assert(x0.contains(x0[i]));
        let j = choose|j: int| 0 <= j < x1.len() && x1[j] == x0[i];
        assert(x1[j].1 is Node ==> lit_holds(sigma, x1[j].1->Node_0 as int)
            == (lit_holds(sigma, x1[j].0.0 as int) != lit_holds(sigma, x1[j].0.1 as int)));
    }
}

proof fn lemma_eqs_mono(
    sigma: spec_fn(int) -> bool,
    c0: Seq<i32>,
    p0: Seq<((i32, i32), ())>,
    c1: Seq<i32>,
    p1: Seq<((i32, i32), ())>,
)
    requires
        grows(c0, c1),
        grows(p0, p1),
        eqs_hold(sigma, c1, p1),
    ensures
        eqs_hold(sigma, c0, p0),
{
    assert forall|i: int| 0 <= i < c0.len() implies lit_holds(sigma, #[trigger] c0[i] as int) by {
        assert(c0.contains(c0[i]));
        let j = choose|j: int| 0 <= j < c1.len() && c1[j] == c0[i];
        assert(lit_holds(sigma, c1[j] as int));
    }
    assert forall|i: int| 0 <= i < p0.len() implies lit_holds(sigma, (#[trigger] p0[i]).0.0 as int) || lit_holds(sigma, p0[i].0.1 as int) by {
        assert(p0.contains(p0[i]));
        let j = choose|j: int| 0 <= j < p1.len() && p1[j] == p0[i];
        assert(lit_holds(sigma, p1[j].0.0 as int) || lit_holds(sigma, p1[j].0.1 as int));
    }
}

proof fn lemma_insert_grows<T>(s0: Seq<T>, p: int, x: T)
    requires
        0 <= p <= s0.len(),
    ensures
        grows(s0, s0.insert(p, x)),
        s0.insert(p, x).contains(x),
{
    let s1 = s0.insert(p, x);
    assert(s1[p] == x);
    assert forall|e: T| #[trigger] s0.contains(e) implies s1.contains(e) by {
        let i = choose|i: int| 0 <= i < s0.len() && s0[i] == e;
        if i < p {
            assert(s1[i] == e);
        } else {
            assert(s1[i + 1] == e);
        }
    }
}

proof fn lemma_calc_grows(m0: Seq<((i32, i32), Bit)>, m1: Seq<((i32, i32), Bit)>, k: (i32, i32), r: Bit, n0: int, n1: int)
    requires
        calc_effect(m0, m1, k, r, n0, n1),
    ensures
        grows(m0, m1),
{
    if !has_key(m0, k) {
        let p = choose|p: int| 0 <= p <= m0.len() && m1 == m0.insert(p, (k, r));
        lemma_insert_grows(m0, p, (k, r));
    }
}

proof fn lemma_key_added_grows(s0: Seq<((i32, i32), ())>, s1: Seq<((i32, i32), ())>, k: (i32, i32))
    requires
        key_added(s0, s1, k),
    ensures
        grows(s0, s1),
        has_key(s1, k),
{
    if !has_key(s0, k) {
        let p = choose|p: int| 0 <= p <= s0.len() && s1 == s0.insert(p, (k, ()));
        lemma_insert_grows(s0, p, (k, ()));
        assert(s1[p].0 == k);
    } else {
        let i = choose|i: int| 0 <= i < s0.len() && #[trigger] s0[i].0 == k;
        assert(s1[i].0 == k);
    }
}

/// A variable and its negation have opposite values.
proof fn lemma_neg_value(sigma: spec_fn(int) -> bool, b: Bit, node: int)
    requires
        bit_ok(b, node),
        node <= i32::MAX,
    ensures
        negatable(b),
        bit_value(sigma, neg_spec(b)) == !bit_value(sigma, b),
{
    if let Bit::Node(v) = b {
        lemma_lit_neg(sigma, v as int);
    }
}

/// The value of an entry `(k, r)` of a gate table, under an assignment where its gates hold.
proof fn lemma_gate_value(sigma: spec_fn(int) -> bool, s: Seq<((i32, i32), Bit)>, node: int, k: (i32, i32), r: Bit, is_xor: bool)
    requires
        table_ok(s, node),
        exists|i: int| 0 <= i < s.len() && #[trigger] s[i] == (k, r),
        is_xor ==> xor_gates_hold(sigma, s),
        !is_xor ==> and_gates_hold(sigma, s),
    ensures
        r is Node,
        is_xor ==> bit_value(sigma, r) == (lit_holds(sigma, k.0 as int) != lit_holds(sigma, k.1 as int)),
        !is_xor ==> bit_value(sigma, r) == (lit_holds(sigma, k.0 as int) && lit_holds(sigma, k.1 as int)),
{
    let i = choose|i: int| 0 <= i < s.len() && #[trigger] s[i] == (k, r);
    assert(fresh_var(s[i].1, node));
    assert(s[i].1 is Node);
}

/// 1 for `true`, 0 for `false`.
pub open spec fn b2i(b: bool) -> int {
    if b { 1 } else { 0 }
}

/// How many bits of `s` are true under `sigma`.
pub open spec fn ones(sigma: spec_fn(int) -> bool, s: Seq<Bit>) -> int
    decreases s.len(),
{
    if s.len() == 0 {
        0
    } else {
        ones(sigma, s.drop_last()) + b2i(bit_value(sigma, s.last()))
    }
}

/// The sum of `2^(p + 1)` over the positions `lo <= p < hi` whose bit of `s` is true under
/// `sigma`: the carries kept at those positions.
pub open spec fn wsum(sigma: spec_fn(int) -> bool, s: Seq<Bit>, lo: int, hi: int) -> int
    decreases hi - lo,
{
    if hi <= lo {
        0
    } else {
        wsum(sigma, s, lo, hi - 1) + pow2(hi as nat) * b2i(bit_value(sigma, s[hi - 1]))
    }
}

/// How many of the products `m[i][k - i]`, `lo <= i < hi`, are true under `sigma`.
pub open spec fn col_sum(sigma: spec_fn(int) -> bool, m: Seq<Vec<Bit>>, k: int, lo: int, hi: int) -> int
    decreases hi - lo,
{
    if hi <= lo {
        0
    } else {
        col_sum(sigma, m, k, lo, hi - 1) + b2i(bit_value(sigma, m[hi - 1]@[k - (hi - 1)]))
    }
}

proof fn lemma_ones_push(sigma: spec_fn(int) -> bool, s: Seq<Bit>, b: Bit)
    ensures
        ones(sigma, s.push(b)) == ones(sigma, s) + b2i(bit_value(sigma, b)),
{
    assert(s.push(b).drop_last() =~= s);
}

proof fn lemma_ones_prefix(sigma: spec_fn(int) -> bool, s: Seq<Bit>, t: int)
    requires
        0 <= t < s.len(),
    ensures
        ones(sigma, s.subrange(0, t + 1)) == ones(sigma, s.subrange(0, t)) + b2i(bit_value(sigma, s[t])),
{
    assert(s.subrange(0, t + 1).drop_last() =~= s.subrange(0, t));
}

proof fn lemma_ones_false(sigma: spec_fn(int) -> bool, s: Seq<Bit>)
    requires
        forall|i: int| 0 <= i < s.len() ==> !bit_value(sigma, #[trigger] s[i]),
    ensures
        ones(sigma, s) == 0,
    decreases s.len(),
{
    if s.len() > 0 {
        let t = s.drop_last();
        assert forall|i: int| 0 <= i < t.len() implies !bit_value(sigma, #[trigger] t[i]) by {
            assert(t[i] == s[i]);
        }
        lemma_ones_false(sigma, t);
    }
}

proof fn lemma_wsum_update(sigma: spec_fn(int) -> bool, s: Seq<Bit>, lo: int, hi: int, q: int, x: Bit)
    requires
        lo <= q < hi,
        hi <= s.len(),
        0 <= lo,
    ensures
        wsum(sigma, s.update(q, x), lo, hi) == wsum(sigma, s, lo, hi) - pow2((q + 1) as nat) * b2i(bit_value(sigma, s[q]))
            + pow2((q + 1) as nat) * b2i(bit_value(sigma, x)),
    decreases hi - lo,
{
    if q < hi - 1 {
        lemma_wsum_update(sigma, s, lo, hi - 1, q, x);
        assert(s.update(q, x)[hi - 1] == s[hi - 1]);
    } else {
        lemma_wsum_frame(sigma, s.update(q, x), s, lo, hi - 1);
    }
}

proof fn lemma_wsum_frame(sigma: spec_fn(int) -> bool, s1: Seq<Bit>, s2: Seq<Bit>, lo: int, hi: int)
    requires
        forall|p: int| lo <= p < hi ==> s1[p] == s2[p],
    ensures
        wsum(sigma, s1, lo, hi) == wsum(sigma, s2, lo, hi),
    decreases hi - lo,
{
    if hi > lo {
        lemma_wsum_frame(sigma, s1, s2, lo, hi - 1);
        assert(s1[hi - 1] == s2[hi - 1]);
    }
}

proof fn lemma_wsum_split(sigma: spec_fn(int) -> bool, s: Seq<Bit>, lo: int, hi: int)
    requires
        lo < hi,
    ensures
        wsum(sigma, s, lo, hi) == pow2((lo + 1) as nat) * b2i(bit_value(sigma, s[lo])) + wsum(sigma, s, lo + 1, hi),
    decreases hi - lo,
{
    if hi - 1 > lo {
        lemma_wsum_split(sigma, s, lo, hi - 1);
        assert(wsum(sigma, s, lo + 1, hi) == wsum(sigma, s, lo + 1, hi - 1) + pow2(hi as nat) * b2i(bit_value(sigma, s[hi - 1])));
    } else {
        assert(wsum(sigma, s, lo, hi - 1) == 0);
        assert(wsum(sigma, s, lo + 1, hi) == 0);
    }
}

proof fn lemma_wsum_false(sigma: spec_fn(int) -> bool, s: Seq<Bit>, lo: int, hi: int)
    requires
        forall|p: int| lo <= p < hi ==> !bit_value(sigma, #[trigger] s[p]),
    ensures
        wsum(sigma, s, lo, hi) == 0,
    decreases hi - lo,
{
    if hi > lo {
        lemma_wsum_false(sigma, s, lo, hi - 1);
        assert(!bit_value(sigma, s[hi - 1]));
    }
}

/// Some extension makes every gate of the tables hold for every assignment of the inputs
/// `1..=inputs`.
pub open spec fn ext_exists(inputs: int, and: Seq<((i32, i32), Bit)>, xor: Seq<((i32, i32), Bit)>) -> bool {
    exists|ext: spec_fn(Assign) -> Assign| natural(ext, inputs, and, xor)
}

/// An assignment of the variables.
pub type Assign = spec_fn(int) -> bool;

/// `sigma` with variable `v` set to `b`.
pub open spec fn set_var(sigma: Assign, v: int, b: bool) -> Assign {
    |u: int| if u == v { b } else { sigma(u) }
}

/// `ext` extends each assignment of the input variables `1..=inputs` to one under which every
/// gate of the tables holds, keeping the inputs.
pub open spec fn natural(ext: spec_fn(Assign) -> Assign, inputs: int, and: Seq<((i32, i32), Bit)>, xor: Seq<((i32, i32), Bit)>) -> bool {
    forall|tau: Assign| {
        &&& #[trigger] gates_hold(ext(tau), and, xor)
        &&& forall|v: int| 1 <= v <= inputs ==> ext(tau)(v) == #[trigger] tau(v)
    }
}

/// `e2` keeps the values that `e1` gives to the variables `1..=node`.
pub open spec fn keeps(e1: spec_fn(Assign) -> Assign, e2: spec_fn(Assign) -> Assign, node: int) -> bool {
    forall|tau: Assign, v: int| 1 <= v <= node ==> #[trigger] e2(tau)(v) == e1(tau)(v)
}

proof fn lemma_lit_same(s1: Assign, s2: Assign, v: int)
    requires
        v != 0,
        s1(if v < 0 { -v } else { v }) == s2(if v < 0 { -v } else { v }),
    ensures
        lit_holds(s1, v) == lit_holds(s2, v),
{
}

proof fn lemma_gates_stable(s1: Assign, s2: Assign, a: Seq<((i32, i32), Bit)>, x: Seq<((i32, i32), Bit)>, node: int)
    requires
        table_ok(a, node),
        table_ok(x, node),
        forall|u: int| 1 <= u <= node ==> #[trigger] s1(u) == s2(u),
        gates_hold(s1, a, x),
    ensures
        gates_hold(s2, a, x),
{
    assert forall|i: int| #![trigger a[i]] 0 <= i < a.len() && a[i].1 is Node implies lit_holds(s2, a[i].1->Node_0 as int)
        == (lit_holds(s2, a[i].0.0 as int) && lit_holds(s2, a[i].0.1 as int)) by {
        assert(var_ok(a[i].0.0 as int, node) && var_ok(a[i].0.1 as int, node) && fresh_var(a[i].1, node));
        lemma_lit_same(s1, s2, a[i].0.0 as int);
        lemma_lit_same(s1, s2, a[i].0.1 as int);
        lemma_lit_same(s1, s2, a[i].1->Node_0 as int);
    }
    assert forall|i: int| #![trigger x[i]] 0 <= i < x.len() && x[i].1 is Node implies lit_holds(s2, x[i].1->Node_0 as int)
        == (lit_holds(s2, x[i].0.0 as int) != lit_holds(s2, x[i].0.1 as int)) by {
        assert(var_ok(x[i].0.0 as int, node) && var_ok(x[i].0.1 as int, node) && fresh_var(x[i].1, node));
        lemma_lit_same(s1, s2, x[i].0.0 as int);
        lemma_lit_same(s1, s2, x[i].0.1 as int);
        lemma_lit_same(s1, s2, x[i].1->Node_0 as int);
    }
}

/// After [`Bit::calc`] on a table of the gates, the extension of the assignments by the new
/// gate's value.
proof fn lemma_ext_calc(
    ext: spec_fn(Assign) -> Assign,
    inputs: int,
    s0: Seq<((i32, i32), Bit)>,
    s1: Seq<((i32, i32), Bit)>,
    other: Seq<((i32, i32), Bit)>,
    k: (i32, i32),
    r: Bit,
    n0: int,
    n1: int,
    is_xor: bool,
) -> (ext2: spec_fn(Assign) -> Assign)
    requires
        calc_effect(s0, s1, k, r, n0, n1),
        table_ok(s0, n0),
        table_ok(other, n0),
        var_ok(k.0 as int, n0),
        var_ok(k.1 as int, n0),
        0 <= inputs <= n0,
        n1 <= i32::MAX,
        is_xor ==> natural(ext, inputs, other, s0),
        !is_xor ==> natural(ext, inputs, s0, other),
    ensures
        is_xor ==> natural(ext2, inputs, other, s1),
        !is_xor ==> natural(ext2, inputs, s1, other),
        keeps(ext, ext2, n0),
{
    if has_key(s0, k) {
        ext
    } else {
        let ext2 = |tau: Assign| set_var(
            ext(tau),
            n1,
            if is_xor {
                lit_holds(ext(tau), k.0 as int) != lit_holds(ext(tau), k.1 as int)
            } else {
                lit_holds(ext(tau), k.0 as int) && lit_holds(ext(tau), k.1 as int)
            },
        );
        let p = choose|p: int| 0 <= p <= s0.len() && s1 == s0.insert(p, (k, r));
        let a1 = if is_xor { other } else { s1 };
        let x1 = if is_xor { s1 } else { other };
        let a0 = if is_xor { other } else { s0 };
        let x0 = if is_xor { s0 } else { other };
        assert forall|tau: Assign| {
            &&& #[trigger] gates_hold(ext2(tau), a1, x1)
            &&& forall|v: int| 1 <= v <= inputs ==> ext2(tau)(v) == #[trigger] tau(v)
        } by {
            let e = ext(tau);
            let f = ext2(tau);
            assert(gates_hold(e, a0, x0));
            assert forall|u: int| 1 <= u <= n0 implies #[trigger] e(u) == f(u) by {}
            lemma_gates_stable(e, f, a0, x0, n0);
            lemma_lit_same(e, f, k.0 as int);
            lemma_lit_same(e, f, k.1 as int);
            assert(s1[p] == (k, r));
            if is_xor {
                assert forall|i: int| #![trigger s1[i]] 0 <= i < s1.len() && s1[i].1 is Node implies lit_holds(f, s1[i].1->Node_0 as int)
                    == (lit_holds(f, s1[i].0.0 as int) != lit_holds(f, s1[i].0.1 as int)) by {
                    if i < p {
                        assert(s1[i] == s0[i]);
                    } else if i > p {
                        assert(s1[i] == s0[i - 1]);
                    }
                }
            } else {
                assert forall|i: int| #![trigger s1[i]] 0 <= i < s1.len() && s1[i].1 is Node implies lit_holds(f, s1[i].1->Node_0 as int)
                    == (lit_holds(f, s1[i].0.0 as int) && lit_holds(f, s1[i].0.1 as int)) by {
                    if i < p {
                        assert(s1[i] == s0[i]);
                    } else if i > p {
                        assert(s1[i] == s0[i - 1]);
                    }
                }
            }
        }
        ext2
    }
}

/// The number of products in column `c` of an `lw` by `rw` long multiplication.
pub open spec fn ncol(c: int, lw: int, rw: int) -> int {
    col_hi(c, lw) - col_lo(c, rw)
}

/// The largest value of the columns `c < k` of an `lw` by `rw` long multiplication: each
/// product counted as 1.
pub open spec fn maxsum(lw: int, rw: int, k: int) -> int
    decreases k,
{
    if k <= 0 { 0 } else { maxsum(lw, rw, k - 1) + pow2((k - 1) as nat) * ncol(k - 1, lw, rw) }
}

/// The sum of `2^(p + 1) * s[p]` over `lo <= p < hi`.
pub open spec fn cnum(s: Seq<usize>, lo: int, hi: int) -> int
    decreases hi - lo,
{
    if hi <= lo { 0 } else { cnum(s, lo, hi - 1) + pow2(hi as nat) * s[hi - 1] }
}

spec fn lip_sum(n: int, k: int, j: int) -> int
    decreases j,
{
    if j <= 0 { 0 } else { lip_sum(n, k, j - 1) + pow2((j - 1) as nat) * (n + k - (j - 1)) }
}

proof fn lemma_lip_sum(n: int, k: int, j: int)
    requires
        0 <= j <= k,
    ensures
        lip_sum(n, k, j) == n * (pow2(j as nat) - 1) + (k - j + 2) * pow2(j as nat) - k - 2,
    decreases j,
{
    if j > 0 {
        lemma_lip_sum(n, k, j - 1);
        lemma_pow2_unfold(j as nat);
        let q = pow2((j - 1) as nat) as int;
        assert(pow2(j as nat) == 2 * q);
        assert(n * (2 * q - 1) + (k - j + 2) * (2 * q) - k - 2 == n * (q - 1) + (k - (j - 1) + 2) * q - k - 2
            + q * (n + k - (j - 1))) by (nonlinear_arith);
        assert(lip_sum(n, k, j) == lip_sum(n, k, j - 1) + q * (n + k - (j - 1)));
        let pj = pow2(j as nat) as int;
        let l1 = lip_sum(n, k, j - 1);
        let l2 = lip_sum(n, k, j);
        assert(l2 == n * (pj - 1) + (k - j + 2) * pj - k - 2) by (nonlinear_arith)
            requires
                pj == 2 * q,
                l1 == n * (q - 1) + (k - (j - 1) + 2) * q - k - 2,
                l2 == l1 + q * (n + k - (j - 1)),
        ;
    } else {
        assert(pow2(0) == 1) by {
            vstd::arithmetic::power2::lemma2_to64();
        }
        let p0 = pow2(j as nat) as int;
        assert(p0 == 1);
        assert(n * (p0 - 1) + (k - j + 2) * p0 - k - 2 == 0) by (nonlinear_arith)
            requires
                p0 == 1,
                j == 0,
        ;
    }
}

proof fn lemma_maxsum_lip(lw: int, rw: int, k: int, j: int)
    requires
        1 <= lw,
        0 <= rw <= lw,
        0 <= j <= k < lw + rw - 1,
    ensures
        maxsum(lw, rw, j) <= lip_sum(ncol(k, lw, rw), k, j),
    decreases j,
{
    if j > 0 {
        lemma_maxsum_lip(lw, rw, k, j - 1);
        let c = j - 1;
        assert(ncol(c, lw, rw) <= ncol(k, lw, rw) + (k - c));
        let q = pow2(c as nat) as int;
        lemma_pow2_pos(c as nat);
        assert(q * ncol(c, lw, rw) <= q * (ncol(k, lw, rw) + k - c)) by (nonlinear_arith)
            requires
                q > 0,
                ncol(c, lw, rw) <= ncol(k, lw, rw) + (k - c),
        ;
    }
}

/// The columns before `k` add up to less than `2^k` times the number of products of column
/// `k` plus two.
proof fn lemma_maxsum_bound(lw: int, rw: int, k: int)
    requires
        1 <= lw,
        1 <= rw <= lw,
        0 <= k < lw + rw - 1,
    ensures
        maxsum(lw, rw, k) < pow2(k as nat) * (ncol(k, lw, rw) + 2),
        ncol(k, lw, rw) >= 1,
{
    lemma_maxsum_lip(lw, rw, k, k);
    lemma_lip_sum(ncol(k, lw, rw), k, k);
    let q = pow2(k as nat) as int;
    lemma_pow2_pos(k as nat);
    let n = ncol(k, lw, rw);
    assert(n * (q - 1) + 2 * q - k - 2 < q * (n + 2)) by (nonlinear_arith)
        requires
            n >= 1,
            k >= 0,
            q >= 1,
    ;
}

/// Where adding `n * 2^k` to `m` leaves the digits from `2^p` up unchanged, and `m` is below
/// `2^k * (n + 2)`, the sum stays below `2^(p + 1)`.
proof fn lemma_stop_bound(m: int, n: int, k: int, p: int)
    requires
        0 <= k < p,
        0 <= m,
        1 <= n,
        m < pow2(k as nat) * (n + 2),
        m % (pow2(p as nat) as int) + n * pow2(k as nat) < pow2(p as nat),
    ensures
        m + n * pow2(k as nat) < pow2((p + 1) as nat),
{
    let a = pow2(k as nat) as int;
    let d = pow2((p - k) as nat) as int;
    let b = pow2(p as nat) as int;
    vstd::arithmetic::power2::lemma_pow2_adds(k as nat, (p - k) as nat);
    assert(b == a * d);
    lemma_pow2_unfold((p + 1) as nat);
    lemma_pow2_pos(k as nat);
    lemma_pow2_unfold((p - k) as nat);
    lemma_pow2_pos((p - k - 1) as nat);
    assert(d >= 2);
    lemma_pow2_pos(p as nat);
    let h = m / b;
    lemma_fundamental_div_mod(m, b);
    lemma_mod_bound(m, b);
    assert(h <= 1) by {
        if h >= 2 {
            assert(m >= 2 * b) by (nonlinear_arith)
                requires
                    m == b * h + m % b,
                    h >= 2,
                    m % b >= 0,
                    b > 0,
            ;
            assert(n * a < a * d) by (nonlinear_arith)
                requires
                    m % b + n * a < b,
                    m % b >= 0,
                    b == a * d,
            ;
            assert(n < d) by (nonlinear_arith)
                requires
                    n * a < a * d,
                    a > 0,
            ;
            assert(2 * a * d < a * (n + 2)) by (nonlinear_arith)
                requires
                    m >= 2 * b,
                    b == a * d,
                    m < a * (n + 2),
            ;
            assert(2 * d < n + 2) by (nonlinear_arith)
                requires
                    2 * a * d < a * (n + 2),
                    a > 0,
            ;
        }
    }
    assert(m + n * a < 2 * b) by (nonlinear_arith)
        requires
            m == b * h + m % b,
            h <= 1,
            m % b + n * a < b,
            b > 0,
    ;
}

proof fn lemma_pow2_multiple(i: int, j: int, x: int)
    requires
        0 <= i <= j,
    ensures
        (pow2(j as nat) * x) % (pow2(i as nat) as int) == 0,
        pow2(j as nat) * x == pow2(i as nat) * (pow2((j - i) as nat) * x),
{
    vstd::arithmetic::power2::lemma_pow2_adds(i as nat, (j - i) as nat);
    lemma_pow2_pos(i as nat);
    assert(pow2(j as nat) * x == pow2(i as nat) * (pow2((j - i) as nat) * x)) by (nonlinear_arith)
        requires
            pow2(j as nat) == pow2(i as nat) * pow2((j - i) as nat),
    ;
    let t = pow2((j - i) as nat) * x;
    let m = pow2(i as nat) as int;
    vstd::arithmetic::div_mod::lemma_mod_multiples_basic(t, m);
    assert(t * m == pow2(j as nat) * x) by (nonlinear_arith)
        requires
            pow2(j as nat) * x == m * t,
    ;
}

proof fn lemma_multiple_add(a: int, b: int, m: int)
    requires
        m > 0,
        a % m == 0,
        b % m == 0,
    ensures
        (a + b) % m == 0,
{
    vstd::arithmetic::div_mod::lemma_add_mod_noop(a, b, m);
    vstd::arithmetic::div_mod::lemma_small_mod(0, m as nat);
}

proof fn lemma_lr_sum_bound(sigma: Assign, left: Seq<Bit>, right: Seq<Bit>, k: int, lo: int, hi: int)
    requires
        lo <= hi,
    ensures
        0 <= lr_sum(sigma, left, right, k, lo, hi) <= hi - lo,
    decreases hi - lo,
{
    if hi > lo {
        lemma_lr_sum_bound(sigma, left, right, k, lo, hi - 1);
    }
}

/// The long multiplication is at most its largest value, each product counted as 1.
proof fn lemma_long_max(sigma: Assign, left: Seq<Bit>, right: Seq<Bit>, k: int)
    requires
        1 <= left.len(),
        right.len() <= left.len(),
        0 <= k <= left.len() + right.len() - 1,
    ensures
        0 <= long_product(sigma, left, right, k) <= maxsum(left.len() as int, right.len() as int, k),
    decreases k,
{
    if k > 0 {
        lemma_long_max(sigma, left, right, k - 1);
        let c = k - 1;
        lemma_lr_sum_bound(sigma, left, right, c, col_lo(c, right.len() as int), col_hi(c, left.len() as int));
        lemma_pow2_pos(c as nat);
        let q = pow2(c as nat) as int;
        let x = lr_sum(sigma, left, right, c, col_lo(c, right.len() as int), col_hi(c, left.len() as int));
        let n = ncol(c, left.len() as int, right.len() as int);
        assert(0 <= q * x <= q * n) by (nonlinear_arith)
            requires
                q > 0,
                0 <= x <= n,
        ;
    }
}

/// The columns from `i` on add a multiple of `2^i` to the long multiplication.
proof fn lemma_long_mod(sigma: Assign, left: Seq<Bit>, right: Seq<Bit>, i: int, j: int)
    requires
        0 <= i <= j,
    ensures
        (long_product(sigma, left, right, j) - long_product(sigma, left, right, i)) % (pow2(i as nat) as int) == 0,
    decreases j,
{
    lemma_pow2_pos(i as nat);
    if j > i {
        lemma_long_mod(sigma, left, right, i, j - 1);
        let c = j - 1;
        let x = lr_sum(sigma, left, right, c, col_lo(c, right.len() as int), col_hi(c, left.len() as int));
        lemma_pow2_multiple(i, c, x);
        lemma_multiple_add(long_product(sigma, left, right, j - 1) - long_product(sigma, left, right, i), pow2(c as nat) * x, pow2(i as nat) as int);
    } else {
        vstd::arithmetic::div_mod::lemma_small_mod(0, pow2(i as nat));
    }
}

/// A number's low bits: the first `i` of `j` bits.
proof fn lemma_bits_sum_mod(sigma: Assign, s: Seq<Bit>, i: int, j: int)
    requires
        0 <= i <= j,
    ensures
        0 <= bits_sum(sigma, s, i) < pow2(i as nat),
        (bits_sum(sigma, s, j) - bits_sum(sigma, s, i)) % (pow2(i as nat) as int) == 0,
    decreases j,
{
    lemma_pow2_pos(i as nat);
    if j > i {
        lemma_bits_sum_mod(sigma, s, i, j - 1);
        let c = j - 1;
        let x = b2i(c < s.len() && bit_value(sigma, s[c]));
        lemma_pow2_multiple(i, c, x);
        lemma_multiple_add(bits_sum(sigma, s, j - 1) - bits_sum(sigma, s, i), pow2(c as nat) * x, pow2(i as nat) as int);
    } else {
        vstd::arithmetic::div_mod::lemma_small_mod(0, pow2(i as nat));
        if i > 0 {
            lemma_bits_sum_mod(sigma, s, i - 1, i - 1);
            lemma_pow2_unfold(i as nat);
            let x = b2i(i - 1 < s.len() && bit_value(sigma, s[i - 1]));
            let q = pow2((i - 1) as nat) as int;
            assert(q * x <= q) by (nonlinear_arith)
                requires
                    0 <= x <= 1,
                    q > 0,
            ;
            assert(0 <= q * x) by (nonlinear_arith)
                requires
                    0 <= x,
                    q > 0,
            ;
        } else {
            assert(pow2(0) == 1) by {
                vstd::arithmetic::power2::lemma2_to64();
            }
        }
    }
}

/// The carries kept at the positions `lo..hi` are a multiple of `2^(lo + 1)` below
/// `2^(hi + 1)`.
proof fn lemma_wsum_range(sigma: Assign, s: Seq<Bit>, lo: int, hi: int)
    requires
        0 <= lo <= hi,
    ensures
        0 <= wsum(sigma, s, lo, hi) <= pow2((hi + 1) as nat) - pow2((lo + 1) as nat),
        wsum(sigma, s, lo, hi) % (pow2((lo + 1) as nat) as int) == 0,
    decreases hi - lo,
{
    lemma_pow2_pos((lo + 1) as nat);
    if hi > lo {
        lemma_wsum_range(sigma, s, lo, hi - 1);
        let x = b2i(bit_value(sigma, s[hi - 1]));
        lemma_pow2_multiple(lo + 1, hi, x);
        lemma_multiple_add(wsum(sigma, s, lo, hi - 1), pow2(hi as nat) * x, pow2((lo + 1) as nat) as int);
        lemma_pow2_unfold((hi + 1) as nat);
        let q = pow2(hi as nat) as int;
        assert(0 <= q * x <= q) by (nonlinear_arith)
            requires
                0 <= x <= 1,
                q > 0,
        ;
        lemma_pow2_pos(hi as nat);
    } else {
        vstd::arithmetic::div_mod::lemma_small_mod(0, pow2((lo + 1) as nat));
    }
}

/// The counter digits at the positions `lo..hi`, each 0 or 1, are a multiple of `2^(lo + 1)`
/// below `2^(hi + 1)`.
proof fn lemma_cnum_range(c: Seq<usize>, lo: int, hi: int)
    requires
        0 <= lo <= hi <= c.len(),
        forall|t: int| 0 <= t < c.len() ==> #[trigger] c[t] <= 1,
    ensures
        0 <= cnum(c, lo, hi) <= pow2((hi + 1) as nat) - pow2((lo + 1) as nat),
        cnum(c, lo, hi) % (pow2((lo + 1) as nat) as int) == 0,
    decreases hi - lo,
{
    lemma_pow2_pos((lo + 1) as nat);
    if hi > lo {
        lemma_cnum_range(c, lo, hi - 1);
        let x = c[hi - 1] as int;
        lemma_pow2_multiple(lo + 1, hi, x);
        lemma_multiple_add(cnum(c, lo, hi - 1), pow2(hi as nat) * x, pow2((lo + 1) as nat) as int);
        lemma_pow2_unfold((hi + 1) as nat);
        let q = pow2(hi as nat) as int;
        assert(0 <= q * x <= q) by (nonlinear_arith)
            requires
                0 <= x <= 1,
                q > 0,
        ;
        lemma_pow2_pos(hi as nat);
    } else {
        vstd::arithmetic::div_mod::lemma_small_mod(0, pow2((lo + 1) as nat));
    }
}

proof fn lemma_cnum_split(c: Seq<usize>, lo: int, m: int, hi: int)
    requires
        lo <= m <= hi,
    ensures
        cnum(c, lo, hi) == cnum(c, lo, m) + cnum(c, m, hi),
    decreases hi - m,
{
    if hi > m {
        lemma_cnum_split(c, lo, m, hi - 1);
    }
}

proof fn lemma_cnum_frame(c1: Seq<usize>, c2: Seq<usize>, lo: int, hi: int)
    requires
        forall|p: int| lo <= p < hi ==> c1[p] == c2[p],
    ensures
        cnum(c1, lo, hi) == cnum(c2, lo, hi),
    decreases hi - lo,
{
    if hi > lo {
        lemma_cnum_frame(c1, c2, lo, hi - 1);
        assert(c1[hi - 1] == c2[hi - 1]);
    }
}

proof fn lemma_cnum_update(c: Seq<usize>, lo: int, hi: int, q: int, x: usize)
    requires
        lo <= q < hi,
        hi <= c.len(),
        0 <= lo,
    ensures
        cnum(c.update(q, x), lo, hi) == cnum(c, lo, hi) - pow2((q + 1) as nat) * c[q] + pow2((q + 1) as nat) * x,
    decreases hi - lo,
{
    if q < hi - 1 {
        lemma_cnum_update(c, lo, hi - 1, q, x);
        assert(c.update(q, x)[hi - 1] == c[hi - 1]);
    } else {
        lemma_cnum_frame(c.update(q, x), c, lo, hi - 1);
    }
}

/// The bits of `left` times those of `right` agree under `sigma` with the bits of `target`
/// in the lowest `left.len() + right.len() - 1` bits, the columns of their long multiplication.
pub open spec fn agrees(sigma: Assign, left: Seq<Bit>, right: Seq<Bit>, target: Seq<Bit>) -> bool {
    let len = left.len() + right.len() - 1;
    (bits_sum(sigma, left, left.len() as int) * bits_sum(sigma, right, right.len() as int) - bits_sum(sigma, target, len))
        % (pow2(len as nat) as int) == 0
}

proof fn lemma_mod_of_sum(a: int, b: int, c: int, m: int)
    requires
        m > 0,
        a == b + c,
        0 <= b < m,
        c % m == 0,
    ensures
        a % m == b,
{
    lemma_fundamental_div_mod(c, m);
    vstd::arithmetic::div_mod::lemma_mod_multiples_vanish(c / m, b, m);
    vstd::arithmetic::div_mod::lemma_small_mod(b as nat, m as nat);
    assert(a == m * (c / m) + b);
}

/// The counter's carry died before position `pos`: in terms of the largest column sums, adding
/// column `k` leaves the digits from `2^pos` up unchanged.
proof fn lemma_stop_from_counter(c0: Seq<usize>, c1: Seq<usize>, k: int, pos: int, len: int, n: int, mx: int)
    requires
        0 <= k < pos < len,
        c0.len() == len,
        c1.len() == len,
        0 <= mx,
        0 <= n,
        forall|t: int| 0 <= t < len ==> #[trigger] c0[t] <= 1,
        forall|t: int| 0 <= t < len ==> #[trigger] c1[t] <= 1,
        cnum(c0, 0, len) == (2 * mx) % (pow2((len + 1) as nat) as int),
        cnum(c1, 0, len) == cnum(c0, 0, len) + pow2((k + 1) as nat) * n,
        forall|p: int| pos <= p < len ==> c1[p] == c0[p],
    ensures
        mx % (pow2(pos as nat) as int) + n * pow2(k as nat) < pow2(pos as nat),
{
    let pp = pow2((pos + 1) as nat) as int;
    let pl = pow2((len + 1) as nat) as int;
    lemma_pow2_pos((pos + 1) as nat);
    lemma_pow2_pos((len + 1) as nat);
    lemma_pow2_pos(pos as nat);
    lemma_cnum_split(c0, 0, pos, len);
    lemma_cnum_split(c1, 0, pos, len);
    lemma_cnum_frame(c0, c1, pos, len);
    lemma_cnum_range(c0, 0, pos);
    lemma_cnum_range(c1, 0, pos);
    lemma_cnum_range(c0, pos, len);
    lemma_pow2_pos(1);
    lemma_mod_of_sum(cnum(c0, 0, len), cnum(c0, 0, pos), cnum(c0, pos, len), pp);
    // (2 mx mod 2^(len+1)) mod 2^(pos+1) == 2 mx mod 2^(pos+1)
    vstd::arithmetic::power2::lemma_pow2_adds((pos + 1) as nat, (len - pos) as nat);
    assert(pl == pp * pow2((len - pos) as nat)) by {
        assert(((pos + 1) + (len - pos)) as nat == (len + 1) as nat);
    }
    lemma_pow2_pos((len - pos) as nat);
    vstd::arithmetic::div_mod::lemma_mod_mod(2 * mx, pp, pow2((len - pos) as nat) as int);
    // 2 mx mod 2^(pos+1) == 2 (mx mod 2^pos)
    lemma_pow2_unfold((pos + 1) as nat);
    let q = pow2(pos as nat) as int;
    lemma_fundamental_div_mod(mx, q);
    lemma_mod_bound(mx, q);
    assert(2 * mx == 2 * (mx % q) + 2 * q * (mx / q)) by (nonlinear_arith)
        requires
            mx == q * (mx / q) + mx % q,
    ;
    vstd::arithmetic::div_mod::lemma_mod_multiples_basic(mx / q, pp);
    assert(2 * q * (mx / q) == (mx / q) * pp) by (nonlinear_arith)
        requires
            pp == 2 * q,
    ;
    lemma_mod_of_sum(2 * mx, 2 * (mx % q), 2 * q * (mx / q), pp);
    vstd::arithmetic::div_mod::lemma_mod_multiples_basic(mx / q, pp);
    assert(2 * q * (mx / q) == (mx / q) * pp) by (nonlinear_arith)
        requires
            pp == 2 * q,
    ;
    lemma_pow2_unfold((k + 1) as nat);
    assert(pow2((k + 1) as nat) * n == 2 * (n * pow2(k as nat))) by (nonlinear_arith)
        requires
            pow2((k + 1) as nat) == 2 * pow2(k as nat),
    ;
}

/// Two numbers that are equal modulo `2^(k+1)` and have the same low `k` bits have the same
/// bit `k`.
proof fn lemma_bit_match(tk: int, m: int, br: int, bt: int, w: int, x: int, y: int, z: int)
    requires
        m > 0,
        0 <= tk < m,
        0 <= br <= 1,
        0 <= bt <= 1,
        w % (2 * m) == 0,
        x == tk + m * br + w,
        y == tk + m * bt,
        (x - y) % (2 * m) == 0,
    ensures
        br == bt,
{
    lemma_fundamental_div_mod(w, 2 * m);
    lemma_fundamental_div_mod(x - y, 2 * m);
    let a = w / (2 * m);
    let b = (x - y) / (2 * m);
    assert(m * (br - bt) == 2 * m * (b - a)) by (nonlinear_arith)
        requires
            x - y == 2 * m * b,
            w == 2 * m * a,
            x == tk + m * br + w,
            y == tk + m * bt,
    ;
    assert(br - bt == 2 * (b - a)) by (nonlinear_arith)
        requires
            m * (br - bt) == 2 * m * (b - a),
            m > 0,
    ;
}

/// Where the long multiplication agrees with the target, its partial sum up to column `k + 1`
/// agrees with the target's low `k + 1` bits.
proof fn lemma_agree_prefix(sigma: Assign, left: Seq<Bit>, right: Seq<Bit>, target: Seq<Bit>, k: int)
    requires
        1 <= left.len() + right.len(),
        0 <= k < left.len() + right.len() - 1,
        agrees(sigma, left, right, target),
    ensures
        (long_product(sigma, left, right, k + 1) - bits_sum(sigma, target, k + 1)) % (pow2((k + 1) as nat) as int) == 0,
{
    let len = left.len() + right.len() - 1;
    let m = pow2((k + 1) as nat) as int;
    lemma_pow2_pos((k + 1) as nat);
    lemma_long_product(sigma, left, right);
    lemma_long_mod(sigma, left, right, k + 1, len);
    lemma_bits_sum_mod(sigma, target, k + 1, len);
    let d = bits_sum(sigma, left, left.len() as int) * bits_sum(sigma, right, right.len() as int) - bits_sum(sigma, target, len);
    lemma_pow2_multiple(k + 1, len, 1);
    lemma_pow2_pos(len as nat);
    lemma_fundamental_div_mod(d, pow2(len as nat) as int);
    let e = d / (pow2(len as nat) as int);
    assert(d == pow2(len as nat) * e);
    assert(pow2(len as nat) * e == m * (pow2((len - k - 1) as nat) * e)) by (nonlinear_arith)
        requires
            pow2(len as nat) * 1 == m * (pow2((len - k - 1) as nat) * 1),
    ;
    vstd::arithmetic::div_mod::lemma_mod_multiples_basic(pow2((len - k - 1) as nat) * e, m);
    assert((pow2((len - k - 1) as nat) * e) * m == d) by (nonlinear_arith)
        requires
            d == m * (pow2((len - k - 1) as nat) * e),
    ;
    let lp = long_product(sigma, left, right, len);
    let lpk = long_product(sigma, left, right, k + 1);
    let tl = bits_sum(sigma, target, len);
    let tk = bits_sum(sigma, target, k + 1);
    lemma_fundamental_div_mod(lp - lpk, m);
    lemma_fundamental_div_mod(tl - tk, m);
    let c = pow2((len - k - 1) as nat) * e;
    let qa = (lp - lpk) / m;
    let qb = (tl - tk) / m;
    assert(d == lp - tl);
    assert(lpk - tk == (c - qa + qb) * m) by (nonlinear_arith)
        requires
            lp - tl == m * c,
            lp - lpk == m * qa + (lp - lpk) % m,
            (lp - lpk) % m == 0,
            tl - tk == m * qb + (tl - tk) % m,
            (tl - tk) % m == 0,
    ;
    vstd::arithmetic::div_mod::lemma_mod_multiples_basic(c - qa + qb, m);
}

/// The carries left over past the last position the counter reached are zero: the column's
/// sum stays below the weight of that position.
proof fn lemma_leftover(k: int, pos: int, on: int, o0: int, wlo: int, w0lo: int, w0: int, br: int, bs: int, col: int, tk: int, lpk: int)
    requires
        0 <= k < pos,
        pow2((pos + 1) as nat) * on + wlo == pow2((k + 1) as nat) * o0 + w0lo,
        0 <= wlo,
        0 <= on,
        br + 2 * o0 == bs + col,
        0 <= br <= 1,
        0 <= bs <= 1,
        0 <= tk,
        tk + pow2(k as nat) * bs + w0 == lpk,
        w0lo <= w0,
        lpk + pow2(k as nat) * col < pow2((pos + 1) as nat),
    ensures
        on == 0,
{
    let pk = pow2(k as nat) as int;
    let pp = pow2((pos + 1) as nat) as int;
    lemma_pow2_unfold((k + 1) as nat);
    lemma_pow2_pos(k as nat);
    assert(pow2((k + 1) as nat) * o0 == pk * (bs + col - br)) by (nonlinear_arith)
        requires
            pow2((k + 1) as nat) == 2 * pk,
            br + 2 * o0 == bs + col,
    ;
    assert(pk * (bs + col - br) <= pk * bs + pk * col) by (nonlinear_arith)
        requires
            pk > 0,
            br >= 0,
    ;
    assert(pp * on < pp);
    assert(on < 1) by (nonlinear_arith)
        requires
            pp * on < pp,
            pp > 0,
    ;
}

proof fn lemma_ones_zero(sigma: Assign, s: Seq<Bit>)
    requires
        ones(sigma, s) == 0,
    ensures
        forall|i: int| 0 <= i < s.len() ==> !bit_value(sigma, #[trigger] s[i]),
    decreases s.len(),
{
    if s.len() > 0 {
        let t = s.drop_last();
        lemma_ones_nonneg(sigma, t);
        lemma_ones_zero(sigma, t);
        assert forall|i: int| 0 <= i < s.len() implies !bit_value(sigma, #[trigger] s[i]) by {
            if i < t.len() {
                assert(s[i] == t[i]);
            }
        }
    }
}

proof fn lemma_ones_nonneg(sigma: Assign, s: Seq<Bit>)
    ensures
        0 <= ones(sigma, s) <= s.len(),
    decreases s.len(),
{
    if s.len() > 0 {
        lemma_ones_nonneg(sigma, s.drop_last());
    }
}

/// The clauses that [`Bit::eq`] adds hold wherever the two bits are equal.
proof fn lemma_eq_keeps(sigma: Assign, a: Bit, b: Bit, c0: Seq<i32>, c1: Seq<i32>, p0: Seq<((i32, i32), ())>, p1: Seq<((i32, i32), ())>, n: int)
    requires
        eq_effect(a, b, c0, c1, p0, p1),
        bit_ok(a, n),
        bit_ok(b, n),
        n <= i32::MAX,
        eqs_hold(sigma, c0, p0),
        bit_value(sigma, a) == bit_value(sigma, b),
    ensures
        eqs_hold(sigma, c1, p1),
{
    match (a, b) {
        (Bit::Constant(_), Bit::Constant(_)) => {},
        (Bit::Node(x), Bit::Node(y)) => {
            lemma_lit_neg(sigma, x as int);
            lemma_lit_neg(sigma, y as int);
            let k1 = sort_spec(x, -y as i32);
            let k2 = sort_spec(-x as i32, y);
            let mid = choose|mid: Seq<((i32, i32), ())>| key_added(p0, mid, k1) && key_added(mid, p1, k2);
            lemma_key_added_holds(sigma, p0, mid, k1);
            lemma_key_added_holds(sigma, mid, p1, k2);
        },
        (Bit::Node(v), Bit::Constant(c)) | (Bit::Constant(c), Bit::Node(v)) => {
            lemma_lit_neg(sigma, v as int);
            let w: i32 = if c { v } else { -v as i32 };
            assert(lit_holds(sigma, w as int));
            if !c0.contains(w) {
                let p = choose|p: int| 0 <= p <= c0.len() && c1 == c0.insert(p, w);
                assert forall|i: int| 0 <= i < c1.len() implies lit_holds(sigma, #[trigger] c1[i] as int) by {
                    if i < p {
                        assert(c1[i] == c0[i]);
                    } else if i > p {
                        assert(c1[i] == c0[i - 1]);
                    }
                }
            }
        },
    }
}

proof fn lemma_key_added_holds(sigma: Assign, s0: Seq<((i32, i32), ())>, s1: Seq<((i32, i32), ())>, k: (i32, i32))
    requires
        key_added(s0, s1, k),
        pairs_hold(sigma, s0),
        lit_holds(sigma, k.0 as int) || lit_holds(sigma, k.1 as int),
    ensures
        pairs_hold(sigma, s1),
{
    if !has_key(s0, k) {
        let p = choose|p: int| 0 <= p <= s0.len() && s1 == s0.insert(p, (k, ()));
        assert forall|i: int| 0 <= i < s1.len() implies lit_holds(sigma, (#[trigger] s1[i]).0.0 as int) || lit_holds(sigma, s1[i].0.1 as int) by {
            if i < p {
                assert(s1[i] == s0[i]);
            } else if i > p {
                assert(s1[i] == s0[i - 1]);
            }
        }
    }
}

proof fn lemma_long_mono(sigma: Assign, left: Seq<Bit>, right: Seq<Bit>, i: int, j: int)
    requires
        0 <= i <= j,
    ensures
        long_product(sigma, left, right, i) <= long_product(sigma, left, right, j),
    decreases j,
{
    if j > i {
        lemma_long_mono(sigma, left, right, i, j - 1);
        let c = j - 1;
        if col_lo(c, right.len() as int) <= col_hi(c, left.len() as int) {
            lemma_lr_sum_bound(sigma, left, right, c, col_lo(c, right.len() as int), col_hi(c, left.len() as int));
        }
        lemma_pow2_pos(c as nat);
        let x = lr_sum(sigma, left, right, c, col_lo(c, right.len() as int), col_hi(c, left.len() as int));
        assert(0 <= pow2(c as nat) * x) by (nonlinear_arith)
            requires
                0 <= x,
                pow2(c as nat) > 0,
        ;
    }
}

/// After the counter stopped at `pos`, having added `n` times `2^(k + 1)` with its carry `count`
/// dropped only past the last position, it reads twice the new largest column sum.
proof fn lemma_counter_next(c0: Seq<usize>, c1: Seq<usize>, k: int, pos: int, len: int, n: int, count: int, mx: int)
    requires
        0 <= k <= pos <= len,
        0 <= n,
        0 <= count,
        count == 0 || pos == len,
        c0.len() == len,
        c1.len() == len,
        forall|t: int| 0 <= t < len ==> #[trigger] c1[t] <= 1,
        cnum(c0, 0, len) == (2 * mx) % (pow2((len + 1) as nat) as int),
        cnum(c1, 0, len) + pow2((pos + 1) as nat) * count == cnum(c0, 0, len) + pow2((k + 1) as nat) * n,
    ensures
        cnum(c1, 0, len) == (2 * (mx + pow2(k as nat) * n)) % (pow2((len + 1) as nat) as int),
{
    let pl = pow2((len + 1) as nat) as int;
    lemma_pow2_pos((len + 1) as nat);
    lemma_cnum_range(c1, 0, len);
    lemma_pow2_pos(1);
    lemma_pow2_unfold((k + 1) as nat);
    let y = 2 * (mx + pow2(k as nat) * n);
    let x = cnum(c1, 0, len);
    lemma_fundamental_div_mod(2 * mx, pl);
    let d = pow2((pos + 1) as nat) * count;
    assert(y - x == pl * ((2 * mx) / pl) + d) by (nonlinear_arith)
        requires
            x + d == (2 * mx) % pl + pow2((k + 1) as nat) * n,
            2 * mx == pl * ((2 * mx) / pl) + (2 * mx) % pl,
            pow2((k + 1) as nat) == 2 * pow2(k as nat),
            y == 2 * (mx + pow2(k as nat) * n),
    ;
    vstd::arithmetic::div_mod::lemma_mod_multiples_basic((2 * mx) / pl, pl);
    assert(pl * ((2 * mx) / pl) == ((2 * mx) / pl) * pl) by (nonlinear_arith);
    if count == 0 {
        assert(d == 0);
        vstd::arithmetic::div_mod::lemma_small_mod(0, pl as nat);
    } else {
        vstd::arithmetic::div_mod::lemma_mod_multiples_basic(count, pl);
        assert(d == count * pl) by (nonlinear_arith)
            requires
                d == pow2((pos + 1) as nat) * count,
                pos == len,
                pl == pow2((len + 1) as nat),
        ;
    }
    lemma_multiple_add(pl * ((2 * mx) / pl), d, pl);
    lemma_mod_of_sum(y, x, y - x, pl);
}

/// The carries out of column `k` that the counter did not carry on are zero under every
/// assignment: the long multiplication up to column `k + 1` stays below the weight of the
/// position where the counter stopped.
proof fn lemma_carry_out(
    sigma: Assign,
    left: Seq<Bit>,
    right: Seq<Bit>,
    k: int,
    pos: int,
    c0: Seq<usize>,
    c1: Seq<usize>,
    n: int,
    count: int,
    on: int,
    o0: int,
    wlo: int,
    w0: int,
    br: int,
    bs: int,
    col: int,
    tk: int,
)
    requires
        1 <= right.len() <= left.len(),
        0 <= k < pos <= left.len() + right.len() - 1,
        n == ncol(k, left.len() as int, right.len() as int),
        count == 0 || pos == left.len() + right.len() - 1,
        c0.len() == left.len() + right.len() - 1,
        c1.len() == left.len() + right.len() - 1,
        forall|t: int| 0 <= t < c0.len() ==> #[trigger] c0[t] <= 1,
        forall|t: int| 0 <= t < c1.len() ==> #[trigger] c1[t] <= 1,
        cnum(c0, 0, c0.len() as int) == (2 * maxsum(left.len() as int, right.len() as int, k)) % (pow2((c0.len() + 1) as nat) as int),
        cnum(c1, 0, c1.len() as int) + pow2((pos + 1) as nat) * count == cnum(c0, 0, c0.len() as int) + pow2((k + 1) as nat) * n,
        forall|p: int| pos <= p < c0.len() ==> c1[p] == c0[p],
        pow2((pos + 1) as nat) * on + wlo == pow2((k + 1) as nat) * o0 + w0,
        0 <= wlo,
        0 <= on,
        br + 2 * o0 == bs + col,
        0 <= br <= 1,
        0 <= bs <= 1,
        0 <= tk,
        tk + pow2(k as nat) * bs + w0 == long_product(sigma, left, right, k),
        col == lr_sum(sigma, left, right, k, col_lo(k, right.len() as int), col_hi(k, left.len() as int)),
    ensures
        on == 0,
{
    let lw = left.len() as int;
    let rw = right.len() as int;
    let len = lw + rw - 1;
    let lpk = long_product(sigma, left, right, k);
    lemma_maxsum_bound(lw, rw, k);
    lemma_lr_sum_bound(sigma, left, right, k, col_lo(k, rw), col_hi(k, lw));
    lemma_long_max(sigma, left, right, k);
    lemma_pow2_pos(k as nat);
    let pk = pow2(k as nat) as int;
    assert(pk * col <= pk * n) by (nonlinear_arith)
        requires
            col <= n,
            pk > 0,
    ;
    if pos < len {
        lemma_cnum_range(c0, 0, len);
        let mx = maxsum(lw, rw, k);
        assert(count == 0);
        lemma_stop_from_counter(c0, c1, k, pos, len, n, mx);
        lemma_stop_bound(mx, n, k, pos);
        assert(n * pk == pk * n) by (nonlinear_arith);
        lemma_leftover(k, pos, on, o0, wlo, w0, w0, br, bs, col, tk, lpk);
    } else {
        lemma_long_mono(sigma, left, right, k + 1, len);
        lemma_long_below(sigma, left, right);
        assert((len + 1) as nat == (left.len() + right.len()) as nat);
        lemma_leftover(k, pos, on, o0, wlo, w0, w0, br, bs, col, tk, lpk);
    }
}

/// Where the products agree with the target and the carries out of column `k` are all kept,
/// the column's sum bit is the target's bit `k`.
proof fn lemma_col_bit(sigma: Assign, left: Seq<Bit>, right: Seq<Bit>, target: Seq<Bit>, k: int, br: int, o0: int, w: int, w0: int, bs: int, col: int)
    requires
        1 <= left.len() + right.len(),
        0 <= k < left.len() + right.len() - 1,
        agrees(sigma, left, right, target),
        w == pow2((k + 1) as nat) * o0 + w0,
        w % (pow2((k + 1) as nat) as int) == 0,
        bits_sum(sigma, target, k) + pow2(k as nat) * bs + w0 == long_product(sigma, left, right, k),
        br + 2 * o0 == bs + col,
        0 <= br <= 1,
        col == lr_sum(sigma, left, right, k, col_lo(k, right.len() as int), col_hi(k, left.len() as int)),
    ensures
        br == b2i(k < target.len() && bit_value(sigma, target[k])),
{
    let pk = pow2(k as nat) as int;
    lemma_pow2_pos(k as nat);
    lemma_pow2_unfold((k + 1) as nat);
    lemma_agree_prefix(sigma, left, right, target, k);
    lemma_bits_sum_mod(sigma, target, k, k);
    let tk = bits_sum(sigma, target, k);
    let bt = b2i(k < target.len() && bit_value(sigma, target[k]));
    let x = long_product(sigma, left, right, k + 1);
    let y = bits_sum(sigma, target, k + 1);
    assert(x == tk + pk * br + w) by (nonlinear_arith)
        requires
            x == long_product(sigma, left, right, k) + pk * col,
            tk + pk * bs + w0 == long_product(sigma, left, right, k),
            br + 2 * o0 == bs + col,
            w == 2 * pk * o0 + w0,
    ;
    assert(w == pow2((k + 1) as nat) * o0 + w0);
    lemma_bit_match(tk, pk, br, bt, w, x, y, 0);
}

proof fn lemma_satisfies_join(sigma: Assign, a: Seq<Seq<int>>, b: Seq<Seq<int>>)
    requires
        satisfies(sigma, a),
        satisfies(sigma, b),
    ensures
        satisfies(sigma, a + b),
{
    assert forall|i: int| 0 <= i < (a + b).len() implies #[trigger] clause_holds(sigma, (a + b)[i]) by {
        if i < a.len() {
            assert((a + b)[i] == a[i]);
        } else {
            assert((a + b)[i] == b[i - a.len()]);
        }
    }
}

proof fn lemma_clause3(sigma: Assign, a: int, b: int, c: int)
    requires
        lit_holds(sigma, a) || lit_holds(sigma, b) || lit_holds(sigma, c),
    ensures
        clause_holds(sigma, seq![a, b, c]),
{
    let cl = seq![a, b, c];
    assert(cl[0] == a && cl[1] == b && cl[2] == c);
}

proof fn lemma_clause2(sigma: Assign, a: int, b: int)
    requires
        lit_holds(sigma, a) || lit_holds(sigma, b),
    ensures
        clause_holds(sigma, seq![a, b]),
{
    let cl = seq![a, b];
    assert(cl[0] == a && cl[1] == b);
}

proof fn lemma_clause1(sigma: Assign, a: int)
    requires
        lit_holds(sigma, a),
    ensures
        clause_holds(sigma, seq![a]),
{
    let cl = seq![a];
    assert(cl[0] == a);
}

proof fn lemma_four(sigma: Assign, c0: Seq<int>, c1: Seq<int>, c2: Seq<int>, c3: Seq<int>)
    requires
        clause_holds(sigma, c0),
        clause_holds(sigma, c1),
        clause_holds(sigma, c2),
        clause_holds(sigma, c3),
    ensures
        satisfies(sigma, seq![c0, c1, c2, c3]),
{
    let cs = seq![c0, c1, c2, c3];
    assert forall|i: int| 0 <= i < cs.len() implies #[trigger] clause_holds(sigma, cs[i]) by {
        if i == 0 {
        } else if i == 1 {
        } else if i == 2 {
        } else {
        }
    }
}

/// Where every gate holds, the clauses of the gates hold.
proof fn lemma_parts_sat(sigma: Assign, s: Seq<((i32, i32), Bit)>, node: int, is_xor: bool)
    requires
        table_ok(s, node),
        !is_xor ==> and_gates_hold(sigma, s),
        is_xor ==> xor_gates_hold(sigma, s),
    ensures
        !is_xor ==> satisfies(sigma, and_part(s)),
        is_xor ==> satisfies(sigma, xor_part(s)),
    decreases s.len(),
{
    if s.len() > 0 {
        let t = s.drop_last();
        let e = s.last();
        assert(table_ok(t, node)) by {
            assert forall|i: int| 0 <= i < t.len() implies var_ok((#[trigger] t[i]).0.0 as int, node) && var_ok(t[i].0.1 as int, node)
                && fresh_var(t[i].1, node) by {
                assert(t[i] == s[i]);
            }
        }
        if is_xor {
            assert forall|i: int| 0 <= i < t.len() implies #[trigger] t[i].1 is Node ==> lit_holds(sigma, t[i].1->Node_0 as int)
                == (lit_holds(sigma, t[i].0.0 as int) != lit_holds(sigma, t[i].0.1 as int)) by {
                assert(t[i] == s[i]);
            }
        } else {
            assert forall|i: int| 0 <= i < t.len() implies #[trigger] t[i].1 is Node ==> lit_holds(sigma, t[i].1->Node_0 as int)
                == (lit_holds(sigma, t[i].0.0 as int) && lit_holds(sigma, t[i].0.1 as int)) by {
                assert(t[i] == s[i]);
            }
        }
        lemma_parts_sat(sigma, t, node, is_xor);
        assert(var_ok(s[s.len() - 1].0.0 as int, node) && var_ok(s[s.len() - 1].0.1 as int, node)
            && fresh_var(s[s.len() - 1].1, node));
        assert(s[s.len() - 1] == e);
        let x = e.0.0 as int;
        let y = e.0.1 as int;
        let z = e.1->Node_0 as int;
        lemma_lit_neg(sigma, x);
        lemma_lit_neg(sigma, y);
        lemma_lit_neg(sigma, z);
        if is_xor {
            lemma_clause3(sigma, x, y, -z);
            lemma_clause3(sigma, x, -y, z);
            lemma_clause3(sigma, -x, y, z);
            lemma_clause3(sigma, -x, -y, -z);
            lemma_four(sigma, seq![x, y, -z], seq![x, -y, z], seq![-x, y, z], seq![-x, -y, -z]);
            lemma_satisfies_join(sigma, xor_part(t), xor_clauses(e.0, e.1));
        } else {
            lemma_clause3(sigma, x, y, -z);
            lemma_clause3(sigma, x, -y, -z);
            lemma_clause3(sigma, -x, y, -z);
            lemma_clause3(sigma, -x, -y, z);
            lemma_four(sigma, seq![x, y, -z], seq![x, -y, -z], seq![-x, y, -z], seq![-x, -y, z]);
            lemma_satisfies_join(sigma, and_part(t), and_clauses(e.0, e.1));
        }
    }
}

/// An assignment under which every gate and every equality holds satisfies all the clauses.
pub proof fn lemma_clauses_hold(
    and: PairMap<Bit>,
    xor: PairMap<Bit>,
    ceq: IntSet,
    neq: PairMap<()>,
    node: int,
    sigma: spec_fn(int) -> bool,
)
    requires
        tables_ok(and, xor, ceq, neq, node),
        gates_hold(sigma, and.listing(), xor.listing()),
        eqs_hold(sigma, ceq.listing(), neq.listing()),
    ensures
        satisfies(sigma, all_clauses(and.listing(), xor.listing(), ceq.listing(), neq.listing())),
{
    lemma_parts_sat(sigma, and.listing(), node, false);
    lemma_parts_sat(sigma, xor.listing(), node, true);
    let u = unit_part(ceq.listing());
    let b = binary_part(neq.listing());
    assert forall|i: int| 0 <= i < u.len() implies #[trigger] clause_holds(sigma, u[i]) by {
        lemma_clause1(sigma, ceq.listing()[i] as int);
    }
    assert forall|i: int| 0 <= i < b.len() implies #[trigger] clause_holds(sigma, b[i]) by {
        lemma_clause2(sigma, neq.listing()[i].0.0 as int, neq.listing()[i].0.1 as int);
    }
    lemma_satisfies_join(sigma, and_part(and.listing()), xor_part(xor.listing()));
    lemma_satisfies_join(sigma, and_part(and.listing()) + xor_part(xor.listing()), u);
    lemma_satisfies_join(sigma, and_part(and.listing()) + xor_part(xor.listing()) + u, b);
}

/// Two assignments that agree on the variables `1..=n` give the same number to bits on them.
proof fn lemma_bits_sum_same(s1: Assign, s2: Assign, s: Seq<Bit>, k: int, n: int)
    requires
        bits_ok(s, n),
        forall|v: int| 1 <= v <= n ==> #[trigger] s1(v) == s2(v),
    ensures
        bits_sum(s1, s, k) == bits_sum(s2, s, k),
    decreases k,
{
    if k > 0 {
        lemma_bits_sum_same(s1, s2, s, k - 1, n);
        if k - 1 < s.len() {
            assert(bit_ok(s[k - 1], n));
            if let Bit::Node(v) = s[k - 1] {
                lemma_lit_same(s1, s2, v as int);
            }
        }
    }
}

proof fn lemma_cnum_zero(c: Seq<usize>, lo: int, hi: int)
    requires
        0 <= lo,
        hi <= c.len(),
        forall|t: int| 0 <= t < c.len() ==> #[trigger] c[t] == 0,
    ensures
        cnum(c, lo, hi) == 0,
    decreases hi - lo,
{
    if hi > lo {
        lemma_cnum_zero(c, lo, hi - 1);
        assert(c[hi - 1] == 0);
    }
}

/// The whole long multiplication is below `2^(left.len() + right.len())`.
proof fn lemma_long_below(sigma: Assign, left: Seq<Bit>, right: Seq<Bit>)
    requires
        1 <= left.len() + right.len(),
    ensures
        long_product(sigma, left, right, left.len() + right.len() - 1) < pow2((left.len() + right.len()) as nat),
{
    lemma_long_product(sigma, left, right);
    lemma_bits_sum_mod(sigma, left, left.len() as int, left.len() as int);
    lemma_bits_sum_mod(sigma, right, right.len() as int, right.len() as int);
    vstd::arithmetic::power2::lemma_pow2_adds(left.len(), right.len());
    let a = bits_sum(sigma, left, left.len() as int);
    let b = bits_sum(sigma, right, right.len() as int);
    let pa = pow2(left.len()) as int;
    let pb = pow2(right.len()) as int;
    assert(a * b < pa * pb) by (nonlinear_arith)
        requires
            0 <= a < pa,
            0 <= b < pb,
    ;
}

/// The CNF file: a comment, the problem line with the number of variables and of clauses,
/// and the clauses.
pub open spec fn cnf_text(node: int, cs: Seq<Seq<int>>) -> Seq<char> {
    "c cnf format\np cnf "@ + dec(node) + seq![' '] + dec(cs.len() as int) + seq!['\n']
        + clauses_text(cs)
}

/// Appends the line of clause `c`, after a newline when clauses came before.
fn push_clause(out: &mut String, c: &[i64], sep: bool)
    ensures
        final(out)@ == old(out)@ + (if sep { seq!['\n'] } else { Seq::empty() })
            + lits_text(lits_of(c@)) + seq!['0'],
{
    if sep {
        proof {
            reveal_strlit("\n");
        }
        out.append("\n");
    }
    let ghost start = out@;
    let mut i: usize = 0;
    while i < c.len()
        invariant
            0 <= i <= c.len(),
            out@ == start + lits_text(lits_of(c@.subrange(0, i as int))),
        decreases c.len() - i,
    {
        push_int(out, c[i]);
        proof {
            reveal_strlit(" ");
        }
        out.append(" ");
        proof {
            assert(lits_of(c@.subrange(0, i + 1)).drop_last() =~= lits_of(c@.subrange(0, i as int)));
        }
        i += 1;
    }
    proof {
        reveal_strlit("0");
        assert(c@.subrange(0, c.len() as int) =~= c@);
    }
    out.append("0");
}

/// The literals as integers.
pub open spec fn lits_of(c: Seq<i64>) -> Seq<int> {
    Seq::new(c.len(), |i: int| c[i] as int)
}

proof fn lemma_clauses_text_push(cs: Seq<Seq<int>>, c: Seq<int>)
    ensures
        clauses_text(cs.push(c)) == clauses_text(cs) + (if cs.len() > 0 { seq!['\n'] } else { Seq::empty() })
            + lits_text(c) + seq!['0'],
{
    assert(cs.push(c).drop_last() =~= cs);
    if cs.len() == 0 {
        assert(clauses_text(cs) =~= Seq::<char>::empty());
        assert(cs.push(c)[0] == c);
    }
}

/// The clauses of a gate, as literal lists.
fn gate_clauses(k: (i32, i32), v: Bit, is_xor: bool) -> (r: Vec<Vec<i64>>)
    ensures
        r.len() == (if is_xor { xor_clauses(k, v) } else { and_clauses(k, v) }).len(),
        forall|i: int|
            0 <= i < r.len() ==> lits_of(#[trigger] r[i]@) == (if is_xor {
                xor_clauses(k, v)
            } else {
                and_clauses(k, v)
            })[i],
{
    let x = k.0 as i64;
    let y = k.1 as i64;
    let nx = -x;
    let ny = -y;
    let r = if is_xor {
        match v {
            Bit::Constant(false) => vec![vec![x, ny], vec![nx, y]],
            Bit::Constant(true) => vec![vec![x, y], vec![nx, ny]],
            Bit::Node(z) => {
                let z = z as i64;
                let nz = -z;
                vec![vec![x, y, nz], vec![x, ny, z], vec![nx, y, z], vec![nx, ny, nz]]
            },
        }
    } else {
        match v {
            Bit::Constant(false) => vec![vec![x], vec![y]],
            Bit::Constant(true) => Vec::new(),
            Bit::Node(z) => {
                let z = z as i64;
                let nz = -z;
                vec![vec![x, y, nz], vec![x, ny, nz], vec![nx, y, nz], vec![nx, ny, z]]
            },
        }
    };
    proof {
        let sp = if is_xor { xor_clauses(k, v) } else { and_clauses(k, v) };
        assert forall|i: int| 0 <= i < r.len() implies lits_of(#[trigger] r[i]@) == sp[i] by {
            assert(lits_of(r[i]@) =~= sp[i]);
        }
    }
    r
}

/// Appends the lines of the clauses `cls` after those of `cs0`.
fn push_clauses(
    out: &mut String,
    cls: &Vec<Vec<i64>>,
    written: &mut usize,
    Ghost(pre): Ghost<Seq<char>>,
    Ghost(cs0): Ghost<Seq<Seq<int>>>,
) -> (cs1: Ghost<Seq<Seq<int>>>)
    requires
        old(out)@ == pre + clauses_text(cs0),
        *old(written) == cs0.len(),
        cs0.len() + cls.len() <= usize::MAX,
    ensures
        cs1@ == cs0 + Seq::new(cls.len() as nat, |i: int| lits_of(cls[i]@)),
        final(out)@ == pre + clauses_text(cs1@),
        *final(written) == cs1@.len(),
{
    let ghost mut cs = cs0;
    let mut i: usize = 0;
    while i < cls.len()
        invariant
            0 <= i <= cls.len(),
            cs0.len() + cls.len() <= usize::MAX,
            cs == cs0 + Seq::new(i as nat, |j: int| lits_of(cls[j]@)),
            out@ == pre + clauses_text(cs),
            *written == cs.len(),
        decreases cls.len() - i,
    {
        let ghost before = cs;
        push_clause(out, cls[i].as_slice(), *written > 0);
        proof {
            lemma_clauses_text_push(before, lits_of(cls[i as int]@));
            cs = before.push(lits_of(cls[i as int]@));
            assert(cs =~= cs0 + Seq::new((i + 1) as nat, |j: int| lits_of(cls[j]@)));
        }
        *written += 1;
        i += 1;
    }
    Ghost(cs)
}

proof fn lemma_and_part_step(s: Seq<((i32, i32), Bit)>, i: int)
    requires
        0 <= i < s.len(),
    ensures
        and_part(s.subrange(0, i + 1)) == and_part(s.subrange(0, i)) + and_clauses(s[i].0, s[i].1),
        xor_part(s.subrange(0, i + 1)) == xor_part(s.subrange(0, i)) + xor_clauses(s[i].0, s[i].1),
{
    assert(s.subrange(0, i + 1).drop_last() =~= s.subrange(0, i));
}

impl Bit {
    /// The CNF text of the AND and XOR tables and the equality clauses: `c cnf format`, then
    /// `p cnf <node> <number of clauses>`, then one line per clause, the AND gates, the XOR
    /// gates, the unit clauses and the binary clauses, each table in increasing order.
    pub fn format(and: &PairMap<Self>, xor: &PairMap<Self>, ceq: &IntSet, neq: &PairMap<()>, node: i32) -> (r: String)
        requires
            4 * and.listing().len() + 4 * xor.listing().len() + ceq.listing().len()
                + neq.listing().len() <= usize::MAX,
        ensures
            r@ == cnf_text(
                node as int,
                all_clauses(and.listing(), xor.listing(), ceq.listing(), neq.listing()),
            ),
    {
        let ghost al = and.listing();
        let ghost xl = xor.listing();
        let ghost cl = ceq.listing();
        let ghost nl = neq.listing();
        // count the clauses
        let mut total: usize = ceq.len() + neq.len();
        let mut i: usize = 0;
        proof {
            assert(al.subrange(0, 0) =~= Seq::<((i32, i32), Bit)>::empty());
            assert(xl.subrange(0, 0) =~= Seq::<((i32, i32), Bit)>::empty());
        }
        while i < and.len()
            invariant
                0 <= i <= al.len(),
                al == and.listing(),
                4 * al.len() + 4 * xl.len() + cl.len() + nl.len() <= usize::MAX,
                total == cl.len() + nl.len() + and_part(al.subrange(0, i as int)).len(),
                and_part(al.subrange(0, i as int)).len() <= 4 * i,
            decreases al.len() - i,
        {
            let (_, v) = and.entry(i);
            proof {
                lemma_and_part_step(al, i as int);
            }
            total += match v {
                Bit::Constant(false) => 2,
                Bit::Constant(true) => 0,
                Bit::Node(_) => 4,
            };
            i += 1;
        }
        proof {
            assert(al.subrange(0, al.len() as int) =~= al);
        }
        let mut i: usize = 0;
        while i < xor.len()
            invariant
                0 <= i <= xl.len(),
                al == and.listing(),
                xl == xor.listing(),
                4 * al.len() + 4 * xl.len() + cl.len() + nl.len() <= usize::MAX,
                and_part(al).len() <= 4 * al.len(),
                total == cl.len() + nl.len() + and_part(al).len() + xor_part(xl.subrange(0, i as int)).len(),
                xor_part(xl.subrange(0, i as int)).len() <= 4 * i,
            decreases xl.len() - i,
        {
            let (_, v) = xor.entry(i);
            proof {
                lemma_and_part_step(xl, i as int);
            }
            total += match v {
                Bit::Constant(_) => 2,
                Bit::Node(_) => 4,
            };
            i += 1;
        }
        proof {
            assert(xl.subrange(0, xl.len() as int) =~= xl);
            assert(total == all_clauses(al, xl, cl, nl).len());
        }
        // the header
        proof {
            reveal_strlit("c cnf format\np cnf ");
            reveal_strlit(" ");
            reveal_strlit("\n");
        }
        let mut out = String::from_str("c cnf format\np cnf ");
        push_int(&mut out, node as i64);
        out.append(" ");
        push_nat(&mut out, total as u64);
        out.append("\n");
        let ghost pre = out@;
        proof {
            assert(pre == "c cnf format\np cnf "@ + dec(node as int) + seq![' '] + dec(total as int) + seq!['\n']);
            assert(out@ == pre + clauses_text(Seq::<Seq<int>>::empty()));
        }
        let mut written: usize = 0;
        let ghost mut cs: Seq<Seq<int>> = Seq::empty();
        // the gates
        let mut i: usize = 0;
        while i < and.len()
            invariant
                0 <= i <= al.len(),
                al == and.listing(),
                4 * al.len() + 4 * xl.len() + cl.len() + nl.len() <= usize::MAX,
                cs == and_part(al.subrange(0, i as int)),
                cs.len() <= 4 * i,
                out@ == pre + clauses_text(cs),
                written == cs.len(),
            decreases al.len() - i,
        {
            let (k, v) = and.entry(i);
            let cls = gate_clauses(k, v, false);
            let ghost cs0 = cs;
            proof {
                lemma_and_part_step(al, i as int);
            }
            let Ghost(cs1) = push_clauses(&mut out, &cls, &mut written, Ghost(pre), Ghost(cs0));
            proof {
                assert(Seq::new(cls.len() as nat, |j: int| lits_of(cls[j]@)) =~= and_clauses(k, v));
                cs = cs1;
            }
            i += 1;
        }
        proof {
            assert(al.subrange(0, al.len() as int) =~= al);
        }
        let mut i: usize = 0;
        while i < xor.len()
            invariant
                0 <= i <= xl.len(),
                al == and.listing(),
                xl == xor.listing(),
                4 * al.len() + 4 * xl.len() + cl.len() + nl.len() <= usize::MAX,
                and_part(al).len() <= 4 * al.len(),
                cs == and_part(al) + xor_part(xl.subrange(0, i as int)),
                xor_part(xl.subrange(0, i as int)).len() <= 4 * i,
                out@ == pre + clauses_text(cs),
                written == cs.len(),
            decreases xl.len() - i,
        {
            let (k, v) = xor.entry(i);
            let cls = gate_clauses(k, v, true);
            let ghost cs0 = cs;
            proof {
                lemma_and_part_step(xl, i as int);
            }
            let Ghost(cs1) = push_clauses(&mut out, &cls, &mut written, Ghost(pre), Ghost(cs0));
            proof {
                assert(Seq::new(cls.len() as nat, |j: int| lits_of(cls[j]@)) =~= xor_clauses(k, v));
                cs = cs1;
                assert(cs =~= and_part(al) + xor_part(xl.subrange(0, i + 1)));
            }
            i += 1;
        }
        proof {
            assert(xl.subrange(0, xl.len() as int) =~= xl);
        }
        // the unit clauses
        let mut i: usize = 0;
        while i < ceq.len()
            invariant
                0 <= i <= cl.len(),
                cl == ceq.listing(),
                4 * al.len() + 4 * xl.len() + cl.len() + nl.len() <= usize::MAX,
                and_part(al).len() <= 4 * al.len(),
                xor_part(xl).len() <= 4 * xl.len(),
                cs == and_part(al) + xor_part(xl) + unit_part(cl.subrange(0, i as int)),
                out@ == pre + clauses_text(cs),
                written == cs.len(),
            decreases cl.len() - i,
        {
            let c = [ceq.item(i) as i64];
            let ghost cs0 = cs;
            push_clause(&mut out, c.as_slice(), written > 0);
            proof {
                lemma_clauses_text_push(cs0, lits_of(c@));
                cs = cs0.push(lits_of(c@));
                assert(lits_of(c@) =~= seq![cl[i as int] as int]);
                assert(cs =~= and_part(al) + xor_part(xl) + unit_part(cl.subrange(0, i + 1)));
            }
            written += 1;
            i += 1;
        }
        proof {
            assert(cl.subrange(0, cl.len() as int) =~= cl);
        }
        // the binary clauses
        let mut i: usize = 0;
        while i < neq.len()
            invariant
                0 <= i <= nl.len(),
                nl == neq.listing(),
                4 * al.len() + 4 * xl.len() + cl.len() + nl.len() <= usize::MAX,
                and_part(al).len() <= 4 * al.len(),
                xor_part(xl).len() <= 4 * xl.len(),
                cs == and_part(al) + xor_part(xl) + unit_part(cl) + binary_part(nl.subrange(0, i as int)),
                out@ == pre + clauses_text(cs),
                written == cs.len(),
            decreases nl.len() - i,
        {
            let (k, _) = neq.entry(i);
            let c = [k.0 as i64, k.1 as i64];
            let ghost cs0 = cs;
            push_clause(&mut out, c.as_slice(), written > 0);
            proof {
                lemma_clauses_text_push(cs0, lits_of(c@));
                cs = cs0.push(lits_of(c@));
                assert(lits_of(c@) =~= seq![k.0 as int, k.1 as int]);
                assert(cs =~= and_part(al) + xor_part(xl) + unit_part(cl) + binary_part(nl.subrange(0, i + 1)));
            }
            written += 1;
            i += 1;
        }
        proof {
            assert(nl.subrange(0, nl.len() as int) =~= nl);
            assert(cs =~= all_clauses(al, xl, cl, nl));
        }
        out
    }
}

/// The bits of `s`, its variables numbered on from `c0`.
pub open spec fn bits_of(s: Seq<u8>, c0: int) -> Seq<Bit> {
    Seq::new(s.len(), |i: int| bit_of_char(s[i], c0 + x_count(s.subrange(0, i + 1))))
}

/// Every bit of `s` is a constant or a literal of `1..=node`.
pub open spec fn bits_ok(s: Seq<Bit>, node: int) -> bool {
    forall|i: int| 0 <= i < s.len() ==> bit_ok(#[trigger] s[i], node)
}

/// The tables of the encoding are well formed and on variables of `1..=node`.
pub open spec fn tables_ok(and: PairMap<Bit>, xor: PairMap<Bit>, ceq: IntSet, neq: PairMap<()>, node: int) -> bool {
    &&& and.wf()
    &&& xor.wf()
    &&& ceq.wf()
    &&& neq.wf()
    &&& table_ok(and.listing(), node)
    &&& table_ok(xor.listing(), node)
    &&& units_ok(ceq.listing(), node)
    &&& pairs_ok(neq.listing(), node)
    &&& and.listing().len() + xor.listing().len() <= node
    &&& 0 <= node <= i32::MAX
}

proof fn lemma_tables_grow(and: PairMap<Bit>, xor: PairMap<Bit>, ceq: IntSet, neq: PairMap<()>, n1: int, n2: int)
    requires
        tables_ok(and, xor, ceq, neq, n1),
        n1 <= n2 <= i32::MAX,
    ensures
        tables_ok(and, xor, ceq, neq, n2),
{
}

proof fn lemma_bits_grow(s: Seq<Bit>, n1: int, n2: int)
    requires
        bits_ok(s, n1),
        n1 <= n2,
    ensures
        bits_ok(s, n2),
{
}

proof fn lemma_bits_of_ok(s: Seq<u8>, c0: int)
    requires
        0 <= c0,
        c0 + x_count(s) <= i32::MAX,
        forall|i: int| 0 <= i < s.len() ==> is_bit_char(#[trigger] s[i]),
    ensures
        bits_ok(bits_of(s, c0), c0 + x_count(s)),
{
    assert forall|i: int| 0 <= i < s.len() implies bit_ok(#[trigger] bits_of(s, c0)[i], c0 + x_count(s)) by {
        lemma_x_count_mono(s, i + 1);
        lemma_x_count_prefix(s, i + 1);
        lemma_x_count_nonneg(s.subrange(0, i));
        lemma_x_count_mono(s, i);
        let v = c0 + x_count(s.subrange(0, i + 1));
        if s[i] == 0x78 || s[i] == 0x58 {
            assert(v >= 1);
            assert((v as i32) as int == v);
        }
    }
}

/// No bit is the constant `true`.
pub open spec fn no_true(s: Seq<Bit>) -> bool {
    forall|i: int| 0 <= i < s.len() ==> #[trigger] s[i] != Bit::Constant(true)
}

/// Every bit is a variable.
pub open spec fn all_vars(s: Seq<Bit>) -> bool {
    forall|i: int| 0 <= i < s.len() ==> #[trigger] s[i] is Node
}

/// Every byte is `x` or `X`: every bit is unknown.
pub open spec fn x_only(s: Seq<u8>) -> bool {
    forall|i: int| 0 <= i < s.len() ==> #[trigger] s[i] == 0x78 || s[i] == 0x58
}

proof fn lemma_x_only_vars(s: Seq<u8>, c0: int)
    requires
        x_only(s),
    ensures
        all_vars(bits_of(s, c0)),
{
    assert forall|i: int| 0 <= i < s.len() implies #[trigger] bits_of(s, c0)[i] is Node by {
        assert(s[i] == 0x78 || s[i] == 0x58);
    }
}

/// A gate of a table in range is a variable.
proof fn lemma_table_gate(s: Seq<((i32, i32), Bit)>, node: int, k: (i32, i32), r: Bit)
    requires
        table_ok(s, node),
        exists|i: int| 0 <= i < s.len() && #[trigger] s[i] == (k, r),
    ensures
        r is Node,
{
    let i = choose|i: int| 0 <= i < s.len() && #[trigger] s[i] == (k, r);
    assert(fresh_var(s[i].1, node));
}

/// A key of the table before [`Bit::calc`] is a key after it.
proof fn lemma_calc_keeps_key(m0: Seq<((i32, i32), Bit)>, m1: Seq<((i32, i32), Bit)>, k: (i32, i32), r: Bit, n0: int, n1: int, q: (i32, i32))
    requires
        calc_effect(m0, m1, k, r, n0, n1),
        has_key(m0, q),
    ensures
        has_key(m1, q),
{
    let i = choose|i: int| 0 <= i < m0.len() && #[trigger] m0[i].0 == q;
    if !has_key(m0, k) {
        let p = choose|p: int| 0 <= p <= m0.len() && m1 == m0.insert(p, (k, r));
        if i < p {
            assert(m1[i].0 == q);
        } else {
            assert(m1[i + 1].0 == q);
        }
    }
}

/// The AND table holds a gate for `left[a] & right[b]` whenever both are variables.
pub open spec fn product_gate(and: Seq<((i32, i32), Bit)>, x: Bit, y: Bit) -> bool {
    x is Node && y is Node ==> has_key(and, sort_spec(x->Node_0, y->Node_0))
}

/// Under `sigma`, the first `n` rows of `r` are the products `left[i] & right[j]`.
pub open spec fn rows_are_products(sigma: spec_fn(int) -> bool, r: Seq<Vec<Bit>>, left: Seq<Bit>, right: Seq<Bit>, n: int) -> bool {
    forall|i: int, j: int| 0 <= i < n && 0 <= j < right.len() ==> bit_value(sigma, #[trigger] r[i]@[j]) == (
        bit_value(sigma, left[i]) && bit_value(sigma, right[j]))
}

/// Adds two bits, keeping the tables in range.
fn add_ok(a: Bit, b: Bit, node: &mut i32, and: &mut PairMap<Bit>, xor: &mut PairMap<Bit>, Ghost(ceq): Ghost<IntSet>, Ghost(neq): Ghost<PairMap<()>>) -> (r: (Bit, Bit))
    requires
        tables_ok(*old(and), *old(xor), ceq, neq, *old(node) as int),
        bit_ok(a, *old(node) as int),
        bit_ok(b, *old(node) as int),
        *old(node) < i32::MAX - 1,
    ensures
        *old(node) <= *final(node) <= *old(node) + 2,
        tables_ok(*final(and), *final(xor), ceq, neq, *final(node) as int),
        bit_ok(r.0, *final(node) as int),
        bit_ok(r.1, *final(node) as int),
        a != Bit::Constant(true) && b != Bit::Constant(true) ==> {
            &&& r.0 != Bit::Constant(true)
            &&& r.1 != Bit::Constant(true)
            &&& (b is Node ==> r.0 is Node)
        },
        final(and).listing().len() + final(xor).listing().len() + *old(node) == old(and).listing().len()
            + old(xor).listing().len() + *final(node),
        forall|q: (i32, i32)| #[trigger] has_key(old(and).listing(), q) ==> has_key(final(and).listing(), q),
        grows(old(and).listing(), final(and).listing()),
        grows(old(xor).listing(), final(xor).listing()),
        forall|sigma: spec_fn(int) -> bool| #[trigger] gates_hold(sigma, final(and).listing(), final(xor).listing())
            ==> bit_value(sigma, r.0) == (bit_value(sigma, a) != bit_value(sigma, b)) && bit_value(sigma, r.1) == (
            bit_value(sigma, a) && bit_value(sigma, b)),
        forall|x: int| 0 <= x <= *old(node) && #[trigger] ext_exists(x, old(and).listing(), old(xor).listing())
            ==> ext_exists(x, final(and).listing(), final(xor).listing()),
{
    let ghost a0 = and.listing();
    let ghost x0 = xor.listing();
    let ghost n0 = *node as int;
    let r = a.add(b, node, and, xor);
    proof {
        if let (Bit::Node(x), Bit::Node(y)) = (a, b) {
            let k = if x < y { (x, y) } else { (y, x) };
            let xn = xor_node(x0, k, n0);
            lemma_calc_ok(x0, xor.listing(), n0, xn, x, y, r.0);
            lemma_table_grow(a0, n0, xn);
            assert forall|i: int| 0 <= i <= n0 && #[trigger] ext_exists(i, a0, x0) implies ext_exists(i, and.listing(), xor.listing()) by {
                let e0 = choose|e: spec_fn(Assign) -> Assign| natural(e, i, a0, x0);
                let e1 = lemma_ext_calc(e0, i, x0, xor.listing(), a0, k, r.0, n0, xn, true);
                let e2 = lemma_ext_calc(e1, i, a0, and.listing(), xor.listing(), k, r.1, xn, *node as int, false);
            }
        }
    }
    proof {
        lemma_tables_grow(*old(and), *old(xor), ceq, neq, n0, *node as int);
        match (a, b) {
            (Bit::Node(x), Bit::Node(y)) => {
                let k = if x < y { (x, y) } else { (y, x) };
                lemma_calc_grows(x0, xor.listing(), k, r.0, n0, xor_node(x0, k, n0));
                lemma_calc_grows(a0, and.listing(), k, r.1, xor_node(x0, k, n0), *node as int);
                assert forall|sigma: spec_fn(int) -> bool| #[trigger] gates_hold(sigma, and.listing(), xor.listing())
                    implies bit_value(sigma, r.0) == (bit_value(sigma, a) != bit_value(sigma, b)) && bit_value(sigma, r.1) == (
                    bit_value(sigma, a) && bit_value(sigma, b)) by {
                    lemma_gate_value(sigma, xor.listing(), *node as int, k, r.0, true);
                    lemma_gate_value(sigma, and.listing(), *node as int, k, r.1, false);
                }
            },
            _ => {
                assert forall|sigma: spec_fn(int) -> bool| #[trigger] gates_hold(sigma, and.listing(), xor.listing())
                    implies bit_value(sigma, r.0) == (bit_value(sigma, a) != bit_value(sigma, b)) && bit_value(sigma, r.1) == (
                    bit_value(sigma, a) && bit_value(sigma, b)) by {
                    lemma_neg_value(sigma, a, n0);
                    lemma_neg_value(sigma, b, n0);
                }
            },
        }
    }
    proof {
        if let (Bit::Node(x), Bit::Node(y)) = (a, b) {
            let k = if x < y { (x, y) } else { (y, x) };
            assert forall|q: (i32, i32)| #[trigger] has_key(a0, q) implies has_key(and.listing(), q) by {
                lemma_calc_keeps_key(a0, and.listing(), k, r.1, xor_node(x0, k, n0), *node as int, q);
            }
        }
    }
    proof {
        lemma_tables_grow(*old(and), *old(xor), ceq, neq, *old(node) as int, *node as int);
        if let (Bit::Node(x), Bit::Node(y)) = (a, b) {
            let k = if x < y { (x, y) } else { (y, x) };
            lemma_table_gate(xor.listing(), *node as int, k, r.0);
            lemma_table_gate(and.listing(), *node as int, k, r.1);
        }
    }
    r
}

/// The products `left[i] & right[j]`, row by row.
fn products(left: &Vec<Bit>, right: &Vec<Bit>, node: &mut i32, and: &mut PairMap<Bit>, Ghost(xor): Ghost<PairMap<Bit>>, Ghost(ceq): Ghost<IntSet>, Ghost(neq): Ghost<PairMap<()>>) -> (out: Option<Vec<Vec<Bit>>>)
    requires
        tables_ok(*old(and), xor, ceq, neq, *old(node) as int),
        bits_ok(left@, *old(node) as int),
        bits_ok(right@, *old(node) as int),
    ensures
        *old(node) <= *final(node),
        *final(node) <= *old(node) + left.len() * right.len(),
        out is None ==> *final(node) == i32::MAX,
        tables_ok(*final(and), xor, ceq, neq, *final(node) as int),
        final(and).listing().len() + *old(node) == old(and).listing().len() + *final(node),
        grows(old(and).listing(), final(and).listing()),
        forall|x: int| 0 <= x <= *old(node) && #[trigger] ext_exists(x, old(and).listing(), xor.listing())
            ==> ext_exists(x, final(and).listing(), xor.listing()),
        out matches Some(r) ==> {
            &&& r.len() == left.len()
            &&& forall|i: int| 0 <= i < left.len() ==> (#[trigger] r@[i]).len() == right.len() && bits_ok(r@[i]@, *final(node) as int)
            &&& all_vars(left@) && all_vars(right@) ==> forall|i: int| 0 <= i < left.len() ==> all_vars(#[trigger] r@[i]@)
            &&& forall|a: int, b: int| 0 <= a < left.len() && 0 <= b < right.len() ==> product_gate(final(and).listing(), #[trigger] left@[a], #[trigger] right@[b])
            &&& forall|sigma: spec_fn(int) -> bool| #[trigger] and_gates_hold(sigma, final(and).listing())
                ==> rows_are_products(sigma, r@, left@, right@, left.len() as int)
        },
{
    let ghost a_seq0 = and.listing();
    let mut r: Vec<Vec<Bit>> = Vec::new();
    let ghost n0 = *node as int;
    let ghost a_len0 = and.listing().len();
    let mut i: usize = 0;
    while i < left.len()
        invariant
            n0 <= *node,
            n0 == *old(node),
            a_seq0 == old(and).listing(),
            a_len0 == old(and).listing().len(),
            forall|x: int| 0 <= x <= n0 && #[trigger] ext_exists(x, a_seq0, xor.listing()) ==> ext_exists(x, and.listing(), xor.listing()),
            0 <= i <= left.len(),
            tables_ok(*and, xor, ceq, neq, *node as int),
            bits_ok(left@, n0),
            bits_ok(right@, n0),
            r.len() == i,
            forall|a: int| 0 <= a < i ==> (#[trigger] r@[a]).len() == right.len() && bits_ok(r@[a]@, *node as int),
            all_vars(left@) && all_vars(right@) ==> forall|a: int| 0 <= a < i ==> all_vars(#[trigger] r@[a]@),
            and.listing().len() + n0 == a_len0 + *node,
            forall|a: int, b: int| 0 <= a < i && 0 <= b < right.len() ==> product_gate(and.listing(), #[trigger] left@[a], #[trigger] right@[b]),
            grows(a_seq0, and.listing()),
            forall|sigma: spec_fn(int) -> bool| #[trigger] and_gates_hold(sigma, and.listing())
                ==> rows_are_products(sigma, r@, left@, right@, i as int),
            *node <= n0 + i * right.len(),
        decreases left.len() - i,
    {
        let mut row: Vec<Bit> = Vec::new();
        let ghost ni = *node as int;
        let mut j: usize = 0;
        while j < right.len()
            invariant
                ni <= *node,
                n0 <= ni,
                n0 == *old(node),
                a_seq0 == old(and).listing(),
                a_len0 == old(and).listing().len(),
                forall|x: int| 0 <= x <= n0 && #[trigger] ext_exists(x, a_seq0, xor.listing()) ==> ext_exists(x, and.listing(), xor.listing()),
                0 <= i < left.len(),
                0 <= j <= right.len(),
                tables_ok(*and, xor, ceq, neq, *node as int),
                bits_ok(left@, n0),
                bits_ok(right@, n0),
                row.len() == j,
                bits_ok(row@, *node as int),
                forall|a: int| 0 <= a < i ==> (#[trigger] r@[a]).len() == right.len() && bits_ok(r@[a]@, ni),
                all_vars(left@) && all_vars(right@) ==> forall|a: int| 0 <= a < i ==> all_vars(#[trigger] r@[a]@),
                all_vars(left@) && all_vars(right@) ==> all_vars(row@),
                and.listing().len() + n0 == a_len0 + *node,
                forall|a: int, b: int| 0 <= a < i && 0 <= b < right.len() ==> product_gate(and.listing(), #[trigger] left@[a], #[trigger] right@[b]),
                forall|b: int| 0 <= b < j ==> product_gate(and.listing(), left@[i as int], #[trigger] right@[b]),
                grows(a_seq0, and.listing()),
                forall|sigma: spec_fn(int) -> bool| #[trigger] and_gates_hold(sigma, and.listing())
                    ==> rows_are_products(sigma, r@, left@, right@, i as int) && forall|b: int| 0 <= b < j ==> bit_value(sigma, #[trigger] row@[b]) == (
                    bit_value(sigma, left@[i as int]) && bit_value(sigma, right@[b])),
                r.len() == i,
                ni <= n0 + i * right.len(),
                *node <= ni + j,
            decreases right.len() - j,
        {
            let ghost nj = *node as int;
            let ghost a0 = and.listing();
            if *node == i32::MAX {
                proof {
                    assert(i * right.len() + j <= left.len() * right.len()) by (nonlinear_arith)
                        requires
                            i < left.len(),
                            j <= right.len(),
                    ;
                }
                return None;
            }
            let p = left[i].mul(right[j], node, and);
            proof {
                assert(bit_ok(left@[i as int], n0));
                assert(bit_ok(right@[j as int], n0));
                lemma_bits_grow(left@, n0, nj);
                lemma_bits_grow(right@, n0, nj);
                assert(and.listing().len() + nj == a0.len() + *node);
                if let (Bit::Node(x), Bit::Node(y)) = (left@[i as int], right@[j as int]) {
                    let k = if x < y { (x, y) } else { (y, x) };
                    assert(calc_effect(a0, and.listing(), k, p, nj, *node as int));
                    assert forall|a: int, b: int| 0 <= a < i && 0 <= b < right.len() implies product_gate(and.listing(), #[trigger] left@[a], #[trigger] right@[b]) by {
                        if left@[a] is Node && right@[b] is Node {
                            lemma_calc_keeps_key(a0, and.listing(), k, p, nj, *node as int, sort_spec(left@[a]->Node_0, right@[b]->Node_0));
                        }
                    }
                    assert forall|b: int| 0 <= b < j implies product_gate(and.listing(), left@[i as int], #[trigger] right@[b]) by {
                        if right@[b] is Node {
                            lemma_calc_keeps_key(a0, and.listing(), k, p, nj, *node as int, sort_spec(x, right@[b]->Node_0));
                        }
                    }
                    let e = choose|e: int| 0 <= e < and.listing().len() && #[trigger] and.listing()[e] == (k, p);
                    assert(and.listing()[e].0 == k);
                    assert(product_gate(and.listing(), left@[i as int], right@[j as int]));
                } else {
                    assert(and.listing() == a0);
                }
            }
            proof {
                if let (Bit::Node(x), Bit::Node(y)) = (left@[i as int], right@[j as int]) {
                    let k = if x < y { (x, y) } else { (y, x) };
                    lemma_calc_grows(a0, and.listing(), k, p, nj, *node as int);
                    assert forall|v: int| 0 <= v <= n0 && #[trigger] ext_exists(v, a_seq0, xor.listing()) implies ext_exists(v, and.listing(), xor.listing()) by {
                        assert(ext_exists(v, a0, xor.listing()));
                        let e0 = choose|e: spec_fn(Assign) -> Assign| natural(e, v, a0, xor.listing());
                        let e1 = lemma_ext_calc(e0, v, a0, and.listing(), xor.listing(), k, p, nj, *node as int, false);
                    }
                }
                lemma_tables_grow(*and, xor, ceq, neq, *node as int, *node as int);
                assert forall|sigma: spec_fn(int) -> bool| #[trigger] and_gates_hold(sigma, and.listing())
                    implies rows_are_products(sigma, r@, left@, right@, i as int) && forall|b: int| 0 <= b < j + 1 ==> bit_value(sigma, #[trigger] row@.push(p)[b]) == (
                    bit_value(sigma, left@[i as int]) && bit_value(sigma, right@[b])) by {
                    lemma_gates_mono(sigma, a0, Seq::empty(), and.listing(), Seq::empty());
                    assert(and_gates_hold(sigma, a0));
                    if let (Bit::Node(x), Bit::Node(y)) = (left@[i as int], right@[j as int]) {
                        let k = if x < y { (x, y) } else { (y, x) };
                        lemma_gate_value(sigma, and.listing(), *node as int, k, p, false);
                    }
                    assert forall|b: int| 0 <= b < j + 1 implies bit_value(sigma, #[trigger] row@.push(p)[b]) == (
                        bit_value(sigma, left@[i as int]) && bit_value(sigma, right@[b])) by {
                        if b < j {
                            assert(row@.push(p)[b] == row@[b]);
                        }
                    }
                }
            }
            proof {
                if all_vars(left@) && all_vars(right@) {
                    assert(left@[i as int] is Node && right@[j as int] is Node);
                    lemma_bits_grow(left@, n0, nj);
                    lemma_bits_grow(right@, n0, nj);
                    let (x, y) = (left@[i as int]->Node_0, right@[j as int]->Node_0);
                    let k = if x < y { (x, y) } else { (y, x) };
                    lemma_table_gate(and.listing(), *node as int, k, p);
                }
                lemma_bits_grow(left@, n0, nj);
                lemma_bits_grow(right@, n0, nj);
                assert(bit_ok(left@[i as int], nj));
                assert(bit_ok(right@[j as int], nj));
                lemma_tables_grow(*and, xor, ceq, neq, *node as int, *node as int);
                lemma_bits_grow(row@, nj, *node as int);
            }
            row.push(p);
            j += 1;
        }
        proof {
            assert((i + 1) * right.len() == i * right.len() + right.len()) by (nonlinear_arith);
            assert forall|a: int| 0 <= a < i implies (#[trigger] r@[a]).len() == right.len() && bits_ok(r@[a]@, *node as int) by {
                lemma_bits_grow(r@[a]@, ni, *node as int);
            }
            assert forall|a: int, b: int| 0 <= a < i + 1 && 0 <= b < right.len() implies product_gate(and.listing(), #[trigger] left@[a], #[trigger] right@[b]) by {
                if a == i {
                    assert(product_gate(and.listing(), left@[i as int], right@[b]));
                }
            }
            assert forall|sigma: spec_fn(int) -> bool| #[trigger] and_gates_hold(sigma, and.listing())
                implies rows_are_products(sigma, r@.push(row), left@, right@, i + 1) by {
                assert forall|a: int, b: int| 0 <= a < i + 1 && 0 <= b < right.len() implies bit_value(sigma, #[trigger] r@.push(row)[a]@[b]) == (
                    bit_value(sigma, left@[a]) && bit_value(sigma, right@[b])) by {
                    if a < i {
                        assert(r@.push(row)[a] == r@[a]);
                    } else {
                        assert(r@.push(row)[a] == row);
                        assert(bit_value(sigma, row@[b]) == (bit_value(sigma, left@[i as int]) && bit_value(sigma, right@[b])));
                    }
                }
            }
        }
        r.push(row);
        i += 1;
    }
    Some(r)
}

/// Says that `b` equals `c`, unless they are two different constants: then `false`.
fn equate(b: Bit, c: Bit, ceq: &mut IntSet, neq: &mut PairMap<()>, Ghost(and): Ghost<PairMap<Bit>>, Ghost(xor): Ghost<PairMap<Bit>>, Ghost(node): Ghost<int>) -> (ok: bool)
    requires
        tables_ok(and, xor, *old(ceq), *old(neq), node),
        bit_ok(b, node),
        bit_ok(c, node),
    ensures
        ok == consistent(b, c),
        !ok ==> *final(ceq) == *old(ceq) && *final(neq) == *old(neq),
        tables_ok(and, xor, *final(ceq), *final(neq), node),
        final(ceq).listing().len() <= old(ceq).listing().len() + 1,
        final(neq).listing().len() <= old(neq).listing().len() + 2,
        grows(old(ceq).listing(), final(ceq).listing()),
        grows(old(neq).listing(), final(neq).listing()),
        forall|sigma: spec_fn(int) -> bool| #[trigger] eqs_hold(sigma, final(ceq).listing(), final(neq).listing())
            ==> ok ==> bit_value(sigma, b) == bit_value(sigma, c),
        forall|sigma: spec_fn(int) -> bool| #[trigger] eqs_hold(sigma, old(ceq).listing(), old(neq).listing())
            && bit_value(sigma, b) == bit_value(sigma, c) ==> ok && eqs_hold(sigma, final(ceq).listing(), final(neq).listing()),
{
    match (b, c) {
        (Bit::Constant(x), Bit::Constant(y)) => {
            if x != y {
                return false;
            }
        },
        _ => {},
    }
    let ghost c0 = ceq.listing();
    let ghost p0 = neq.listing();
    b.eq(c, ceq, neq);
    proof {
        lemma_eq_ok(b, c, c0, ceq.listing(), p0, neq.listing(), node);
        lemma_eq_value(b, c, c0, ceq.listing(), p0, neq.listing(), node);
        assert forall|sigma: spec_fn(int) -> bool| #[trigger] eqs_hold(sigma, c0, p0)
            && bit_value(sigma, b) == bit_value(sigma, c) implies eqs_hold(sigma, ceq.listing(), neq.listing()) by {
            lemma_eq_keeps(sigma, b, c, c0, ceq.listing(), p0, neq.listing(), node);
        }
    }
    true
}

proof fn lemma_eq_value(a: Bit, b: Bit, c0: Seq<i32>, c1: Seq<i32>, p0: Seq<((i32, i32), ())>, p1: Seq<((i32, i32), ())>, n: int)
    requires
        eq_effect(a, b, c0, c1, p0, p1),
        consistent(a, b),
        bit_ok(a, n),
        bit_ok(b, n),
        n <= i32::MAX,
    ensures
        grows(c0, c1),
        grows(p0, p1),
        forall|sigma: spec_fn(int) -> bool| #[trigger] eqs_hold(sigma, c1, p1) ==> bit_value(sigma, a) == bit_value(sigma, b),
{
    match (a, b) {
        (Bit::Constant(_), Bit::Constant(_)) => {},
        (Bit::Node(x), Bit::Node(y)) => {
            let k1 = sort_spec(x, -y as i32);
            let k2 = sort_spec(-x as i32, y);
            let mid = choose|mid: Seq<((i32, i32), ())>| key_added(p0, mid, k1) && key_added(mid, p1, k2);
            lemma_key_added_grows(p0, mid, k1);
            lemma_key_added_grows(mid, p1, k2);
            let i1 = choose|i: int| 0 <= i < mid.len() && #[trigger] mid[i].0 == k1;
            assert(mid.contains(mid[i1]));
            assert(p1.contains(mid[i1]));
            let j1 = choose|j: int| 0 <= j < p1.len() && p1[j] == mid[i1];
            let j2 = choose|i: int| 0 <= i < p1.len() && #[trigger] p1[i].0 == k2;
            assert forall|e: ((i32, i32), ())| #[trigger] p0.contains(e) implies p1.contains(e) by {
                assert(mid.contains(e));
            }
            assert forall|sigma: spec_fn(int) -> bool| #[trigger] eqs_hold(sigma, c1, p1) implies bit_value(sigma, a) == bit_value(sigma, b) by {
                lemma_lit_neg(sigma, x as int);
                lemma_lit_neg(sigma, y as int);
                assert(lit_holds(sigma, p1[j1].0.0 as int) || lit_holds(sigma, p1[j1].0.1 as int));
                assert(lit_holds(sigma, p1[j2].0.0 as int) || lit_holds(sigma, p1[j2].0.1 as int));
            }
        },
        (Bit::Node(v), Bit::Constant(c)) | (Bit::Constant(c), Bit::Node(v)) => {
            let w: i32 = if c { v } else { -v as i32 };
            let i = if c0.contains(w) {
                choose|i: int| 0 <= i < c0.len() && c0[i] == w
            } else {
                let p = choose|p: int| 0 <= p <= c0.len() && c1 == c0.insert(p, w);
                lemma_insert_grows(c0, p, w);
                assert(c1[p] == w);
                p
            };
            assert(c1[i] == w);
            assert forall|sigma: spec_fn(int) -> bool| #[trigger] eqs_hold(sigma, c1, p1) implies bit_value(sigma, a) == bit_value(sigma, b) by {
                lemma_lit_neg(sigma, v as int);
                assert(lit_holds(sigma, c1[i] as int));
            }
        },
    }
}

/// The first row whose product falls in column `k`, for factors of `rw` bits.
pub open spec fn col_lo(k: int, rw: int) -> int {
    if k + 1 > rw { k + 1 - rw } else { 0 }
}

/// One past the last row whose product falls in column `k`, for `lw` rows.
pub open spec fn col_hi(k: int, lw: int) -> int {
    if k + 1 < lw { k + 1 } else { lw }
}

/// How many of the products `left[i] & right[k - i]`, `lo <= i < hi`, are true under `sigma`.
pub open spec fn lr_sum(sigma: spec_fn(int) -> bool, left: Seq<Bit>, right: Seq<Bit>, k: int, lo: int, hi: int) -> int
    decreases hi - lo,
{
    if hi <= lo {
        0
    } else {
        lr_sum(sigma, left, right, k, lo, hi - 1) + b2i(bit_value(sigma, left[hi - 1]) && bit_value(sigma, right[k - (hi - 1)]))
    }
}

/// The long multiplication of the bits `left` by the bits `right` (least significant
/// first) under `sigma`, as far as column `k`: the sum over the columns `c < k` of `2^c`
/// times the number of true products `left[i] & right[c - i]`.
pub open spec fn long_product(sigma: spec_fn(int) -> bool, left: Seq<Bit>, right: Seq<Bit>, k: int) -> int
    decreases k,
{
    if k <= 0 {
        0
    } else {
        long_product(sigma, left, right, k - 1) + pow2((k - 1) as nat) * lr_sum(
            sigma,
            left,
            right,
            k - 1,
            col_lo(k - 1, right.len() as int),
            col_hi(k - 1, left.len() as int),
        )
    }
}

/// The number whose binary digits (least significant first) are the first `k` bits of `s`
/// under `sigma`, bits past the end of `s` taken as 0.
pub open spec fn bits_sum(sigma: spec_fn(int) -> bool, s: Seq<Bit>, k: int) -> int
    decreases k,
{
    if k <= 0 {
        0
    } else {
        bits_sum(sigma, s, k - 1) + pow2((k - 1) as nat) * b2i(k - 1 < s.len() && bit_value(sigma, s[k - 1]))
    }
}

/// The product `left[i] & right[c - i]` as 0 or 1, or 0 when `c - i` is out of range.
pub open spec fn prod_term(sigma: spec_fn(int) -> bool, left: Seq<Bit>, right: Seq<Bit>, c: int, i: int) -> int {
    if 0 <= c - i < right.len() {
        b2i(bit_value(sigma, left[i]) && bit_value(sigma, right[c - i]))
    } else {
        0
    }
}

spec fn ind_sum(sigma: spec_fn(int) -> bool, left: Seq<Bit>, right: Seq<Bit>, c: int, n: int) -> int
    decreases n,
{
    if n <= 0 { 0 } else { ind_sum(sigma, left, right, c, n - 1) + prod_term(sigma, left, right, c, n - 1) }
}

spec fn dsum(sigma: spec_fn(int) -> bool, left: Seq<Bit>, right: Seq<Bit>, kk: int, n: int) -> int
    decreases kk,
{
    if kk <= 0 { 0 } else { dsum(sigma, left, right, kk - 1, n) + pow2((kk - 1) as nat) * ind_sum(sigma, left, right, kk - 1, n) }
}

spec fn row_sum(sigma: spec_fn(int) -> bool, left: Seq<Bit>, right: Seq<Bit>, i: int, kk: int) -> int
    decreases kk,
{
    if kk <= 0 { 0 } else { row_sum(sigma, left, right, i, kk - 1) + pow2((kk - 1) as nat) * prod_term(sigma, left, right, kk - 1, i) }
}

spec fn rows_total(sigma: spec_fn(int) -> bool, left: Seq<Bit>, right: Seq<Bit>, kk: int, n: int) -> int
    decreases n,
{
    if n <= 0 { 0 } else { rows_total(sigma, left, right, kk, n - 1) + row_sum(sigma, left, right, n - 1, kk) }
}

proof fn lemma_lr_ind(sigma: spec_fn(int) -> bool, left: Seq<Bit>, right: Seq<Bit>, c: int, n: int)
    requires
        0 <= c,
        0 <= n <= left.len(),
        col_lo(c, right.len() as int) <= col_hi(c, left.len() as int),
    ensures
        ind_sum(sigma, left, right, c, n) == (if n <= col_lo(c, right.len() as int) {
            0
        } else if n <= col_hi(c, left.len() as int) {
            lr_sum(sigma, left, right, c, col_lo(c, right.len() as int), n)
        } else {
            lr_sum(sigma, left, right, c, col_lo(c, right.len() as int), col_hi(c, left.len() as int))
        }),
    decreases n,
{
    if n > 0 {
        lemma_lr_ind(sigma, left, right, c, n - 1);
        let lo = col_lo(c, right.len() as int);
        if n - 1 < lo {
            assert(prod_term(sigma, left, right, c, n - 1) == 0);
        } else if n <= col_hi(c, left.len() as int) {
            if n - 1 == lo {
                assert(lr_sum(sigma, left, right, c, lo, lo) == 0);
            }
        } else {
            assert(prod_term(sigma, left, right, c, n - 1) == 0);
        }
    }
}

proof fn lemma_long_dsum(sigma: spec_fn(int) -> bool, left: Seq<Bit>, right: Seq<Bit>, kk: int)
    requires
        0 <= kk <= left.len() + right.len() - 1,
    ensures
        long_product(sigma, left, right, kk) == dsum(sigma, left, right, kk, left.len() as int),
    decreases kk,
{
    if kk > 0 {
        lemma_long_dsum(sigma, left, right, kk - 1);
        lemma_lr_ind(sigma, left, right, kk - 1, left.len() as int);
    }
}

proof fn lemma_dsum_step(sigma: spec_fn(int) -> bool, left: Seq<Bit>, right: Seq<Bit>, kk: int, n: int)
    requires
        0 <= n,
    ensures
        dsum(sigma, left, right, kk, n + 1) == dsum(sigma, left, right, kk, n) + row_sum(sigma, left, right, n, kk),
    decreases kk,
{
    if kk > 0 {
        lemma_dsum_step(sigma, left, right, kk - 1, n);
        let p = pow2((kk - 1) as nat) as int;
        let a = ind_sum(sigma, left, right, kk - 1, n);
        let t = prod_term(sigma, left, right, kk - 1, n);
        assert(p * (a + t) == p * a + p * t) by (nonlinear_arith);
    }
}

proof fn lemma_dsum_rows(sigma: spec_fn(int) -> bool, left: Seq<Bit>, right: Seq<Bit>, kk: int, n: int)
    requires
        0 <= n,
    ensures
        dsum(sigma, left, right, kk, n) == rows_total(sigma, left, right, kk, n),
    decreases n,
{
    if n > 0 {
        lemma_dsum_rows(sigma, left, right, kk, n - 1);
        lemma_dsum_step(sigma, left, right, kk, n - 1);
    } else {
        lemma_dsum_zero(sigma, left, right, kk);
    }
}

proof fn lemma_dsum_zero(sigma: spec_fn(int) -> bool, left: Seq<Bit>, right: Seq<Bit>, kk: int)
    ensures
        dsum(sigma, left, right, kk, 0) == 0,
    decreases kk,
{
    if kk > 0 {
        lemma_dsum_zero(sigma, left, right, kk - 1);
    }
}

proof fn lemma_row_value(sigma: spec_fn(int) -> bool, left: Seq<Bit>, right: Seq<Bit>, i: int, kk: int)
    requires
        0 <= i < left.len(),
        0 <= kk,
    ensures
        row_sum(sigma, left, right, i, kk) == b2i(bit_value(sigma, left[i])) * pow2(i as nat) * bits_sum(
            sigma,
            right,
            if kk <= i { 0 } else if kk <= i + right.len() { kk - i } else { right.len() as int },
        ),
    decreases kk,
{
    let li = b2i(bit_value(sigma, left[i]));
    let pi = pow2(i as nat) as int;
    if kk > 0 {
        lemma_row_value(sigma, left, right, i, kk - 1);
        let c = kk - 1;
        if c < i {
            assert(prod_term(sigma, left, right, c, i) == 0);
        } else if c < i + right.len() {
            let j = c - i;
            vstd::arithmetic::power2::lemma_pow2_adds(i as nat, j as nat);
            let pj = pow2(j as nat) as int;
            let rj = b2i(bit_value(sigma, right[j]));
            assert(prod_term(sigma, left, right, c, i) == li * rj);
            assert(bits_sum(sigma, right, j + 1) == bits_sum(sigma, right, j) + pj * rj);
            let bs = bits_sum(sigma, right, j);
            assert(pi * pj * (li * rj) + li * pi * bs == li * pi * (bs + pj * rj)) by (nonlinear_arith);
            if c == i {
                assert(bits_sum(sigma, right, 0) == 0);
                assert(li * pi * 0 == 0) by (nonlinear_arith);
            }
        } else {
            assert(prod_term(sigma, left, right, c, i) == 0);
        }
    }
}

proof fn lemma_rows_value(sigma: spec_fn(int) -> bool, left: Seq<Bit>, right: Seq<Bit>, kk: int, n: int)
    requires
        0 <= n <= left.len(),
        left.len() + right.len() - 1 <= kk,
    ensures
        rows_total(sigma, left, right, kk, n) == bits_sum(sigma, left, n) * bits_sum(sigma, right, right.len() as int),
    decreases n,
{
    let rv = bits_sum(sigma, right, right.len() as int);
    if n > 0 {
        lemma_rows_value(sigma, left, right, kk, n - 1);
        lemma_row_value(sigma, left, right, n - 1, kk);
        let li = b2i(bit_value(sigma, left[n - 1]));
        let pi = pow2((n - 1) as nat) as int;
        let bl = bits_sum(sigma, left, n - 1);
        assert(bits_sum(sigma, left, n) == bl + pi * li);
        assert(bl * rv + li * pi * rv == (bl + pi * li) * rv) by (nonlinear_arith);
    } else {
        assert(0 * rv == 0) by (nonlinear_arith);
    }
}

/// The long multiplication of two strings of bits gives the product of the numbers they
/// stand for: with `left` and `right` read as binary numbers (least significant bit first)
/// under `sigma`, the sum over all `left.len() + right.len() - 1` columns is their product.
pub proof fn lemma_long_product(sigma: spec_fn(int) -> bool, left: Seq<Bit>, right: Seq<Bit>)
    requires
        1 <= left.len() + right.len(),
    ensures
        long_product(sigma, left, right, left.len() + right.len() - 1) == bits_sum(sigma, left, left.len() as int)
            * bits_sum(sigma, right, right.len() as int),
{
    let kk = left.len() + right.len() - 1;
    lemma_long_dsum(sigma, left, right, kk);
    lemma_dsum_rows(sigma, left, right, kk, left.len() as int);
    lemma_rows_value(sigma, left, right, kk, left.len() as int);
}

proof fn lemma_wsum_split_all(s: Seq<Bit>, lo: int, hi: int)
    requires
        lo < hi,
    ensures
        forall|sigma: spec_fn(int) -> bool| wsum(sigma, s, lo, hi) == #[trigger] pow2((lo + 1) as nat) * b2i(bit_value(sigma, s[lo])) + wsum(sigma, s, lo + 1, hi),
{
    assert forall|sigma: spec_fn(int) -> bool| wsum(sigma, s, lo, hi) == #[trigger] pow2((lo + 1) as nat) * b2i(bit_value(sigma, s[lo])) + wsum(sigma, s, lo + 1, hi) by {
        lemma_wsum_split(sigma, s, lo, hi);
    }
}

proof fn lemma_col_sum_products(sigma: spec_fn(int) -> bool, m: Seq<Vec<Bit>>, left: Seq<Bit>, right: Seq<Bit>, k: int, lo: int, hi: int)
    requires
        rows_are_products(sigma, m, left, right, left.len() as int),
        0 <= lo,
        hi <= left.len(),
        k + 1 - right.len() <= lo,
        hi <= k + 1,
    ensures
        col_sum(sigma, m, k, lo, hi) == lr_sum(sigma, left, right, k, lo, hi),
    decreases hi - lo,
{
    if hi > lo {
        lemma_col_sum_products(sigma, m, left, right, k, lo, hi - 1);
        assert(bit_value(sigma, m[hi - 1]@[k - (hi - 1)]) == (bit_value(sigma, left[hi - 1]) && bit_value(sigma, right[k - (hi - 1)])));
    }
}

/// The products of a column are variables, there is at least one per column, and no carry
/// is the constant `true`: then no two constants can meet in [`column`].
pub open spec fn col_free(mul_res: Seq<Vec<Bit>>, lw: int, rw: int, adds: Seq<Bit>) -> bool {
    &&& rw >= 1
    &&& forall|a: int| 0 <= a < lw ==> all_vars(#[trigger] mul_res[a]@)
    &&& no_true(adds)
}

/// Before column `k`: the target's low `k` bits, the carry into the column and the carries kept
/// at the later positions add up to the long multiplication up to column `k`.
pub open spec fn col_entry(sigma: Assign, left: Seq<Bit>, right: Seq<Bit>, target: Seq<Bit>, adds: Seq<Bit>, k: int) -> bool {
    bits_sum(sigma, target, k) + pow2(k as nat) * b2i(bit_value(sigma, if k == 0 { Bit::Constant(false) } else { adds[k - 1] }))
        + wsum(sigma, adds, k, left.len() + right.len() - 1) == long_product(sigma, left, right, k)
}

/// How [`column`] ended.
enum ColEnd {
    /// The column is encoded.
    Done,
    /// Two constants were to be equal and are not.
    Clash,
    /// The variable counter reached `i32::MAX - 1`.
    Full,
}

/// Column `k` of the long multiplication: adds the products `left[i] & right[k - i]` to
/// the carry into the column, sums the carries into the next columns as far as the count
/// of carries they may hold (`cntr`), says that what is left over is false and that the
/// column's bit is `target[k]` (false past its end). `false` when two constants contradict.
fn column(
    k: usize,
    mul_res: &Vec<Vec<Bit>>,
    lw: usize,
    rw: usize,
    target: &Vec<Bit>,
    adds: &mut Vec<Bit>,
    cntr: &mut Vec<usize>,
    node: &mut i32,
    and: &mut PairMap<Bit>,
    xor: &mut PairMap<Bit>,
    ceq: &mut IntSet,
    neq: &mut PairMap<()>,
    Ghost(left): Ghost<Seq<Bit>>,
    Ghost(right): Ghost<Seq<Bit>>,
) -> (out: ColEnd)
    requires
        left.len() == lw,
        right.len() == rw,
        forall|sigma: spec_fn(int) -> bool| #[trigger] and_gates_hold(sigma, old(and).listing())
            ==> rows_are_products(sigma, mul_res@, left, right, lw as int),
        cnum(old(cntr)@, 0, (lw + rw - 1) as int) == (2 * maxsum(lw as int, rw as int, k as int)) % (pow2((lw + rw) as nat) as int),
        1 <= lw,
        rw <= lw,
        old(adds).len() == lw + rw - 1,
        old(cntr).len() == lw + rw - 1,
        k < lw + rw - 1,
        forall|t: int| 0 <= t < old(cntr).len() ==> #[trigger] old(cntr)@[t] <= 1,
        mul_res.len() == lw,
        forall|i: int| 0 <= i < lw ==> (#[trigger] mul_res@[i]).len() == rw && bits_ok(mul_res@[i]@, *old(node) as int),
        bits_ok(target@, *old(node) as int),
        bits_ok(old(adds)@, *old(node) as int),
        tables_ok(*old(and), *old(xor), *old(ceq), *old(neq), *old(node) as int),
    ensures
        *old(node) <= *final(node),
        *final(node) <= *old(node) + 2 * rw * (lw + rw - k),
        out is Full ==> *final(node) >= i32::MAX - 1,
        out is Done ==> cnum(final(cntr)@, 0, (lw + rw - 1) as int) == (2 * maxsum(lw as int, rw as int, k + 1)) % (pow2((lw + rw) as nat) as int),
        forall|x: int| 0 <= x <= *old(node) && #[trigger] ext_exists(x, old(and).listing(), old(xor).listing())
            ==> ext_exists(x, final(and).listing(), final(xor).listing()),
        forall|sigma: spec_fn(int) -> bool|
            #[trigger] gates_hold(sigma, final(and).listing(), final(xor).listing()) && eqs_hold(sigma, old(ceq).listing(), old(neq).listing())
            && agrees(sigma, left, right, target@) && col_entry(sigma, left, right, target@, old(adds)@, k as int)
            ==> out !is Clash && (out is Done ==> eqs_hold(sigma, final(ceq).listing(), final(neq).listing())),
        final(adds).len() == lw + rw - 1,
        final(cntr).len() == lw + rw - 1,
        forall|t: int| 0 <= t < final(cntr).len() ==> #[trigger] final(cntr)@[t] <= 1,
        bits_ok(final(adds)@, *final(node) as int),
        tables_ok(*final(and), *final(xor), *final(ceq), *final(neq), *final(node) as int),
        final(ceq).listing().len() + final(neq).listing().len() <= old(ceq).listing().len() + old(neq).listing().len() + 3 * (rw + 1),
        col_free(mul_res@, lw as int, rw as int, old(adds)@) ==> out !is Clash && (out is Done ==> no_true(final(adds)@)),
        final(and).listing().len() + final(xor).listing().len() + *old(node) == old(and).listing().len()
            + old(xor).listing().len() + *final(node),
        forall|q: (i32, i32)| #[trigger] has_key(old(and).listing(), q) ==> has_key(final(and).listing(), q),
        grows(old(and).listing(), final(and).listing()),
        grows(old(xor).listing(), final(xor).listing()),
        grows(old(ceq).listing(), final(ceq).listing()),
        grows(old(neq).listing(), final(neq).listing()),
        forall|sigma: spec_fn(int) -> bool|
            #[trigger] gates_hold(sigma, final(and).listing(), final(xor).listing()) && eqs_hold(sigma, final(ceq).listing(), final(neq).listing())
            && out is Done ==> pow2(k as nat) * b2i(bit_value(sigma, if k == 0 { Bit::Constant(false) } else { old(adds)@[k - 1] }))
            + pow2(k as nat) * col_sum(sigma, mul_res@, k as int, col_lo(k as int, rw as int), col_hi(k as int, lw as int))
            + wsum(sigma, old(adds)@, k as int, (lw + rw - 1) as int)
            == pow2(k as nat) * b2i(bit_value(sigma, if k < target.len() { target@[k as int] } else { Bit::Constant(false) }))
            + wsum(sigma, final(adds)@, k as int, (lw + rw - 1) as int),
{
    let ghost a_start = and.listing();
    let len = adds.len();
    let ghost n0 = *node as int;
    let ghost g0 = and.listing().len() + xor.listing().len();
    let ghost e0 = ceq.listing().len() + neq.listing().len();
    let ghost c_start = *ceq;
    let ghost p_start = *neq;
    let mut result = if k == 0 { Bit::Constant(false) } else { adds[k - 1] };
    let ghost start = result;
    let ghost x_start = xor.listing();
    let ghost adds0 = adds@;
    let lo: usize = if k + 1 > rw { k + 1 - rw } else { 0 };
    let hi: usize = if k + 1 < lw { k + 1 } else { lw };
    let mut new: Vec<Bit> = Vec::new();
    let mut i = lo;
    while i < hi
        invariant
            lo <= i,
            i <= hi || i == lo,
            hi <= lw,
            hi <= k + 1,
            lo + rw >= k + 1,
            rw <= lw,
            new.len() == i - lo,
            n0 <= *node,
            n0 == *old(node),
            bits_ok(old(adds)@, n0),
            adds.len() == lw + rw - 1,
            cntr@ == old(cntr)@,
            cntr.len() == lw + rw - 1,
            forall|t: int| 0 <= t < cntr.len() ==> #[trigger] cntr@[t] <= 1,
            g0 == old(and).listing().len() + old(xor).listing().len(),
            mul_res.len() == lw,
            forall|a: int| 0 <= a < lw ==> (#[trigger] mul_res@[a]).len() == rw && bits_ok(mul_res@[a]@, n0),
            bit_ok(result, *node as int),
            bits_ok(new@, *node as int),
            tables_ok(*and, *xor, *ceq, *neq, *node as int),
            *ceq == c_start,
            *neq == p_start,
            and.listing().len() + xor.listing().len() + n0 == g0 + *node,
            forall|q: (i32, i32)| #[trigger] has_key(a_start, q) ==> has_key(and.listing(), q),
            a_start == old(and).listing(),
            grows(a_start, and.listing()),
            grows(x_start, xor.listing()),
            x_start == old(xor).listing(),
            adds@ == adds0,
            lo == col_lo(k as int, rw as int),
            forall|x: int| 0 <= x <= n0 && #[trigger] ext_exists(x, a_start, x_start) ==> ext_exists(x, and.listing(), xor.listing()),
            *node <= n0 + 2 * new.len(),
            k < lw + rw - 1,
            forall|sigma: spec_fn(int) -> bool| #[trigger] gates_hold(sigma, and.listing(), xor.listing()) ==> b2i(
                bit_value(sigma, result)) + 2 * ones(sigma, new@) == b2i(bit_value(sigma, start)) + col_sum(sigma, mul_res@, k as int, lo as int, i as int),
            col_free(mul_res@, lw as int, rw as int, old(adds)@) ==> {
                &&& result != Bit::Constant(true)
                &&& (i > lo ==> result is Node)
                &&& no_true(new@)
            },
        decreases hi - i,
    {
        let j = k - i;
        proof {
            assert(j < rw);
            assert(bit_ok(mul_res@[i as int]@[j as int], n0));
            assert(new.len() + 1 <= rw);
        }
        let m = mul_res[i][j];
        proof {
            if col_free(mul_res@, lw as int, rw as int, old(adds)@) {
                assert(all_vars(mul_res@[i as int]@));
                assert(m is Node);
            }
        }
        let ghost before = new@;
        let ghost nb = *node as int;
        let ghost ab = and.listing();
        let ghost xb = xor.listing();
        if *node >= i32::MAX - 1 {
            proof {
                lemma_bits_grow(old(adds)@, n0, *node as int);
                assert(2 * new.len() <= 2 * rw * (lw + rw - k)) by (nonlinear_arith)
                    requires
                        new.len() <= rw,
                        k + 1 < lw + rw,
                ;
            }
            return ColEnd::Full;
        }
        let (res2, adding) = add_ok(result, m, node, and, xor, Ghost(*ceq), Ghost(*neq));
        result = res2;
        new.push(adding);
        proof {
            assert forall|sigma: spec_fn(int) -> bool| #[trigger] gates_hold(sigma, and.listing(), xor.listing()) implies b2i(
                bit_value(sigma, result)) + 2 * ones(sigma, new@) == b2i(bit_value(sigma, start)) + col_sum(sigma, mul_res@, k as int, lo as int, i + 1) by {
                lemma_gates_mono(sigma, ab, xb, and.listing(), xor.listing());
                assert(gates_hold(sigma, ab, xb));
                lemma_ones_push(sigma, before, adding);
                assert(m == mul_res@[i as int]@[k - i]);
            }
        }
        proof {
            lemma_bits_grow(before, nb, *node as int);
            assert(bits_ok(new@, *node as int));
        }
        i += 1;
    }
    let ghost n1 = *node as int;
    proof {
        assert(new.len() <= rw);
    }
    let mut count: usize = new.len();
    let mut idx: usize = 0;
    let ghost new0 = new@;
    let ghost c_0 = cntr@;
    proof {
        assert(i == hi);
        assert(hi == col_hi(k as int, lw as int));
    }
    while count > 0 && k + idx < len
        invariant
            len == lw + rw - 1,
            rw <= len,
            rw <= lw,
            lw >= 1,
            k < len,
            adds.len() == len,
            cntr.len() == len,
            forall|t: int| 0 <= t < cntr.len() ==> #[trigger] cntr@[t] <= 1,
            new.len() <= rw,
            count <= rw,
            idx <= len - k,
            n0 <= *node,
            n0 == *old(node),
            g0 == old(and).listing().len() + old(xor).listing().len(),
            bit_ok(result, *node as int),
            bits_ok(new@, *node as int),
            bits_ok(adds@, *node as int),
            tables_ok(*and, *xor, *ceq, *neq, *node as int),
            *ceq == c_start,
            *neq == p_start,
            and.listing().len() + xor.listing().len() + n0 == g0 + *node,
            forall|q: (i32, i32)| #[trigger] has_key(a_start, q) ==> has_key(and.listing(), q),
            a_start == old(and).listing(),
            grows(a_start, and.listing()),
            grows(x_start, xor.listing()),
            x_start == old(xor).listing(),
            adds0 == old(adds)@,
            start == (if k == 0 { Bit::Constant(false) } else { old(adds)@[k - 1] }),
            forall|sigma: spec_fn(int) -> bool| #[trigger] gates_hold(sigma, and.listing(), xor.listing()) ==> pow2((k + 1 + idx) as nat)
                * ones(sigma, new@) + wsum(sigma, adds@, k as int, len as int) == pow2((k + 1) as nat) * ones(sigma, new0) + wsum(sigma, adds0, k as int, len as int)
                && b2i(bit_value(sigma, result)) + 2 * ones(sigma, new0) == b2i(bit_value(sigma, start)) + col_sum(sigma, mul_res@, k as int, col_lo(k as int, rw as int), col_hi(k as int, lw as int)),
            col_free(mul_res@, lw as int, rw as int, old(adds)@) ==> no_true(adds@) && no_true(new@) && result is Node,
            new.len() == new0.len(),
            idx == 0 ==> count == new0.len(),
            c_0 == old(cntr)@,
            cnum(cntr@, 0, len as int) + pow2((k + 1 + idx) as nat) * count == cnum(c_0, 0, len as int) + pow2((k + 1) as nat) * new0.len(),
            forall|p: int| k + idx <= p < len ==> cntr@[p] == c_0[p],
            forall|x: int| 0 <= x <= n0 && #[trigger] ext_exists(x, a_start, x_start) ==> ext_exists(x, and.listing(), xor.listing()),
            n1 <= n0 + 2 * rw,
            *node <= n1 + 2 * rw * idx,
        decreases len - k - idx,
    {
        let pos = k + idx;
        let ghost cb = cntr@;
        let ghost count_b = count as int;
        count = count + cntr[pos];
        let ghost sum = count as int;
        cntr.set(pos, count % 2);
        count = count / 2;
        proof {
            lemma_cnum_update(cb, 0, len as int, pos as int, (sum % 2) as usize);
            lemma_pow2_unfold((k + 1 + idx + 1) as nat);
            let pp = pow2((pos + 1) as nat) as int;
            let c = cb[pos as int] as int;
            let cn = cnum(cntr@, 0, len as int);
            let cbn = cnum(cb, 0, len as int);
            let q = count as int;
            assert(cn + pow2((k + 1 + idx + 1) as nat) * q == cbn + pp * count_b) by (nonlinear_arith)
                requires
                    cn == cbn - pp * c + pp * (sum % 2),
                    pow2((k + 1 + idx + 1) as nat) == 2 * pp,
                    sum == count_b + c,
                    q == sum / 2,
            ;
            assert forall|p: int| k + idx + 1 <= p < len implies cntr@[p] == c_0[p] by {
                assert(cntr@[p] == cb[p]);
            }
        }
        let mut x = adds[pos];
        let ghost x0 = x;
        let ghost adds_i = adds@;
        let mut curr: Vec<Bit> = Vec::new();
        let ghost ns = *node as int;
        let mut t: usize = 0;
        while t < new.len()
            invariant
                t <= new.len(),
                new.len() <= rw,
                curr.len() == t,
                ns <= *node,
                n0 <= ns,
                n0 == *old(node),
                bits_ok(adds@, ns),
                adds.len() == len,
                len == lw + rw - 1,
                cntr.len() == len,
                forall|u: int| 0 <= u < cntr.len() ==> #[trigger] cntr@[u] <= 1,
                g0 == old(and).listing().len() + old(xor).listing().len(),
                x_start == old(xor).listing(),
                bit_ok(x, *node as int),
                bits_ok(curr@, *node as int),
                bits_ok(new@, ns),
                tables_ok(*and, *xor, *ceq, *neq, *node as int),
                *ceq == c_start,
                *neq == p_start,
                and.listing().len() + xor.listing().len() + n0 == g0 + *node,
                forall|q: (i32, i32)| #[trigger] has_key(a_start, q) ==> has_key(and.listing(), q),
                a_start == old(and).listing(),
                grows(a_start, and.listing()),
                grows(x_start, xor.listing()),
                adds@ == adds_i,
                forall|sigma: spec_fn(int) -> bool| #[trigger] gates_hold(sigma, and.listing(), xor.listing()) ==> pow2((k + 1 + idx) as nat)
                    * ones(sigma, new@) + wsum(sigma, adds@, k as int, len as int) == pow2((k + 1) as nat) * ones(sigma, new0) + wsum(sigma, adds0, k as int, len as int)
                    && b2i(bit_value(sigma, result)) + 2 * ones(sigma, new0) == b2i(bit_value(sigma, start)) + col_sum(sigma, mul_res@, k as int, col_lo(k as int, rw as int), col_hi(k as int, lw as int))
                    && b2i(bit_value(sigma, x)) + 2 * ones(sigma, curr@) == b2i(bit_value(sigma, x0)) + ones(sigma, new@.subrange(0, t as int)),
                col_free(mul_res@, lw as int, rw as int, old(adds)@) ==> x != Bit::Constant(true) && no_true(curr@) && no_true(new@),
                forall|v: int| 0 <= v <= n0 && #[trigger] ext_exists(v, a_start, x_start) ==> ext_exists(v, and.listing(), xor.listing()),
                n1 <= n0 + 2 * rw,
                ns <= n1 + 2 * rw * idx,
                *node <= ns + 2 * t,
                k + idx < len,
            decreases new.len() - t,
        {
            let ghost nb = *node as int;
            let ghost before = curr@;
            let ghost ab = and.listing();
            let ghost xb = xor.listing();
            proof {
                assert(bit_ok(new@[t as int], ns));
            }
            if *node >= i32::MAX - 1 {
                proof {
                    lemma_bits_grow(adds@, ns, *node as int);
                    assert(2 * rw * idx + 2 * rw + 2 * rw <= 2 * rw * (lw + rw - k)) by (nonlinear_arith)
                        requires
                            k + idx < len,
                            len == lw + rw - 1,
                    ;
                }
                return ColEnd::Full;
            }
            let (x2, c) = add_ok(x, new[t], node, and, xor, Ghost(*ceq), Ghost(*neq));
            x = x2;
            curr.push(c);
            proof {
                assert forall|sigma: spec_fn(int) -> bool| #[trigger] gates_hold(sigma, and.listing(), xor.listing()) implies pow2((k + 1 + idx) as nat)
                    * ones(sigma, new@) + wsum(sigma, adds@, k as int, len as int) == pow2((k + 1) as nat) * ones(sigma, new0) + wsum(sigma, adds0, k as int, len as int)
                    && b2i(bit_value(sigma, result)) + 2 * ones(sigma, new0) == b2i(bit_value(sigma, start)) + col_sum(sigma, mul_res@, k as int, col_lo(k as int, rw as int), col_hi(k as int, lw as int))
                    && b2i(bit_value(sigma, x)) + 2 * ones(sigma, curr@) == b2i(bit_value(sigma, x0)) + ones(sigma, new@.subrange(0, t + 1)) by {
                    lemma_gates_mono(sigma, ab, xb, and.listing(), xor.listing());
                    assert(gates_hold(sigma, ab, xb));
                    lemma_ones_push(sigma, before, c);
                    lemma_ones_prefix(sigma, new@, t as int);
                }
            }
            proof {
                lemma_bits_grow(before, nb, *node as int);
                assert(bits_ok(curr@, *node as int));
            }
            t += 1;
        }
        proof {
            lemma_bits_grow(adds@, ns, *node as int);
            lemma_bits_grow(new@, ns, *node as int);
            assert(2 * rw * (idx + 1) == 2 * rw * idx + 2 * rw) by (nonlinear_arith);
        }
        let ghost adds_b = adds@;
        adds.set(pos, x);
        proof {
            assert(new@.subrange(0, new.len() as int) =~= new@);
            assert(adds_b[pos as int] == x0);
            lemma_pow2_unfold((k + 1 + idx + 1) as nat);
            assert forall|sigma: spec_fn(int) -> bool| #[trigger] gates_hold(sigma, and.listing(), xor.listing()) implies pow2((k + 1 + idx + 1) as nat)
                * ones(sigma, curr@) + wsum(sigma, adds@, k as int, len as int) == pow2((k + 1) as nat) * ones(sigma, new0) + wsum(sigma, adds0, k as int, len as int) by {
                lemma_wsum_update(sigma, adds_b, k as int, len as int, pos as int, x);
                let pp = pow2((k + 1 + idx) as nat) as int;
                let bx = b2i(bit_value(sigma, x));
                let b0 = b2i(bit_value(sigma, x0));
                let oc = ones(sigma, curr@);
                let on = ones(sigma, new@);
                assert(pow2((pos + 1) as nat) == pp);
                assert(pp * bx + 2 * pp * oc == pp * b0 + pp * on) by (nonlinear_arith)
                    requires
                        bx + 2 * oc == b0 + on,
                ;
                assert(pow2((k + 1 + idx + 1) as nat) * oc == 2 * pp * oc) by (nonlinear_arith)
                    requires
                        pow2((k + 1 + idx + 1) as nat) == 2 * pp,
                ;
            }
        }
        new = curr;
        idx += 1;
    }
    proof {
        assert(2 * rw + 2 * rw * idx <= 2 * rw * (lw + rw - k)) by (nonlinear_arith)
            requires
                k + idx <= len,
                len == lw + rw - 1,
        ;
        let n = new0.len() as int;
        assert(n == ncol(k as int, lw as int, rw as int));
        lemma_counter_next(c_0, cntr@, k as int, (k + idx) as int, len as int, n, count as int, maxsum(lw as int, rw as int, k as int));
        assert(maxsum(lw as int, rw as int, k + 1) == maxsum(lw as int, rw as int, k as int) + pow2(k as nat) * n);
        assert((len + 1) as nat == (lw + rw) as nat);
        assert forall|sigma: spec_fn(int) -> bool|
            #[trigger] gates_hold(sigma, and.listing(), xor.listing()) && agrees(sigma, left, right, target@)
            && col_entry(sigma, left, right, target@, adds0, k as int)
            implies (forall|u: int| 0 <= u < new.len() ==> !bit_value(sigma, #[trigger] new@[u]))
            && bit_value(sigma, result) == bit_value(sigma, if k < target.len() { target@[k as int] } else { Bit::Constant(false) }) by {
            lemma_gates_mono(sigma, a_start, Seq::empty(), and.listing(), Seq::empty());
            assert(and_gates_hold(sigma, a_start));
            lemma_col_sum_products(sigma, mul_res@, left, right, k as int, col_lo(k as int, rw as int), col_hi(k as int, lw as int));
            let on = ones(sigma, new@);
            let o0 = ones(sigma, new0);
            let w = wsum(sigma, adds@, k as int, len as int);
            let w0 = wsum(sigma, adds0, k as int, len as int);
            let br = b2i(bit_value(sigma, result));
            let bs = b2i(bit_value(sigma, start));
            let col = lr_sum(sigma, left, right, k as int, col_lo(k as int, rw as int), col_hi(k as int, lw as int));
            let tk = bits_sum(sigma, target@, k as int);
            lemma_ones_nonneg(sigma, new@);
            lemma_wsum_range(sigma, adds@, k as int, len as int);
            lemma_bits_sum_mod(sigma, target@, k as int, k as int);
            if n == 0 {
                assert(on == 0);
            } else {
                assert(idx >= 1);
                lemma_carry_out(sigma, left, right, k as int, (k + idx) as int, c_0, cntr@, n, count as int, on, o0, w, w0, br, bs, col, tk);
            }
            lemma_ones_zero(sigma, new@);
            assert(w == pow2((k + 1) as nat) * o0 + w0);
            lemma_col_bit(sigma, left, right, target@, k as int, br, o0, w, w0, bs, col);
        }
    }
    let mut t: usize = 0;
    while t < new.len()
        invariant
            t <= new.len(),
            new.len() <= rw,
            n0 <= *node,
            adds.len() == lw + rw - 1,
            cntr.len() == lw + rw - 1,
            forall|u: int| 0 <= u < cntr.len() ==> #[trigger] cntr@[u] <= 1,
            bits_ok(adds@, *node as int),
            bit_ok(result, *node as int),
            bits_ok(new@, *node as int),
            tables_ok(*and, *xor, *ceq, *neq, *node as int),
            ceq.listing().len() + neq.listing().len() <= e0 + 3 * t,
            e0 == c_start.listing().len() + p_start.listing().len(),
            n0 == *old(node),
            c_start == *old(ceq),
            p_start == *old(neq),
            and.listing().len() + xor.listing().len() + n0 == g0 + *node,
            forall|q: (i32, i32)| #[trigger] has_key(a_start, q) ==> has_key(and.listing(), q),
            a_start == old(and).listing(),
            g0 == old(and).listing().len() + old(xor).listing().len(),
            grows(a_start, and.listing()),
            grows(x_start, xor.listing()),
            x_start == old(xor).listing(),
            grows(c_start.listing(), ceq.listing()),
            grows(p_start.listing(), neq.listing()),
            adds0 == old(adds)@,
            start == (if k == 0 { Bit::Constant(false) } else { old(adds)@[k - 1] }),
            len == lw + rw - 1,
            forall|sigma: spec_fn(int) -> bool| #[trigger] gates_hold(sigma, and.listing(), xor.listing()) ==> pow2((k + 1 + idx) as nat)
                * ones(sigma, new@) + wsum(sigma, adds@, k as int, len as int) == pow2((k + 1) as nat) * ones(sigma, new0) + wsum(sigma, adds0, k as int, len as int)
                && b2i(bit_value(sigma, result)) + 2 * ones(sigma, new0) == b2i(bit_value(sigma, start)) + col_sum(sigma, mul_res@, k as int, col_lo(k as int, rw as int), col_hi(k as int, lw as int)),
            forall|sigma: spec_fn(int) -> bool| #[trigger] eqs_hold(sigma, ceq.listing(), neq.listing()) ==> forall|u: int| 0 <= u < t ==> !bit_value(sigma, #[trigger] new@[u]),
            col_free(mul_res@, lw as int, rw as int, old(adds)@) ==> no_true(adds@) && no_true(new@) && result is Node,
            forall|v: int| 0 <= v <= n0 && #[trigger] ext_exists(v, a_start, x_start) ==> ext_exists(v, and.listing(), xor.listing()),
            cnum(cntr@, 0, len as int) == (2 * maxsum(lw as int, rw as int, k + 1)) % (pow2((lw + rw) as nat) as int),
            *node <= n0 + 2 * rw * (lw + rw - k),
            forall|sigma: spec_fn(int) -> bool|
                #[trigger] gates_hold(sigma, and.listing(), xor.listing()) && agrees(sigma, left, right, target@)
                && col_entry(sigma, left, right, target@, adds0, k as int)
                ==> (forall|u: int| 0 <= u < new.len() ==> !bit_value(sigma, #[trigger] new@[u]))
                && bit_value(sigma, result) == bit_value(sigma, if k < target.len() { target@[k as int] } else { Bit::Constant(false) }),
            forall|sigma: spec_fn(int) -> bool|
                #[trigger] gates_hold(sigma, and.listing(), xor.listing()) && eqs_hold(sigma, c_start.listing(), p_start.listing())
                && agrees(sigma, left, right, target@) && col_entry(sigma, left, right, target@, adds0, k as int)
                ==> eqs_hold(sigma, ceq.listing(), neq.listing()),
        decreases new.len() - t,
    {
        let ghost cb = ceq.listing();
        let ghost pb = neq.listing();
        if !equate(new[t], Bit::Constant(false), ceq, neq, Ghost(*and), Ghost(*xor), Ghost(*node as int)) {
            proof {
                assert forall|sigma: spec_fn(int) -> bool|
                    #[trigger] gates_hold(sigma, and.listing(), xor.listing()) && eqs_hold(sigma, c_start.listing(), p_start.listing())
                    && agrees(sigma, left, right, target@) && col_entry(sigma, left, right, target@, adds0, k as int)
                    implies false by {
                    assert(!bit_value(sigma, new@[t as int]));
                }
            }
            return ColEnd::Clash;
        }
        proof {
            assert forall|sigma: spec_fn(int) -> bool|
                #[trigger] gates_hold(sigma, and.listing(), xor.listing()) && eqs_hold(sigma, c_start.listing(), p_start.listing())
                && agrees(sigma, left, right, target@) && col_entry(sigma, left, right, target@, adds0, k as int)
                implies eqs_hold(sigma, ceq.listing(), neq.listing()) by {
                assert(eqs_hold(sigma, cb, pb));
                assert(!bit_value(sigma, new@[t as int]));
            }
        }
        proof {
            assert forall|sigma: spec_fn(int) -> bool| #[trigger] eqs_hold(sigma, ceq.listing(), neq.listing()) implies forall|u: int| 0 <= u < t + 1 ==> !bit_value(sigma, #[trigger] new@[u]) by {
                lemma_eqs_mono(sigma, cb, pb, ceq.listing(), neq.listing());
                assert(eqs_hold(sigma, cb, pb));
            }
        }
        t += 1;
    }
    let tgt = if k < target.len() { target[k] } else { Bit::Constant(false) };
    proof {
        lemma_bits_grow(target@, n0, *node as int);
    }
    let ghost cb = ceq.listing();
    let ghost pb = neq.listing();
    if !equate(result, tgt, ceq, neq, Ghost(*and), Ghost(*xor), Ghost(*node as int)) {
        proof {
            assert forall|sigma: spec_fn(int) -> bool|
                #[trigger] gates_hold(sigma, and.listing(), xor.listing()) && eqs_hold(sigma, c_start.listing(), p_start.listing())
                && agrees(sigma, left, right, target@) && col_entry(sigma, left, right, target@, adds0, k as int)
                implies false by {
                assert(bit_value(sigma, result) == bit_value(sigma, tgt));
            }
        }
        return ColEnd::Clash;
    }
    proof {
        assert forall|sigma: spec_fn(int) -> bool|
            #[trigger] gates_hold(sigma, and.listing(), xor.listing()) && eqs_hold(sigma, c_start.listing(), p_start.listing())
            && agrees(sigma, left, right, target@) && col_entry(sigma, left, right, target@, adds0, k as int)
            implies eqs_hold(sigma, ceq.listing(), neq.listing()) by {
            assert(eqs_hold(sigma, cb, pb));
            assert(bit_value(sigma, result) == bit_value(sigma, tgt));
        }
    }
    proof {
        lemma_pow2_unfold((k + 1) as nat);
        assert forall|sigma: spec_fn(int) -> bool|
            #[trigger] gates_hold(sigma, and.listing(), xor.listing()) && eqs_hold(sigma, ceq.listing(), neq.listing())
            implies pow2(k as nat) * b2i(bit_value(sigma, start))
            + pow2(k as nat) * col_sum(sigma, mul_res@, k as int, col_lo(k as int, rw as int), col_hi(k as int, lw as int))
            + wsum(sigma, adds0, k as int, len as int)
            == pow2(k as nat) * b2i(bit_value(sigma, tgt)) + wsum(sigma, adds@, k as int, len as int) by {
            lemma_eqs_mono(sigma, cb, pb, ceq.listing(), neq.listing());
            assert(eqs_hold(sigma, cb, pb));
            assert forall|u: int| 0 <= u < new.len() implies !bit_value(sigma, #[trigger] new@[u]) by {
            }
            lemma_ones_false(sigma, new@);
            let pk = pow2(k as nat) as int;
            let br = b2i(bit_value(sigma, result));
            let bs = b2i(bit_value(sigma, start));
            let o0 = ones(sigma, new0);
            let cc = col_sum(sigma, mul_res@, k as int, col_lo(k as int, rw as int), col_hi(k as int, lw as int));
            assert(pk * bs + pk * cc == pk * br + 2 * pk * o0) by (nonlinear_arith)
                requires
                    br + 2 * o0 == bs + cc,
            ;
            assert(pow2((k + 1) as nat) * o0 == 2 * pk * o0) by (nonlinear_arith)
                requires
                    pow2((k + 1) as nat) == 2 * pk,
            ;
        }
    }
    ColEnd::Done
}

/// Every literal of every clause is one of the variables `1..=node`, plain or negated.
pub open spec fn clauses_in_range(cs: Seq<Seq<int>>, node: int) -> bool {
    forall|i: int, j: int| 0 <= i < cs.len() && 0 <= j < cs[i].len() ==> var_ok(#[trigger] cs[i][j], node)
}

proof fn lemma_range_concat(a: Seq<Seq<int>>, b: Seq<Seq<int>>, node: int)
    requires
        clauses_in_range(a, node),
        clauses_in_range(b, node),
    ensures
        clauses_in_range(a + b, node),
{
    assert forall|i: int, j: int| 0 <= i < (a + b).len() && 0 <= j < (a + b)[i].len() implies var_ok(#[trigger] (a + b)[i][j], node) by {
        if i < a.len() {
            assert((a + b)[i] == a[i]);
        } else {
            assert((a + b)[i] == b[i - a.len()]);
        }
    }
}

proof fn lemma_parts_in_range(s: Seq<((i32, i32), Bit)>, node: int)
    requires
        table_ok(s, node),
    ensures
        clauses_in_range(and_part(s), node),
        clauses_in_range(xor_part(s), node),
    decreases s.len(),
{
    if s.len() > 0 {
        let t = s.drop_last();
        assert(table_ok(t, node)) by {
            assert forall|i: int| 0 <= i < t.len() implies var_ok((#[trigger] t[i]).0.0 as int, node) && var_ok(t[i].0.1 as int, node)
                && fresh_var(t[i].1, node) by {
                assert(t[i] == s[i]);
            }
        }
        lemma_parts_in_range(t, node);
        let e = s.last();
        assert(table_ok(s, node));
        assert(var_ok(s[s.len() - 1].0.0 as int, node));
        assert(clauses_in_range(and_clauses(e.0, e.1), node));
        assert(clauses_in_range(xor_clauses(e.0, e.1), node));
        lemma_range_concat(and_part(t), and_clauses(e.0, e.1), node);
        lemma_range_concat(xor_part(t), xor_clauses(e.0, e.1), node);
    }
}

/// The clauses of the tables use only the variables `1..=node`.
pub proof fn lemma_tables_in_range(and: PairMap<Bit>, xor: PairMap<Bit>, ceq: IntSet, neq: PairMap<()>, node: int)
    requires
        tables_ok(and, xor, ceq, neq, node),
    ensures
        clauses_in_range(all_clauses(and.listing(), xor.listing(), ceq.listing(), neq.listing()), node),
{
    lemma_parts_in_range(and.listing(), node);
    lemma_parts_in_range(xor.listing(), node);
    let u = unit_part(ceq.listing());
    let b = binary_part(neq.listing());
    assert(clauses_in_range(u, node));
    assert(clauses_in_range(b, node));
    lemma_range_concat(and_part(and.listing()), xor_part(xor.listing()), node);
    lemma_range_concat(and_part(and.listing()) + xor_part(xor.listing()), u, node);
    lemma_range_concat(and_part(and.listing()) + xor_part(xor.listing()) + u, b, node);
}

/// The encoding of a product: the bits of the two factors, the AND and XOR tables and the
/// equality clauses, the last variable, whether the encoding outgrew the `i32` variable
/// numbers or the clause count, and the CNF text, `None` when two constants contradict each
/// other or the encoding outgrew its numbers.
pub struct MulCnf {
    pub left: Vec<Bit>,
    pub right: Vec<Bit>,
    pub and: PairMap<Bit>,
    pub xor: PairMap<Bit>,
    pub ceq: IntSet,
    pub neq: PairMap<()>,
    pub node: i32,
    pub overflow: bool,
    pub text: Option<String>,
}

/// The bytes are `0`, `1`, `x` and `X`.
pub open spec fn bit_string(s: Seq<u8>) -> bool {
    forall|i: int| 0 <= i < s.len() ==> is_bit_char(#[trigger] s[i])
}

/// Whether every byte of `s` is `0`, `1`, `x` or `X`, and how many are `x` or `X`.
fn scan_bits(s: &str) -> (r: (bool, usize))
    ensures
        r.0 == bit_string(s.spec_bytes()),
        r.1 == x_count(s.spec_bytes()),
{
    let bytes = s.as_bytes();
    let ghost b = s.spec_bytes();
    let mut ok = true;
    let mut count: usize = 0;
    let mut i: usize = 0;
    proof {
        assert(b.subrange(0, 0) =~= Seq::<u8>::empty());
    }
    while i < bytes.len()
        invariant
            bytes@ == b,
            0 <= i <= bytes.len(),
            ok == (forall|j: int| 0 <= j < i ==> is_bit_char(#[trigger] b[j])),
            count == x_count(b.subrange(0, i as int)),
            count <= i,
        decreases bytes.len() - i,
    {
        let c = bytes[i];
        proof {
            lemma_x_count_prefix(b, i + 1);
        }
        if !(c == 0x30u8 || c == 0x31u8 || c == 0x78u8 || c == 0x58u8) {
            ok = false;
        }
        if c == 0x78u8 || c == 0x58u8 {
            count += 1;
        }
        i += 1;
    }
    proof {
        assert(b.subrange(0, b.len() as int) =~= b);
    }
    (ok, count)
}

proof fn lemma_cvrt_bounds(lw: int, rw: int, k: int)
    requires
        1 <= lw,
        0 <= rw <= lw,
        0 <= k <= lw + rw - 1,
    ensures
        lw * rw + 2 * rw * (lw + rw) * k <= 2 * (lw + rw) * (lw + rw) * (lw + rw),
        3 * (rw + 1) * k <= 3 * (lw + rw) * (lw + rw),
{
    assert(lw * rw + 2 * rw * (lw + rw) * k <= 2 * (lw + rw) * (lw + rw) * (lw + rw)) by (nonlinear_arith)
        requires
            1 <= lw,
            0 <= rw <= lw,
            0 <= k <= lw + rw - 1,
    ;
    assert(3 * (rw + 1) * k <= 3 * (lw + rw) * (lw + rw)) by (nonlinear_arith)
        requires
            1 <= lw,
            0 <= rw,
            0 <= k <= lw + rw - 1,
    ;
}

/// Whether [`Bit::cvrt`] works on these strings: bit strings, not both factors empty, their
/// lengths summing within `usize`, and their unknown bits numbered within `i32`.
pub fn cvrt_args_valid(l: &str, r: &str, res: &str) -> (ok: bool)
    ensures
        ok == (bit_string(l.spec_bytes()) && bit_string(r.spec_bytes()) && bit_string(res.spec_bytes())
            && 1 <= l.spec_bytes().len() + r.spec_bytes().len() <= usize::MAX
            && x_count(l.spec_bytes()) + x_count(r.spec_bytes()) + x_count(res.spec_bytes()) <= i32::MAX),
{
    let (lb, lx) = scan_bits(l);
    let (rb, rx) = scan_bits(r);
    let (sb, sx) = scan_bits(res);
    let n = l.as_bytes().len() as u128 + r.as_bytes().len() as u128;
    let x = lx as u128 + rx as u128 + sx as u128;
    lb && rb && sb && 1 <= n && n <= usize::MAX as u128 && x <= 0x7fff_ffff
}

impl Bit {
    /// Encodes `l * r = res` in CNF, the numbers written in binary, least significant bit
    /// first, with `x` (or `X`) for an unknown bit: the longer factor's bits, the shorter
    /// one's, and the CNF text of the long multiplication, whose bits are ANDs and whose sums
    /// are XOR and AND nodes. The text is `None` when two constants contradict each other.
    /// The variables are those of the `x`s, numbered in the order of the longer factor, the
    /// shorter one and `res`, then one per gate of the tables; every product of two variable
    /// bits of the factors is a gate of the AND table. The text is that of the tables, with
    /// the last variable in its header. Every assignment that satisfies its clauses makes the
    /// factors multiply to a number that agrees with `res` in the lowest
    /// `left.len() + right.len() - 1` bits (bits of `res` past them are not looked at; the
    /// next bit of the product is left free), and every assignment of the unknown bits whose
    /// product agrees with `res` there is part of one that satisfies them. Short of
    /// outgrowing its numbers, the text is left out only where no assignment agrees. With
    /// `n` the two factors' lengths together, the variables past the unknown bits number at
    /// most `2 * n^3` and the unit and binary clauses at most `3 * n^2`, so inputs within
    /// those bounds never outgrow the numbers.
    pub fn cvrt(l: &str, r: &str, res: &str) -> (out: MulCnf)
        requires
            bit_string(l.spec_bytes()),
            bit_string(r.spec_bytes()),
            bit_string(res.spec_bytes()),
            1 <= l.spec_bytes().len() + r.spec_bytes().len() <= usize::MAX,
            x_count(l.spec_bytes()) + x_count(r.spec_bytes()) + x_count(res.spec_bytes()) <= i32::MAX,
        ensures
            ({
                let a = if l.spec_bytes().len() < r.spec_bytes().len() { r.spec_bytes() } else { l.spec_bytes() };
                let b = if l.spec_bytes().len() < r.spec_bytes().len() { l.spec_bytes() } else { r.spec_bytes() };
                &&& out.left@ == bits_of(a, 0)
                &&& out.right@ == bits_of(b, x_count(a))
                &&& out.node == x_count(a) + x_count(b) + x_count(res.spec_bytes()) + out.and.listing().len()
                    + out.xor.listing().len()
            }),
            tables_ok(out.and, out.xor, out.ceq, out.neq, out.node as int),
            !out.overflow ==> forall|i: int, j: int| 0 <= i < out.left.len() && 0 <= j < out.right.len()
                ==> product_gate(out.and.listing(), #[trigger] out.left@[i], #[trigger] out.right@[j]),
            out.text matches Some(t) ==> t@ == cnf_text(
                out.node as int,
                all_clauses(out.and.listing(), out.xor.listing(), out.ceq.listing(), out.neq.listing()),
            ),
            out.text is Some ==> forall|sigma: spec_fn(int) -> bool|
                #[trigger] satisfies(sigma, all_clauses(out.and.listing(), out.xor.listing(), out.ceq.listing(), out.neq.listing()))
                ==> ({
                let len = out.left.len() + out.right.len() - 1;
                let target = bits_of(res.spec_bytes(), x_count(l.spec_bytes()) + x_count(r.spec_bytes()));
                let product = bits_sum(sigma, out.left@, out.left.len() as int) * bits_sum(sigma, out.right@, out.right.len() as int);
                ||| product == bits_sum(sigma, target, len)
                ||| product == bits_sum(sigma, target, len) + pow2(len as nat)
            }),
            out.overflow ==> out.text is None,
            out.overflow ==> out.node >= i32::MAX - 1 || 4 * out.and.listing().len() + 4 * out.xor.listing().len()
                + out.ceq.listing().len() + out.neq.listing().len() > usize::MAX,
            x_only(l.spec_bytes()) && x_only(r.spec_bytes()) && 1 <= l.spec_bytes().len() && 1 <= r.spec_bytes().len()
                ==> out.text is Some || out.overflow,
            ({
                let n = l.spec_bytes().len() + r.spec_bytes().len();
                let xs = x_count(l.spec_bytes()) + x_count(r.spec_bytes()) + x_count(res.spec_bytes());
                &&& out.node <= xs + 2 * n * n * n
                &&& out.ceq.listing().len() + out.neq.listing().len() <= 3 * n * n
                &&& xs + 2 * n * n * n < i32::MAX - 1 && 8 * n * n * n + 3 * n * n <= usize::MAX ==> !out.overflow
            }),
            !out.overflow && out.text is None ==> forall|tau: spec_fn(int) -> bool| !#[trigger] agrees(
                tau,
                out.left@,
                out.right@,
                bits_of(res.spec_bytes(), x_count(l.spec_bytes()) + x_count(r.spec_bytes())),
            ),
            out.text is Some ==> forall|tau: spec_fn(int) -> bool| #[trigger] agrees(
                tau,
                out.left@,
                out.right@,
                bits_of(res.spec_bytes(), x_count(l.spec_bytes()) + x_count(r.spec_bytes())),
            ) ==> exists|sigma: spec_fn(int) -> bool| #[trigger] satisfies(sigma, all_clauses(out.and.listing(), out.xor.listing(), out.ceq.listing(), out.neq.listing()))
                && forall|v: int| 1 <= v <= x_count(l.spec_bytes()) + x_count(r.spec_bytes()) + x_count(res.spec_bytes()) ==> sigma(v) == #[trigger] tau(v),
    {
        proof {
            lemma_x_count_nonneg(l.spec_bytes());
            lemma_x_count_nonneg(r.spec_bytes());
            lemma_x_count_nonneg(res.spec_bytes());
        }
        let (a, b) = if l.len() < r.len() { (r, l) } else { (l, r) };
        let ghost sa = if l.spec_bytes().len() < r.spec_bytes().len() { r.spec_bytes() } else { l.spec_bytes() };
        let ghost sb = if l.spec_bytes().len() < r.spec_bytes().len() { l.spec_bytes() } else { r.spec_bytes() };
        proof {
            assert(sa == a.spec_bytes() && sb == b.spec_bytes());
            lemma_x_count_nonneg(a.spec_bytes());
            lemma_x_count_nonneg(b.spec_bytes());
            lemma_x_count_nonneg(res.spec_bytes());
            lemma_x_count_mono(a.spec_bytes(), 0);
        }
        let mut node: i32 = 0;
        let left = Self::str2bin(a, &mut node);
        let right = Self::str2bin(b, &mut node);
        let target = Self::str2bin(res, &mut node);
        let ghost xa = x_count(a.spec_bytes());
        let ghost xb = x_count(b.spec_bytes());
        let ghost xr = x_count(res.spec_bytes());
        proof {
            assert(left@ =~= bits_of(a.spec_bytes(), 0));
            assert(right@ =~= bits_of(b.spec_bytes(), xa));
            assert(target@ =~= bits_of(res.spec_bytes(), xa + xb));
            lemma_bits_of_ok(a.spec_bytes(), 0);
            lemma_bits_of_ok(b.spec_bytes(), xa);
            lemma_bits_of_ok(res.spec_bytes(), xa + xb);
            lemma_bits_grow(left@, xa, node as int);
            lemma_bits_grow(right@, xa + xb, node as int);
        }
        let mut and: PairMap<Bit> = PairMap::new();
        let mut xor: PairMap<Bit> = PairMap::new();
        let mut ceq = IntSet::new();
        let mut neq: PairMap<()> = PairMap::new();
        let lw = left.len();
        let rw = right.len();
        proof {
            assert(node == xa + xb + xr);
            let id = |tau: Assign| tau;
            assert forall|tau: Assign| {
                &&& #[trigger] gates_hold(id(tau), and.listing(), xor.listing())
                &&& forall|v: int| 1 <= v <= xa + xb + xr ==> id(tau)(v) == #[trigger] tau(v)
            } by {}
            assert(natural(id, xa + xb + xr, and.listing(), xor.listing()));
            assert(ext_exists(xa + xb + xr, and.listing(), xor.listing()));
            lemma_bits_grow(left@, xa, xa + xb + xr);
            lemma_bits_grow(right@, xa + xb, xa + xb + xr);
        }
        proof {
            if x_only(sa) && x_only(sb) {
                lemma_x_only_vars(sa, 0);
                lemma_x_only_vars(sb, xa);
            }
        }
        let mul_res = match products(&left, &right, &mut node, &mut and, Ghost(xor), Ghost(ceq), Ghost(neq)) {
            Some(m) => m,
            None => {
                proof {
                    lemma_cvrt_bounds(lw as int, rw as int, 0);
                }
                return MulCnf { left, right, and, xor, ceq, neq, node, overflow: true, text: None };
            },
        };
        let len = lw + rw - 1;
        let mut adds: Vec<Bit> = Vec::new();
        let mut cntr: Vec<usize> = Vec::new();
        while adds.len() < len
            invariant
                adds.len() == cntr.len(),
                adds.len() <= len,
                forall|t: int| 0 <= t < adds.len() ==> #[trigger] adds@[t] == Bit::Constant(false),
                forall|t: int| 0 <= t < cntr.len() ==> #[trigger] cntr@[t] == 0,
            decreases len - adds.len(),
        {
            adds.push(Bit::Constant(false));
            cntr.push(0);
        }
        let ghost n_start = node as int;
        let ghost a_p = and.listing();
        let mut k: usize = 0;
        proof {
            lemma_cnum_zero(cntr@, 0, len as int);
            lemma_pow2_pos((lw + rw) as nat);
            vstd::arithmetic::div_mod::lemma_small_mod(0, pow2((lw + rw) as nat));
            assert(maxsum(lw as int, rw as int, 0) == 0);
        }
        proof {
            lemma_bits_grow(target@, xa + xb + xr, node as int);
            assert forall|sigma: spec_fn(int) -> bool| #[trigger] gates_hold(sigma, and.listing(), xor.listing()) && eqs_hold(sigma, ceq.listing(), neq.listing())
                implies bits_sum(sigma, target@, 0) + 0 + wsum(sigma, adds@, 0, len as int) == long_product(sigma, left@, right@, 0) by {
                lemma_wsum_false(sigma, adds@, 0, len as int);
            }
        }
        while k < len
            invariant
                sa == if l.spec_bytes().len() < r.spec_bytes().len() { r.spec_bytes() } else { l.spec_bytes() },
                sb == if l.spec_bytes().len() < r.spec_bytes().len() { l.spec_bytes() } else { r.spec_bytes() },
                xa >= 0,
                xb >= 0,
                xr >= 0,
                left@ == bits_of(sa, 0),
                right@ == bits_of(sb, x_count(sa)),
                xa == x_count(sa),
                xb == x_count(sb),
                xr == x_count(res.spec_bytes()),
                lw == left.len(),
                rw == right.len(),
                rw <= lw,
                1 <= lw,
                len == lw + rw - 1,
                xa + xb + xr <= n_start,
                0 <= k <= len,
                n_start <= node,
                adds.len() == len,
                cntr.len() == len,
                forall|t: int| 0 <= t < cntr.len() ==> #[trigger] cntr@[t] <= 1,
                mul_res.len() == lw,
                forall|i: int| 0 <= i < lw ==> (#[trigger] mul_res@[i]).len() == rw && bits_ok(mul_res@[i]@, n_start),
                bits_ok(target@, n_start),
                bits_ok(adds@, node as int),
                tables_ok(and, xor, ceq, neq, node as int),
                x_only(sa) && x_only(sb) && 1 <= sb.len() ==> col_free(mul_res@, lw as int, rw as int, adds@),
                node == xa + xb + xr + and.listing().len() + xor.listing().len(),
                forall|i: int, j: int| 0 <= i < left.len() && 0 <= j < right.len()
                    ==> product_gate(and.listing(), #[trigger] left@[i], #[trigger] right@[j]),
                grows(a_p, and.listing()),
                forall|sigma: spec_fn(int) -> bool| #[trigger] and_gates_hold(sigma, a_p) ==> rows_are_products(sigma, mul_res@, left@, right@, lw as int),
                forall|sigma: spec_fn(int) -> bool| #[trigger] gates_hold(sigma, and.listing(), xor.listing()) && eqs_hold(sigma, ceq.listing(), neq.listing())
                    ==> bits_sum(sigma, target@, k as int) + (if k == 0 { 0 } else { pow2(k as nat) * b2i(bit_value(sigma, adds@[k - 1])) })
                    + wsum(sigma, adds@, k as int, len as int) == long_product(sigma, left@, right@, k as int),
                cnum(cntr@, 0, len as int) == (2 * maxsum(lw as int, rw as int, k as int)) % (pow2((lw + rw) as nat) as int),
                ext_exists(xa + xb + xr, and.listing(), xor.listing()),
                bits_ok(left@, xa + xb + xr),
                bits_ok(right@, xa + xb + xr),
                bits_ok(target@, xa + xb + xr),
                target@ == bits_of(res.spec_bytes(), xa + xb),
                n_start <= xa + xb + xr + lw * rw,
                node <= n_start + 2 * rw * (lw + rw) * k,
                ceq.listing().len() + neq.listing().len() <= 3 * (rw + 1) * k,
                lw + rw == l.spec_bytes().len() + r.spec_bytes().len(),
                forall|sigma: spec_fn(int) -> bool| #[trigger] gates_hold(sigma, and.listing(), xor.listing()) && agrees(sigma, left@, right@, target@)
                    ==> eqs_hold(sigma, ceq.listing(), neq.listing()),
            decreases len - k,
        {
            proof {
                assert forall|i: int| 0 <= i < lw implies (#[trigger] mul_res@[i]).len() == rw && bits_ok(mul_res@[i]@, node as int) by {
                    lemma_bits_grow(mul_res@[i]@, n_start, node as int);
                }
                lemma_bits_grow(target@, n_start, node as int);
            }
            let ghost a_before = and.listing();
            let ghost x_before = xor.listing();
            let ghost c_before = ceq.listing();
            let ghost p_before = neq.listing();
            let ghost adds_before = adds@;
            proof {
                assert forall|sigma: spec_fn(int) -> bool| #[trigger] and_gates_hold(sigma, and.listing())
                    implies rows_are_products(sigma, mul_res@, left@, right@, lw as int) by {
                    lemma_gates_mono(sigma, a_p, Seq::empty(), and.listing(), Seq::empty());
                    assert(and_gates_hold(sigma, a_p));
                }
            }
            let step = column(k, &mul_res, lw, rw, &target, &mut adds, &mut cntr, &mut node, &mut and, &mut xor, &mut ceq, &mut neq, Ghost(left@), Ghost(right@));
            proof {
                assert forall|i: int, j: int| 0 <= i < left.len() && 0 <= j < right.len()
                    implies product_gate(and.listing(), #[trigger] left@[i], #[trigger] right@[j]) by {
                    assert(product_gate(a_before, left@[i], right@[j]));
                    if left@[i] is Node && right@[j] is Node {
                        assert(has_key(a_before, sort_spec(left@[i]->Node_0, right@[j]->Node_0)));
                    }
                }
            }
            proof {
                if step is Done {
                    lemma_wsum_split_all(adds@, k as int, len as int);
                    assert forall|sigma: spec_fn(int) -> bool| #[trigger] gates_hold(sigma, and.listing(), xor.listing()) && eqs_hold(sigma, ceq.listing(), neq.listing())
                        implies bits_sum(sigma, target@, k + 1) + pow2((k + 1) as nat) * b2i(bit_value(sigma, adds@[k as int]))
                        + wsum(sigma, adds@, k + 1, len as int) == long_product(sigma, left@, right@, k + 1) by {
                        lemma_gates_mono(sigma, a_before, x_before, and.listing(), xor.listing());
                        lemma_eqs_mono(sigma, c_before, p_before, ceq.listing(), neq.listing());
                        assert(gates_hold(sigma, a_before, x_before) && eqs_hold(sigma, c_before, p_before));
                        lemma_gates_mono(sigma, a_p, Seq::empty(), and.listing(), Seq::empty());
                        assert(and_gates_hold(sigma, a_p));
                        lemma_col_sum_products(sigma, mul_res@, left@, right@, k as int, col_lo(k as int, rw as int), col_hi(k as int, lw as int));
                        if k == 0 {
                            assert(pow2(0) * b2i(false) == 0);
                        }
                    }
                }
            }
            proof {
                assert(node <= n_start + 2 * rw * (lw + rw) * (k + 1)) by {
                    assert(2 * rw * (lw + rw - k) <= 2 * rw * (lw + rw)) by (nonlinear_arith)
                        requires
                            rw >= 0,
                            k >= 0,
                    ;
                    assert(2 * rw * (lw + rw) * (k + 1) == 2 * rw * (lw + rw) * k + 2 * rw * (lw + rw)) by (nonlinear_arith);
                }
                assert(3 * (rw + 1) * (k + 1) == 3 * (rw + 1) * k + 3 * (rw + 1)) by (nonlinear_arith);
                lemma_cvrt_bounds(lw as int, rw as int, k + 1);
            }
            proof {
                assert forall|sigma: spec_fn(int) -> bool| #[trigger] gates_hold(sigma, and.listing(), xor.listing()) && agrees(sigma, left@, right@, target@)
                    implies step !is Clash && (step is Done ==> eqs_hold(sigma, ceq.listing(), neq.listing())) by {
                    lemma_gates_mono(sigma, a_before, x_before, and.listing(), xor.listing());
                    assert(gates_hold(sigma, a_before, x_before));
                    assert(eqs_hold(sigma, c_before, p_before));
                    if k == 0 {
                        assert(b2i(bit_value(sigma, Bit::Constant(false))) == 0);
                        assert(pow2(0) * 0 == 0) by (nonlinear_arith);
                    }
                    assert(col_entry(sigma, left@, right@, target@, adds_before, k as int));
                }
            }
            match step {
                ColEnd::Done => {},
                ColEnd::Clash => {
                    proof {
                        assert forall|tau: spec_fn(int) -> bool| !#[trigger] agrees(tau, left@, right@, target@) by {
                            if agrees(tau, left@, right@, target@) {
                                let nx: int = xa + xb + xr;
                let e = choose|e: spec_fn(Assign) -> Assign| natural(e, nx, and.listing(), xor.listing());
                                let sigma = e(tau);
                                assert(gates_hold(sigma, and.listing(), xor.listing()));
                                assert forall|v: int| 1 <= v <= xa + xb + xr implies #[trigger] sigma(v) == tau(v) by {
                                    assert(e(tau)(v) == tau(v));
                                }
                                lemma_bits_sum_same(sigma, tau, left@, left.len() as int, xa + xb + xr);
                                lemma_bits_sum_same(sigma, tau, right@, right.len() as int, xa + xb + xr);
                                lemma_bits_sum_same(sigma, tau, target@, len as int, xa + xb + xr);
                                assert(agrees(sigma, left@, right@, target@));
                            }
                        }
                        assert(xa + xb == x_count(l.spec_bytes()) + x_count(r.spec_bytes()));
                        assert(target@ == bits_of(res.spec_bytes(), x_count(l.spec_bytes()) + x_count(r.spec_bytes())));
                    }
                    return MulCnf { left, right, and, xor, ceq, neq, node, overflow: false, text: None };
                },
                ColEnd::Full => {
                    return MulCnf { left, right, and, xor, ceq, neq, node, overflow: true, text: None };
                },
            }
            k += 1;
        }
        proof {
            lemma_tables_in_range(and, xor, ceq, neq, node as int);
            lemma_cvrt_bounds(lw as int, rw as int, k as int);
        }
        proof {
            assert(target@ == bits_of(res.spec_bytes(), x_count(l.spec_bytes()) + x_count(r.spec_bytes())));
            assert forall|sigma: spec_fn(int) -> bool|
                #[trigger] satisfies(sigma, all_clauses(and.listing(), xor.listing(), ceq.listing(), neq.listing()))
                implies ({
                let product = bits_sum(sigma, left@, left.len() as int) * bits_sum(sigma, right@, right.len() as int);
                ||| product == bits_sum(sigma, target@, len as int)
                ||| product == bits_sum(sigma, target@, len as int) + pow2(len as nat)
            }) by {
                lemma_clauses_meaning(and, xor, ceq, neq, node as int, sigma);
                lemma_long_product(sigma, left@, right@);
                assert(gates_hold(sigma, and.listing(), xor.listing()) && eqs_hold(sigma, ceq.listing(), neq.listing()));
                assert(wsum(sigma, adds@, len as int, len as int) == 0);
                if len > 0 {
                    assert(b2i(bit_value(sigma, adds@[len - 1])) == 0 || b2i(bit_value(sigma, adds@[len - 1])) == 1);
                }
            }
        }
        let clauses: u128 = 4 * (and.len() as u128) + 4 * (xor.len() as u128) + ceq.len() as u128 + neq.len() as u128;
        if clauses > usize::MAX as u128 {
            proof {
                let n = l.spec_bytes().len() + r.spec_bytes().len();
                assert(8 * n * n * n == 4 * (2 * n * n * n)) by (nonlinear_arith);
            }
            return MulCnf { left, right, and, xor, ceq, neq, node, overflow: true, text: None };
        }
        proof {
            assert(xa + xb + xr == x_count(l.spec_bytes()) + x_count(r.spec_bytes()) + x_count(res.spec_bytes()));
            assert(target@ == bits_of(res.spec_bytes(), x_count(l.spec_bytes()) + x_count(r.spec_bytes())));
        }
        let text = Self::format(&and, &xor, &ceq, &neq, node);
        let ghost nx: int = x_count(l.spec_bytes()) + x_count(r.spec_bytes()) + x_count(res.spec_bytes());
        let ghost tg = bits_of(res.spec_bytes(), x_count(l.spec_bytes()) + x_count(r.spec_bytes()));
        let out = MulCnf { left, right, and, xor, ceq, neq, node, overflow: false, text: Some(text) };
        proof {
            assert forall|tau: spec_fn(int) -> bool| #[trigger] agrees(tau, out.left@, out.right@, tg)
                implies exists|sigma: spec_fn(int) -> bool| #[trigger] satisfies(sigma, all_clauses(out.and.listing(), out.xor.listing(), out.ceq.listing(), out.neq.listing()))
                && forall|v: int| 1 <= v <= nx ==> sigma(v) == #[trigger] tau(v) by {
                let nn: int = xa + xb + xr;
                let e = choose|e: spec_fn(Assign) -> Assign| natural(e, nn, out.and.listing(), out.xor.listing());
                let sigma = e(tau);
                assert(gates_hold(sigma, out.and.listing(), out.xor.listing()));
                assert forall|v: int| 1 <= v <= nn implies #[trigger] sigma(v) == tau(v) by {
                    assert(e(tau)(v) == tau(v));
                }
                lemma_bits_sum_same(sigma, tau, out.left@, out.left@.len() as int, nn);
                lemma_bits_sum_same(sigma, tau, out.right@, out.right@.len() as int, nn);
                lemma_bits_sum_same(sigma, tau, target@, len as int, nn);
                assert(agrees(sigma, out.left@, out.right@, target@));
                lemma_clauses_hold(out.and, out.xor, out.ceq, out.neq, out.node as int, sigma);
                assert(forall|v: int| 1 <= v <= nx ==> sigma(v) == #[trigger] tau(v));
            }
        }
        out
    }
}

} // verus!
