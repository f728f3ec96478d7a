//! Decimal digit strings of powers of two, and a bit set over all six-digit windows:
//! the search for the first power of two whose decimal digits hold every six-digit string.
use vstd::prelude::*;
use vstd::arithmetic::power::*;
use vstd::arithmetic::mul::*;

verus! {

/// The number base of the digit strings.
pub const BASE: u8 = 10;

/// The smallest power of two above `2 * BASE - 1`: a doubled digit that reaches `BASE`
/// is stored as `FLAG + (2 * digit - BASE)`, with the carry in the `FLAG` bit.
pub const FLAG: u8 = 32;

/// The bits below `FLAG`.
pub const FLAG_MASK: u8 = 31;

/// `FLAG == 1 << FLAG_SHR`.
pub const FLAG_SHR: u32 = 5;

/// What a doubled digit that reaches `BASE` gets added: `FLAG - BASE`.
pub const BASE_ADD: u8 = 22;

/// The length of the windows.
pub const DIGITS: u32 = 6;

/// The number of windows of `DIGITS` digits: `BASE^DIGITS`.
pub const TARGET: u32 = 1000000;

/// The value of a little-endian digit string: `s[0] + s[1] * 10 + ...`.
pub open spec fn le_value(s: Seq<u8>) -> int
    decreases s.len(),
{
    if s.len() == 0 {
        0
    } else {
        le_value(s.drop_last()) + s.last() * pow(10, (s.len() - 1) as nat)
    }
}

/// The value of a digit string read from its first element: `s[0] * 10^(n-1) + ... + s[n-1]`.
pub open spec fn be_value(s: Seq<u8>) -> int
    decreases s.len(),
{
    if s.len() == 0 {
        0
    } else {
        be_value(s.drop_last()) * 10 + s.last()
    }
}

/// Every element is a decimal digit.
pub open spec fn all_digits(s: Seq<u8>) -> bool {
    forall|i: int| 0 <= i < s.len() ==> s[i] < 10
}

/// For each leading digit `x`, the amount `x * 10^(DIGITS - 1)` that it contributes to a window.
pub fn maxout_gen() -> (r: [u32; 10])
    ensures
        forall|x: int| 0 <= x < 10 ==> r[x] == x * 100000,
{
    let mut ret = [0u32; 10];
    let mut x: usize = 0;
    while x < 10
        invariant
            0 <= x <= 10,
            forall|y: int| 0 <= y < x ==> ret[y] == y * 100000,
        decreases 10 - x,
    {
        ret[x] = (x as u32) * 100000;
        x += 1
    }
    ret
}

proof fn lemma_double_digit(d: u8, s: u8)
    requires
        d < 10,
        s <= 1,
    ensures
        ({
            let x: u8 = if (d << 1u8) >= 10 { ((d << 1u8) + 22) as u8 } else { d << 1u8 };
            &&& (d << 1u8) == 2 * d
            &&& ((x + s) as u8) & 31 == (if 2 * d >= 10 { 2 * d - 10 } else { 2 * d }) + s
            &&& x >> 5u8 == (if 2 * d >= 10 { 1u8 } else { 0u8 })
            &&& x + s < 256
        }),
{
    assert(d << 1u8 == 2 * d) by (bit_vector)
        requires
            d < 10,
    ;
    let x: u8 = if (d << 1u8) >= 10 { ((d << 1u8) + 22) as u8 } else { d << 1u8 };
    if 2 * d >= 10 {
        assert(x == 2 * d + 22);
        assert(((x + s) as u8) & 31 == x - 32 + s && x >> 5u8 == 1u8) by (bit_vector)
            requires
                32 <= x < 41,
                s <= 1,
        ;
    } else {
        assert(x == 2 * d);
        assert(((x + s) as u8) & 31 == x + s && x >> 5u8 == 0u8) by (bit_vector)
            requires
                x < 10,
                s <= 1,
        ;
    }
}

proof fn lemma_le_value_push(s: Seq<u8>, d: u8)
    ensures
        le_value(s.push(d)) == le_value(s) + d * pow(10, s.len()),
{
    assert(s.push(d).drop_last() =~= s);
}

/// Doubles a little-endian decimal number, appending a digit for the last carry.
pub fn mul2(num: Vec<u8>) -> (r: Vec<u8>)
    requires
        all_digits(num@),
    ensures
        all_digits(r@),
        le_value(r@) == 2 * le_value(num@),
        r.len() == num.len() || (r.len() == num.len() + 1 && r@.last() == 1),
{
    let mut num = num;
    let ghost orig = num@;
    // double every digit, marking a carry in the FLAG bit
    let mut i: usize = 0;
    while i < num.len()
        invariant
            0 <= i <= num.len(),
            num.len() == orig.len(),
            all_digits(orig),
            forall|j: int| 0 <= j < i ==> num[j] == (if 2 * orig[j] >= 10 {
                2 * orig[j] + 22
            } else {
                2 * orig[j]
            }),
            forall|j: int| i <= j < num.len() ==> num[j] == orig[j],
        decreases num.len() - i,
    {
        let mut x = num[i];
        proof {
            assert(orig[i as int] < 10);
            lemma_double_digit(x, 0);
        }
        x <<= 1;
        if x >= BASE {
            x += BASE_ADD
        }
        num.set(i, x);
        i += 1;
    }
    // move the carries up
    let ghost doubled = num@;
    let mut s: u8 = 0;
    let mut i: usize = 0;
    while i < num.len()
        invariant
            0 <= i <= num.len(),
            num.len() == orig.len(),
            doubled.len() == orig.len(),
            all_digits(orig),
            s <= 1,
            forall|j: int| 0 <= j < doubled.len() ==> doubled[j] == (if 2 * orig[j] >= 10 {
                2 * orig[j] + 22
            } else {
                2 * orig[j]
            }),
            forall|j: int| i <= j < num.len() ==> num[j] == doubled[j],
            all_digits(num@.subrange(0, i as int)),
            le_value(num@.subrange(0, i as int)) + s * pow(10, i as nat) == 2 * le_value(
                orig.subrange(0, i as int),
            ),
        decreases num.len() - i,
    {
        let x = num[i];
        proof {
            assert(orig[i as int] < 10);
            assert(x == doubled[i as int]);
            lemma_double_digit(orig[i as int], s);
        }
        let nd = (x + s) & FLAG_MASK;
        proof {
            assert(nd == ((x + s) as u8) & 31);
        }
        let ghost old_num = num@;
        num.set(i, nd);
        proof {
            let d = orig[i as int];
            let p = pow(10, i as nat);
            assert(num@.subrange(0, i + 1) =~= old_num.subrange(0, i as int).push(nd));
            assert(orig.subrange(0, i + 1) =~= orig.subrange(0, i as int).push(d));
            lemma_le_value_push(old_num.subrange(0, i as int), nd);
            lemma_le_value_push(orig.subrange(0, i as int), d);
            lemma_pow1(10);
            lemma_pow_adds(10, i as nat, 1);
            let c: int = if 2 * d >= 10 { 1 } else { 0 };
            assert(nd == 2 * d - 10 * c + s);
            assert(nd * p + (x >> 5u8) * (10 * p) == 2 * (d * p) + s * p) by (nonlinear_arith)
                requires
                    nd == 2 * d - 10 * c + s,
                    (x >> 5u8) == c,
            ;
        }
        s = x >> FLAG_SHR;
        i += 1;
    }
    proof {
        assert(num@.subrange(0, num.len() as int) =~= num@);
        assert(orig.subrange(0, orig.len() as int) =~= orig);
    }
    if s > 0 {
        let ghost before = num@;
        num.push(1);
        proof {
            lemma_le_value_push(before, 1);
        }
    }
    num
}

/// The value of the window of `DIGITS` digits of `num` that starts at `i`.
pub open spec fn window_value(num: Seq<u8>, i: int) -> int {
    be_value(num.subrange(i, i + 6))
}

/// `v` is the value of some window of `num`.
pub open spec fn is_window(num: Seq<u8>, v: int) -> bool {
    exists|i: int| 0 <= i <= num.len() - 6 && #[trigger] window_value(num, i) == v
}

proof fn lemma_be_value_bound(s: Seq<u8>)
    requires
        all_digits(s),
    ensures
        0 <= be_value(s) < pow(10, s.len()),
    decreases s.len(),
{
    if s.len() == 0 {
        lemma_pow0(10);
    } else {
        let k = (s.len() - 1) as nat;
        lemma_be_value_bound(s.drop_last());
        lemma_pow1(10);
        lemma_pow_adds(10, k, 1);
        assert(s.last() < 10);
        assert(be_value(s.drop_last()) * 10 + s.last() < pow(10, k) * 10) by (nonlinear_arith)
            requires
                be_value(s.drop_last()) < pow(10, k),
                be_value(s.drop_last()) >= 0,
                s.last() < 10,
        ;
    }
}

proof fn lemma_be_value_first(s: Seq<u8>)
    requires
        s.len() >= 1,
    ensures
        be_value(s) == s[0] * pow(10, (s.len() - 1) as nat) + be_value(s.subrange(1, s.len() as int)),
    decreases s.len(),
{
    if s.len() == 1 {
        lemma_pow0(10);
        assert(s.subrange(1, 1) =~= Seq::<u8>::empty());
        assert(s.drop_last() =~= Seq::<u8>::empty());
    } else {
        let dl = s.drop_last();
        lemma_be_value_first(dl);
        assert(s.subrange(1, s.len() as int).drop_last() =~= dl.subrange(1, dl.len() as int));
        lemma_pow1(10);
        lemma_pow_adds(10, (s.len() - 2) as nat, 1);
        assert(dl[0] == s[0]);
        assert(s.subrange(1, s.len() as int).last() == s.last());
        let p = pow(10, (s.len() - 2) as nat);
        assert((s[0] * p + be_value(dl.subrange(1, dl.len() as int))) * 10 == s[0] * (p * 10)
            + be_value(dl.subrange(1, dl.len() as int)) * 10) by (nonlinear_arith);
    }
}

/// A canonical little-endian decimal numeral: digits only, at least one, the last nonzero.
pub open spec fn canonical(s: Seq<u8>) -> bool {
    &&& all_digits(s)
    &&& s.len() >= 1
    &&& s.last() != 0
}

/// The numeral has more than `TARGET` digits and every window value `0..TARGET` occurs in it.
pub open spec fn all_windows(s: Seq<u8>) -> bool {
    &&& s.len() > TARGET
    &&& forall|v: int| 0 <= v < TARGET ==> is_window(s, v)
}

/// The decimal numeral of `n` has every window value: some canonical numeral of value `n`
/// has, and by [`lemma_canonical_unique`] there is only one.
pub open spec fn value_has_all_windows(n: int) -> bool {
    exists|s: Seq<u8>| canonical(s) && le_value(s) == n && #[trigger] all_windows(s)
}

proof fn lemma_le_value_bound(s: Seq<u8>)
    requires
        all_digits(s),
    ensures
        0 <= le_value(s) < pow(10, s.len()),
    decreases s.len(),
{
    reveal(pow);
    if s.len() > 0 {
        let n = (s.len() - 1) as nat;
        lemma_le_value_bound(s.drop_last());
        lemma_pow_positive(10, n);
        assert(s.last() * pow(10, n) <= 9 * pow(10, n)) by (nonlinear_arith)
            requires
                0 <= s.last() <= 9,
                pow(10, n) > 0,
        ;
        assert(le_value(s) == le_value(s.drop_last()) + s.last() * pow(10, n));
        assert(le_value(s) < pow(10, n) * 10);
        assert(0 <= s.last() * pow(10, n)) by (nonlinear_arith)
            requires
                0 <= s.last(),
                pow(10, n) > 0,
        ;
        assert(pow(10, s.len()) == 10 * pow(10, n));
    }
}

proof fn lemma_le_value_top(s: Seq<u8>)
    requires
        canonical(s),
    ensures
        pow(10, (s.len() - 1) as nat) <= le_value(s),
{
    let n = (s.len() - 1) as nat;
    lemma_le_value_bound(s.drop_last());
    lemma_pow_positive(10, n);
    assert(pow(10, n) <= s.last() * pow(10, n)) by (nonlinear_arith)
        requires
            s.last() >= 1,
            pow(10, n) > 0,
    ;
}

proof fn lemma_le_value_same_len(s: Seq<u8>, t: Seq<u8>)
    requires
        all_digits(s),
        all_digits(t),
        s.len() == t.len(),
        le_value(s) == le_value(t),
    ensures
        s == t,
    decreases s.len(),
{
    if s.len() > 0 {
        let n = (s.len() - 1) as nat;
        let p = pow(10, n);
        lemma_le_value_bound(s.drop_last());
        lemma_le_value_bound(t.drop_last());
        lemma_pow_positive(10, n);
        let a = le_value(s.drop_last());
        let b = le_value(t.drop_last());
        assert(s.last() == t.last()) by (nonlinear_arith)
            requires
                a + s.last() * p == b + t.last() * p,
                0 <= a < p,
                0 <= b < p,
                0 <= s.last(),
                0 <= t.last(),
        {
            if s.last() < t.last() {
                assert(s.last() * p + p <= t.last() * p) by (nonlinear_arith)
                    requires
                        s.last() + 1 <= t.last(),
                        p > 0,
                ;
            }
            if s.last() > t.last() {
                assert(t.last() * p + p <= s.last() * p) by (nonlinear_arith)
                    requires
                        t.last() + 1 <= s.last(),
                        p > 0,
                ;
            }
        }
        lemma_le_value_same_len(s.drop_last(), t.drop_last());
        assert(s =~= s.drop_last().push(s.last()));
        assert(t =~= t.drop_last().push(t.last()));
    } else {
        assert(s =~= t);
    }
}

/// A number has one canonical decimal numeral.
pub proof fn lemma_canonical_unique(s: Seq<u8>, t: Seq<u8>)
    requires
        canonical(s),
        canonical(t),
        le_value(s) == le_value(t),
    ensures
        s == t,
{
    lemma_le_value_top(s);
    lemma_le_value_top(t);
    lemma_le_value_bound(s);
    lemma_le_value_bound(t);
    if s.len() < t.len() {
        lemma_pow_increases(10, s.len(), (t.len() - 1) as nat);
    }
    if t.len() < s.len() {
        lemma_pow_increases(10, t.len(), (s.len() - 1) as nat);
    }
    lemma_le_value_same_len(s, t);
}

pub(crate) proof fn lemma_mul2_canonical(num: Seq<u8>, r: Seq<u8>)
    requires
        canonical(num),
        all_digits(r),
        le_value(r) == 2 * le_value(num),
        r.len() == num.len() || (r.len() == num.len() + 1 && r.last() == 1),
    ensures
        canonical(r),
{
    if r.len() == num.len() && r.last() == 0 {
        lemma_le_value_top(num);
        lemma_le_value_bound(r.drop_last());
        assert(le_value(r) == le_value(r.drop_last()));
    }
}

/// A set of flags, one for each window value `0..TARGET`.
pub struct MSlice(Vec<u8>);

impl View for MSlice {
    type V = Seq<u8>;

    closed spec fn view(&self) -> Seq<u8> {
        self.0@
    }
}

impl MSlice {
    /// One flag per window value, each 0 or 1.
    pub open spec fn wf(&self) -> bool {
        &&& self@.len() == TARGET
        &&& forall|i: int| 0 <= i < self@.len() ==> self@[i] <= 1
    }

    /// All flags clear.
    pub fn new() -> (r: Self)
        ensures
            r.wf(),
            r@ =~= Seq::new(TARGET as nat, |i: int| 0u8),
    {
        let mut v: Vec<u8> = Vec::new();
        let mut i: u32 = 0;
        while i < TARGET
            invariant
                0 <= i <= TARGET,
                v@ =~= Seq::new(i as nat, |j: int| 0u8),
            decreases TARGET - i,
        {
            v.push(0);
            i += 1;
        }
        Self(v)
    }

    /// Clears all flags.
    pub fn reset(&mut self)
        requires
            old(self).wf(),
        ensures
            final(self).wf(),
            final(self)@ =~= Seq::new(TARGET as nat, |i: int| 0u8),
    {
        let mut i: usize = 0;
        while i < self.0.len()
            invariant
                0 <= i <= self.0.len(),
                self.0.len() == TARGET,
                forall|j: int| 0 <= j < i ==> self.0[j] == 0,
            decreases self.0.len() - i,
        {
            self.0.set(i, 0);
            i += 1;
        }
    }

    /// Sets the flag of window value `idx`.
    pub fn set(&mut self, idx: u32)
        requires
            old(self).wf(),
            idx < TARGET,
        ensures
            final(self).wf(),
            final(self)@ == old(self)@.update(idx as int, 1),
    {
        self.0.set(idx as usize, 1)
    }

    /// Whether the flag of window value `idx` is set.
    pub fn get(&self, idx: u32) -> (r: bool)
        requires
            self.wf(),
            idx < TARGET,
        ensures
            r == (self@[idx as int] != 0),
    {
        self.0[idx as usize] != 0
    }

    /// Whether every flag is set.
    pub fn filled(&self) -> (r: bool)
        requires
            self.wf(),
        ensures
            r == (forall|i: int| 0 <= i < TARGET ==> self@[i] != 0),
    {
        let mut i: usize = 0;
        while i < self.0.len()
            invariant
                0 <= i <= self.0.len(),
                self.0.len() == TARGET,
                forall|j: int| 0 <= j < i ==> self.0[j] != 0,
            decreases self.0.len() - i,
        {
            if self.0[i] == 0 {
                proof {
                    assert(self@[i as int] == 0);
                }
                return false;
            }
            i += 1;
        }
        true
    }

    /// Whether every flag was set; clears all flags.
    pub fn check_and_reset(&mut self) -> (r: bool)
        requires
            old(self).wf(),
        ensures
            final(self).wf(),
            final(self)@ =~= Seq::new(TARGET as nat, |i: int| 0u8),
            r == (forall|i: int| 0 <= i < TARGET ==> old(self)@[i] != 0),
    {
        let x = self.filled();
        self.reset();
        x
    }
}

/// Sets the flag of the value of every window of `DIGITS` consecutive digits of `num`,
/// each window read from its lowest index as the leading digit.
pub fn mark_windows(num: &Vec<u8>, mask: &mut MSlice)
    requires
        old(mask).wf(),
        num.len() >= 6,
        all_digits(num@),
    ensures
        final(mask).wf(),
        forall|v: int| 0 <= v < TARGET && is_window(num@, v) ==> final(mask)@[v] == 1,
        forall|v: int| 0 <= v < TARGET && !is_window(num@, v) ==> final(mask)@[v] == old(mask)@[v],
{
    let maxout = maxout_gen();
    proof {
        reveal_with_fuel(pow, 7);
        assert(pow(10, 5) == 100000);
        assert(pow(10, 6) == 1000000);
    }
    let mut s: u32 = 0;
    let mut j: usize = 0;
    while j < 5
        invariant
            0 <= j <= 5,
            num.len() >= 6,
            all_digits(num@),
            s == be_value(num@.subrange(0, j as int)),
            s < 100000,
            pow(10, 5) == 100000,
        decreases 5 - j,
    {
        proof {
            assert(num@.subrange(0, j + 1).drop_last() =~= num@.subrange(0, j as int));
            assert(num[j as int] < 10);
            lemma_be_value_bound(num@.subrange(0, j + 1));
            lemma_pow_increases(10, (j + 1) as nat, 5);
        }
        s = s * 10 + num[j] as u32;
        j += 1;
    }
    let ghost orig = mask@;
    let mut i: usize = 0;
    while i < num.len() - 5
        invariant
            i + 5 <= num.len(),
            num.len() >= 6,
            all_digits(num@),
            mask.wf(),
            mask@.len() == orig.len(),
            forall|x: int| 0 <= x < 10 ==> maxout[x] == x * 100000,
            s == be_value(num@.subrange(i as int, i + 5)),
            s < 100000,
            pow(10, 5) == 100000,
            forall|v: int|
                0 <= v < TARGET && (exists|k: int| 0 <= k < i && #[trigger] window_value(num@, k) == v)
                    ==> mask@[v] == 1,
            forall|v: int|
                0 <= v < TARGET && !(exists|k: int| 0 <= k < i && #[trigger] window_value(num@, k) == v)
                    ==> mask@[v] == orig[v],
        decreases num.len() - i,
    {
        let ghost w = num@.subrange(i as int, i + 6);
        proof {
            assert(w.drop_last() =~= num@.subrange(i as int, i + 5));
            assert(num[i + 5] < 10);
            assert(w.last() == num[i + 5]);
        }
        let v = s * 10 + num[i + 5] as u32;
        proof {
            assert(v == window_value(num@, i as int));
            assert(all_digits(w));
            lemma_be_value_bound(w);
            assert(w.len() == 6);
        }
        mask.set(v);
        proof {
            lemma_be_value_first(w);
            assert(w.subrange(1, 6) =~= num@.subrange(i + 1, i + 6));
            assert(w[0] == num[i as int]);
            assert(num[i as int] < 10);
            lemma_be_value_bound(num@.subrange(i + 1, i + 6));
            assert forall|u: int|
                0 <= u < TARGET && (exists|k: int| 0 <= k < i + 1 && #[trigger] window_value(num@, k) == u)
                    implies mask@[u] == 1 by {
                if u != v {
                    let k = choose|k: int| 0 <= k < i + 1 && #[trigger] window_value(num@, k) == u;
                    assert(k < i);
                }
            }
            assert forall|u: int|
                0 <= u < TARGET && !(exists|k: int| 0 <= k < i + 1 && #[trigger] window_value(num@, k) == u)
                    implies mask@[u] == orig[u] by {
                assert(u != window_value(num@, i as int));
            }
        }
        s = v - maxout[num[i] as usize];
        i += 1;
    }
    proof {
        assert forall|v: int| 0 <= v < TARGET && is_window(num@, v) implies mask@[v] == 1 by {
            let k = choose|k: int| 0 <= k <= num.len() - 6 && #[trigger] window_value(num@, k) == v;
            assert(k < i);
        }
        assert forall|v: int| 0 <= v < TARGET && !is_window(num@, v) implies mask@[v] == orig[v] by {
            if exists|k: int| 0 <= k < i && #[trigger] window_value(num@, k) == v {
                let k = choose|k: int| 0 <= k < i && #[trigger] window_value(num@, k) == v;
                assert(0 <= k <= num.len() - 6);
            }
        }
    }
}

} // verus!
