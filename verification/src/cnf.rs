//! Clauses and their truth under an assignment of the variables.
use vstd::prelude::*;

verus! {

/// Literal `l` holds under the assignment `v`: variable `l` is true, or `-l` is false.
pub open spec fn lit_holds(v: spec_fn(int) -> bool, l: int) -> bool {
    if l < 0 { !v(-l) } else { v(l) }
}

/// Some literal of the clause holds.
pub open spec fn clause_holds(v: spec_fn(int) -> bool, c: Seq<int>) -> bool {
    exists|t: int| 0 <= t < c.len() && lit_holds(v, #[trigger] c[t])
}

/// A clause made of two holds exactly when one of them does.
pub proof fn lemma_clause_concat(v: spec_fn(int) -> bool, a: Seq<int>, b: Seq<int>)
    ensures
        clause_holds(v, a + b) <==> clause_holds(v, a) || clause_holds(v, b),
{
    if clause_holds(v, a + b) {
        let t = choose|t: int| 0 <= t < (a + b).len() && lit_holds(v, #[trigger] (a + b)[t]);
        if t < a.len() {
            assert((a + b)[t] == a[t]);
        } else {
            assert((a + b)[t] == b[t - a.len()]);
        }
    }
    if clause_holds(v, a) {
        let t = choose|t: int| 0 <= t < a.len() && lit_holds(v, #[trigger] a[t]);
        assert((a + b)[t] == a[t]);
    }
    if clause_holds(v, b) {
        let t = choose|t: int| 0 <= t < b.len() && lit_holds(v, #[trigger] b[t]);
        assert((a + b)[a.len() + t] == b[t]);
    }
}

} // verus!
