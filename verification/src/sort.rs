//! Sorting of strength lists.

use vstd::prelude::*;

verus! {

/// A strength and the index of the hand that has it.
pub type Ranked = (u32, u16);

/// The order of the list: by strength, then by index.
pub open spec fn not_after(a: Ranked, b: Ranked) -> bool {
    a.0 < b.0 || (a.0 == b.0 && a.1 <= b.1)
}

/// Each entry stands before those behind it.
pub open spec fn in_order(s: Seq<Ranked>) -> bool {
    forall|i: int, j: int| 0 <= i <= j < s.len() ==> not_after(#[trigger] s[i], #[trigger] s[j])
}

fn merge(a: &Vec<Ranked>, b: &Vec<Ranked>) -> (r: Vec<Ranked>)
    requires
        in_order(a@),
        in_order(b@),
    ensures
        in_order(r@),
        r@.to_multiset() == a@.to_multiset().add(b@.to_multiset()),
{
    broadcast use vstd::seq_lib::group_to_multiset_ensures;

    let mut out: Vec<Ranked> = Vec::new();
    let mut i: usize = 0;
    let mut j: usize = 0;
    assert(a@.take(0) =~= Seq::<Ranked>::empty());
    assert(b@.take(0) =~= Seq::<Ranked>::empty());
    assert(out@ =~= a@.take(0) + b@.take(0));
    while i < a.len() || j < b.len()
        invariant
            i <= a@.len(),
            j <= b@.len(),
            in_order(a@),
            in_order(b@),
            in_order(out@),
            out@.to_multiset() =~= a@.take(i as int).to_multiset().add(
                b@.take(j as int).to_multiset(),
            ),
            forall|k: int, m: int|
                0 <= k < out@.len() && i <= m < a@.len() ==> not_after(
                    #[trigger] out@[k],
                    #[trigger] a@[m],
                ),
            forall|k: int, m: int|
                0 <= k < out@.len() && j <= m < b@.len() ==> not_after(
                    #[trigger] out@[k],
                    #[trigger] b@[m],
                ),
        decreases a@.len() - i + b@.len() - j,
    {
        let ghost before = out@;
        let from_a: bool = if i >= a.len() {
            false
        } else if j >= b.len() {
            true
        } else {
            let x = a[i];
            let y = b[j];
            x.0 < y.0 || (x.0 == y.0 && x.1 <= y.1)
        };
        if from_a {
            let x = a[i];
            proof {
                broadcast use vstd::multiset::group_multiset_axioms;

                vstd::seq_lib::to_multiset_build(before, x);
                vstd::seq_lib::to_multiset_build(a@.take(i as int), x);
                assert(a@.take(i + 1) =~= a@.take(i as int).push(x));
                assert(before.push(x).to_multiset() =~= a@.take(i + 1).to_multiset().add(
                    b@.take(j as int).to_multiset(),
                ));
            }
            out.push(x);
            i = i + 1;
        } else {
            let y = b[j];
            proof {
                broadcast use vstd::multiset::group_multiset_axioms;

                vstd::seq_lib::to_multiset_build(before, y);
                vstd::seq_lib::to_multiset_build(b@.take(j as int), y);
                assert(b@.take(j + 1) =~= b@.take(j as int).push(y));
                assert(before.push(y).to_multiset() =~= a@.take(i as int).to_multiset().add(
                    b@.take(j + 1).to_multiset(),
                ));
            }
            out.push(y);
            j = j + 1;
        }
    }
    assert(a@.take(a@.len() as int) =~= a@);
    assert(b@.take(b@.len() as int) =~= b@);
    out
}

/// The list in order: the same entries, each as often as before.
pub fn sort_ranked(v: &[Ranked]) -> (r: Vec<Ranked>)
    ensures
        in_order(r@),
        r@.to_multiset() == v@.to_multiset(),
    decreases v@.len(),
{
    let n: usize = v.len();
    if n < 2 {
        let mut out: Vec<Ranked> = Vec::new();
        if n == 1 {
            out.push(v[0]);
        }
        assert(out@ =~= v@);
        return out;
    }
    let half: usize = n / 2;
    let front = vstd::slice::slice_subrange(v, 0, half);
    let back = vstd::slice::slice_subrange(v, half, n);
    proof {
        vstd::seq_lib::lemma_multiset_commutative(front@, back@);
        assert(front@ + back@ =~= v@);
    }
    merge(&sort_ranked(front), &sort_ranked(back))
}

} // verus!
