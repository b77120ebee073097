//! Tables keyed by node number.

use std::collections::HashMap;
use vstd::prelude::*;

verus! {

/// The keys of a table, each once, in no particular order.
pub fn keys_of<V>(table: &HashMap<u32, V>) -> (r: Vec<u32>)
    ensures
        r@.no_duplicates(),
        r@.to_set() == table@.dom(),
        r@.len() == table@.dom().len(),
{
    broadcast use vstd::std_specs::hash::axiom_spec_keys_iter;
    let mut out: Vec<u32> = Vec::new();
    let keys = table.keys();
    let ghost all = vstd::std_specs::iter::IteratorSpec::remaining(&keys).unref();
    for k in it: keys
        invariant
            it.seq().unref() == all,
            out@ == it.seq().unref().take(it.index()),
    {
        out.push(*k);
        assert(out@ =~= it.seq().unref().take(it.index() + 1));
    }
    assert(out@ =~= all);
    out
}

/// A pushed element is contained, and nothing else changes.
pub proof fn lemma_push_contains<T>(s: Seq<T>, x: T, k: T)
    ensures
        s.push(x).contains(k) <==> s.contains(k) || k == x,
{
    let t = s.push(x);
    if s.contains(k) {
        let i = choose|i: int| 0 <= i < s.len() && s[i] == k;
        assert(t[i] == k);
    }
    if k == x {
        assert(t[s.len() as int] == k);
    }
}

/// A new element keeps a list free of repetition.
pub proof fn lemma_push_distinct<T>(s: Seq<T>, x: T)
    requires
        s.no_duplicates(),
        !s.contains(x),
    ensures
        s.push(x).no_duplicates(),
{
    let t = s.push(x);
    assert forall|i: int, j: int| 0 <= i < t.len() && 0 <= j < t.len() && i != j implies t[i]
        != t[j] by {
        if i == s.len() {
            assert(s.contains(s[j]));
        } else if j == s.len() {
            assert(s.contains(s[i]));
        }
    }
}

} // verus!
