//! Where the chips go, in exact numbers: what one player wins is what the
//! others lose, less the rake.

use crate::nano;
use crate::nano::Nano;
use crate::num::Num;
use crate::preflop::PreflopConfig;
use crate::preflop_tree::Knot;
use crate::preflop_values;
use crate::tree;
use crate::tree::{BuildState, TreeConfig};
use vstd::prelude::*;

verus! {

/// Law: when a player folds, the two players together lose the rake.
pub proof fn law_a_fold_costs_the_rake(cfg: TreeConfig<Nano>, st: BuildState<Nano>)
    requires
        st.to_act < 2,
        0 <= st.put[st.to_act as int].count,
        0 <= tree::rake_of(
            cfg,
            Nano::decimal_spec(2, 0).times_spec(st.put[st.to_act as int]),
        ).count,
    ensures
        ({
            let node = tree::fold_node(cfg, st);
            node.t_win.count + node.t_lose.count == -tree::rake_of(
                cfg,
                Nano::decimal_spec(2, 0).times_spec(st.put[st.to_act as int]),
            ).count
        }),
{
}

/// Law: at a showdown the two players together lose the rake, and where they
/// tie each loses half of it, down to a billionth.
pub proof fn law_a_showdown_costs_the_rake(cfg: TreeConfig<Nano>, street: u8, put: [Nano; 2])
    requires
        0 <= put[0].count,
        0 <= tree::rake_of(cfg, put[0].plus_spec(put[1])).count,
    ensures
        ({
            let node = tree::showdown_node(cfg, street, put);
            let rake = tree::rake_of(cfg, put[0].plus_spec(put[1])).count;
            &&& node.t_win.count + node.t_lose.count == -rake
            &&& -rake <= 2 * node.t_tie.count <= -rake + 1
        }),
{
    let rake = tree::rake_of(cfg, put[0].plus_spec(put[1]));
    assert(nano::ten_to(0) == 1);
    assert(Nano::decimal_spec(2, 0).count == 2_000_000_000);
    assert(rake.negated_spec().count == -rake.count);
    assert(nano::cut_div(-rake.count * 1_000_000_000, 2_000_000_000) == -(rake.count as int
        / 2)) by {
        if rake.count > 0 {
            vstd::arithmetic::div_mod::lemma_truncate_middle(rake.count as int, 2, 1_000_000_000);
            assert((rake.count * 1_000_000_000) / 2_000_000_000 == rake.count / 2);
        }
    }
}

/// What the first `k` seats put in together.
pub open spec fn put_in(invested: Seq<Nano>, k: int) -> int
    decreases k,
{
    if k <= 0 {
        0
    } else {
        put_in(invested, k - 1) + invested[k - 1].count
    }
}

/// What the first `k` seats win and lose together where all seats but one
/// have folded.
pub open spec fn shared_out(cfg: PreflopConfig<Nano>, nd: Knot<Nano>, k: int) -> int
    decreases k,
{
    if k <= 0 {
        0
    } else {
        shared_out(cfg, nd, k - 1) + preflop_values::left_with(cfg, nd, k - 1).count
    }
}

/// Law: where all seats but one have folded before the flop, the seats
/// together lose the rake.
pub proof fn law_a_folded_pot_is_shared_out(cfg: PreflopConfig<Nano>, nd: Knot<Nano>)
    requires
        nd.winner < nd.invested.len(),
        forall|q: int| 0 <= q < nd.invested.len() ==> 0 <= (#[trigger] nd.invested[q]).count,
        nd.pot.count == put_in(nd.invested, nd.invested.len() as int),
        0 <= preflop_values::cut_before_flop(cfg, nd.pot).count <= nd.pot.count,
    ensures
        shared_out(cfg, nd, nd.invested.len() as int) == -preflop_values::cut_before_flop(
            cfg,
            nd.pot,
        ).count,
{
    lemma_shared_out(cfg, nd, nd.invested.len() as int);
}

proof fn lemma_shared_out(cfg: PreflopConfig<Nano>, nd: Knot<Nano>, k: int)
    requires
        0 <= k <= nd.invested.len(),
        forall|q: int| 0 <= q < nd.invested.len() ==> 0 <= (#[trigger] nd.invested[q]).count,
        0 <= preflop_values::cut_before_flop(cfg, nd.pot).count <= nd.pot.count,
    ensures
        shared_out(cfg, nd, k) == (if nd.winner < k {
            nd.pot.count - preflop_values::cut_before_flop(cfg, nd.pot).count
        } else {
            0
        }) - put_in(nd.invested, k),
    decreases k,
{
    if k > 0 {
        lemma_shared_out(cfg, nd, k - 1);
        assert(0 <= nd.invested[k - 1].count);
    }
}

} // verus!
