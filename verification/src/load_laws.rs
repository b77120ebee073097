//! Loading what was saved.

use crate::cfr::Solver;
use crate::framing;
use crate::game;
use crate::game::{Spot, SpotConfig};
use crate::growth_laws;
use crate::num::{Num, Single};
use crate::profile_lock;
use crate::save;
use crate::save::{LoadError, SaveHeader};
use crate::store::Storage;
use crate::tree;
use crate::tree::Strictness;
use crate::tree_laws;
use vstd::prelude::*;

verus! {

/// Whether a spot is one that its configuration was built into, under some
/// budget and strictness. Every spot that is constructed is.
pub open spec fn born<N: Num, S: Num>(
    spot: Spot<N, S>,
    max_nodes: Option<usize>,
    strictness: Strictness,
) -> bool {
    &&& spot.wf()
    &&& game::spot_fault::<N, S>(spot.config, max_nodes, strictness) is None
    &&& spot.describes(max_nodes, strictness)
}

/// A spot's tree is the one that a lenient build without a budget gives for
/// any configuration that says the same.
proof fn lemma_same_tree<N: Num, S: Num>(
    spot: Spot<N, S>,
    max_nodes: Option<usize>,
    strictness: Strictness,
    config: SpotConfig<N>,
)
    requires
        born(spot, max_nodes, strictness),
        save::same_spot_config(config, spot.config),
    ensures
        tree::built(
            config.tree,
            spot.board@,
            [spot.hands[0]@.len() as usize, spot.hands[1]@.len() as usize],
            None,
            Strictness::LenientLoad,
        ) == tree::Growth::<N>::Ok((spot.tree.arena(), 0)),
        game::spot_fault::<N, S>(config, None, Strictness::LenientLoad) is None,
{
    let board = spot.board@;
    let hands = [spot.hands[0]@.len() as usize, spot.hands[1]@.len() as usize];
    let cfg = spot.config.tree;
    tree_laws::law_strict_only_refuses(cfg, board, hands, max_nodes);
    match max_nodes {
        Some(cap) => {
            tree_laws::law_budget_only_refuses(
                cfg,
                board,
                hands,
                Strictness::LenientLoad,
                cap,
            );
        },
        None => {},
    }
    assert(tree::same_config(cfg, config.tree)) by {
        let a = config.tree;
        assert forall|s: int| 0 <= s < 3 implies tree::same_sizing(
            #[trigger] cfg.oop[s],
            a.oop[s],
        ) by {
            assert(tree::same_sizing(a.oop[s], cfg.oop[s]));
        }
        assert forall|s: int| 0 <= s < 3 implies tree::same_sizing(
            #[trigger] cfg.ip[s],
            a.ip[s],
        ) by {
            assert(tree::same_sizing(a.ip[s], cfg.ip[s]));
        }
    }
    growth_laws::law_same_config_same_tree(
        cfg,
        config.tree,
        board,
        hands,
        None,
        Strictness::LenientLoad,
    );
}

proof fn lemma_locks_fit<S: Single>(
    s: Solver<S>,
    spot: Spot<S::Wide, S>,
    locks: Seq<(u32, Vec<S>)>,
    from: int,
)
    requires
        s.wf(),
        spot.tree.nodes@ == s.spot.tree.nodes@,
        spot.hands[0]@ == s.spot.hands[0]@,
        spot.hands[1]@ == s.spot.hands[1]@,
        0 <= from,
        forall|i: int| 0 <= i < locks.len() ==> save::locked_so(s, #[trigger] locks[i]),
        forall|k: u32|
            s.locks@.contains_key(k) ==> save::first_unplayable(
                #[trigger] s.locks@[k]@,
                0,
            ) is None,
    ensures
        save::locks_fault(spot, locks, from) is None,
    decreases locks.len() - from,
{
    if from < locks.len() {
        assert(save::locked_so(s, locks[from]));
        let k = locks[from].0;
        assert(s.lock_fits(k));
        assert(s.locks@[k]@ == locks[from].1@);
        assert(tree_laws::node_sound(s.spot.tree.arena(), s.spot.board_mask, k as int));
        let p = s.spot.tree.nodes@[k as int].player;
        assert(p == 0 || p == 1);
        lemma_locks_fit(s, spot, locks, from + 1);
    }
}

/// Law: loading what was saved succeeds, in whatever storage. The iteration,
/// the locks and their labels, the tree and the hands are the solver's, and the
/// arenas hold what storage keeps of the decoded numbers; full precision keeps
/// all of them.
pub proof fn law_saved_solver_loads<S: Single>(
    s: Solver<S>,
    max_nodes: Option<usize>,
    strictness: Strictness,
    header: SaveHeader<S>,
    line: Seq<u8>,
    a: Seq<S>,
    b: Seq<S>,
    c: Seq<S>,
    d: Seq<S>,
    storage: Storage,
    r: Result<Solver<S>, LoadError<S>>,
)
    requires
        s.wf(),
        born(s.spot, max_nodes, strictness),
        s.spot.tree.data_size[0] <= usize::MAX,
        s.spot.tree.data_size[1] <= usize::MAX,
        save::heads(s, header),
        forall|k: u32|
            s.locks@.contains_key(k) ==> save::first_unplayable(
                #[trigger] s.locks@[k]@,
                0,
            ) is None,
        forall|k: int| 0 <= k < line.len() ==> line[k] != 10,
        save::arena_decoded(s.spot, s.regrets[0], 0, a),
        save::arena_decoded(s.spot, s.regrets[1], 1, b),
        save::arena_decoded(s.spot, s.strat[0], 0, c),
        save::arena_decoded(s.spot, s.strat[1], 1, d),
        ({
            let all = a + b + c + d;
            forall|i: int|
                0 <= i < all.len() ==> S::of_word_spec((#[trigger] all[i]).word_spec()) == all[i]
        }),
        ({
            let file = save::file_bytes(
                line,
                save::words_of(a),
                save::words_of(b),
                save::words_of(c),
                save::words_of(d),
            );
            let at = (save::magic_bytes().len() + line.len()) as int;
            save::load_outcome(header, file.skip(at + 1), storage, r)
        }),
    ensures
        r is Ok,
        ({
            let l = r->Ok_0;
            &&& l.iteration == s.iteration
            &&& profile_lock::sigmas(l.locks@) == profile_lock::sigmas(s.locks@)
            &&& profile_lock::names(l.lock_labels@) == profile_lock::names(s.lock_labels@)
            &&& l.spot.tree.arena() == s.spot.tree.arena()
            &&& l.spot.hands[0]@ == s.spot.hands[0]@
            &&& l.spot.hands[1]@ == s.spot.hands[1]@
            &&& l.stored(storage)
            &&& save::arena_encoded(l.spot, l.regrets[0], 0, a)
            &&& save::arena_encoded(l.spot, l.regrets[1], 1, b)
            &&& save::arena_encoded(l.spot, l.strat[0], 0, c)
            &&& save::arena_encoded(l.spot, l.strat[1], 1, d)
        }),
{
    let (wa, wb) = (save::words_of(a), save::words_of(b));
    let (wc, wd) = (save::words_of(c), save::words_of(d));
    let all = a + b + c + d;
    let file = save::file_bytes(line, wa, wb, wc, wd);
    let body = file.skip((save::magic_bytes().len() + line.len()) as int + 1);
    assert(framing::span(8) == 0x1_0000_0000_0000_0000) by {
        reveal_with_fuel(framing::span, 9);
    }
    save::law_save_read_back(line, wa, wb, wc, wd);
    assert forall|i: int| 0 <= i < a.len() implies S::of_word_spec((#[trigger] a[i]).word_spec())
        == a[i] by {
        assert(all[i] == a[i]);
    }
    assert forall|i: int| 0 <= i < b.len() implies S::of_word_spec((#[trigger] b[i]).word_spec())
        == b[i] by {
        assert(all[a.len() + i] == b[i]);
    }
    assert forall|i: int| 0 <= i < c.len() implies S::of_word_spec((#[trigger] c[i]).word_spec())
        == c[i] by {
        assert(all[a.len() + b.len() + i] == c[i]);
    }
    assert forall|i: int| 0 <= i < d.len() implies S::of_word_spec((#[trigger] d[i]).word_spec())
        == d[i] by {
        assert(all[a.len() + b.len() + c.len() + i] == d[i]);
    }
    save::law_numbers_read_back(a);
    save::law_numbers_read_back(b);
    save::law_numbers_read_back(c);
    save::law_numbers_read_back(d);
    lemma_same_tree(s.spot, max_nodes, strictness, header.config);
    assert forall|spot: Spot<S::Wide, S>| #[trigger] save::rebuilt(spot, header.config) implies {
        &&& spot.tree.arena() == s.spot.tree.arena()
        &&& spot.hands[0]@ == s.spot.hands[0]@
        &&& spot.hands[1]@ == s.spot.hands[1]@
        &&& save::locks_fault(spot, header.locks@, 0) is None
    } by {
        assert(spot.board@ == s.spot.board@);
        assert(spot.tree.arena().nodes == s.spot.tree.arena().nodes);
        lemma_locks_fit(s, spot, header.locks@, 0);
    }
    match r {
        Ok(l) => {
            assert(save::rebuilt(l.spot, header.config));
            assert(l.spot.tree.arena().data_size == s.spot.tree.arena().data_size);
        },
        Err(LoadError::Spot { error }) => {},
        Err(e) => {
            let spot = choose|spot: Spot<S::Wide, S>| #[trigger]
                save::rebuilt(spot, header.config) && save::load_refused(spot, header, body, e);
            assert(spot.tree.arena().data_size == s.spot.tree.arena().data_size);
        },
    }
}

} // verus!
