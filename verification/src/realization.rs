//! How much of its raw equity share each starting hand class converts at a
//! solved root.

use crate::cfr::Solver;
use crate::classes;
use crate::classes::{class_label, class_of, NUM_CLASSES};
use crate::inspect::{HandView, NodeView};
use crate::num;
use crate::num::{larger, Num, Single};
use crate::path;
use crate::path::{PathStep, QueryError, Step};
use vstd::prelude::*;

verus! {

/// One 169-class observation at a solved flop root. r_obs = EV / (pot x EQ):
/// how much of its raw equity share the class actually converts under solved
/// postflop play (1.0 = exactly its share).
#[derive(Debug, Clone)]
pub struct RealizationObs<W> {
    pub board: String,
    /// 0 = OOP, 1 = IP.
    pub player: u8,
    /// Postflop acting order: OOP -0.5, IP +0.5.
    pub pos_frac: W,
    /// Effective stack / pot at the flop root.
    pub spr: W,
    pub n_players: u8,
    /// 169-class index, plus its label.
    pub class: usize,
    pub label: String,
    pub reach: W,
    pub eq: W,
    pub ev: W,
    pub r_obs: W,
}

/// What the hands of a class sum up to: reach, pair mass, and pair mass times
/// equity and value.
pub struct ClassSums<W> {
    pub w: W,
    pub wv: W,
    pub se: W,
    pub sv: W,
}

/// The sums of class `k` over the first `n` hands. Equity and value means
/// weight by reach x valid; the reach stays plain.
pub open spec fn class_sums<S: Single>(hands: Seq<HandView<S>>, k: int, n: int) -> ClassSums<
    S::Wide,
>
    decreases n,
{
    let zero = S::Wide::decimal_spec(0, 0);
    if n <= 0 {
        ClassSums { w: zero, wv: zero, se: zero, sv: zero }
    } else {
        let before = class_sums(hands, k, n - 1);
        let h = hands[n - 1];
        if h.eq is Some && h.ev is Some && classes::class_of_cards(h.c1 as int, h.c2 as int)
            == k {
            let pw = h.reach.widened_spec().times_spec(h.valid.widened_spec());
            ClassSums {
                w: before.w.plus_spec(h.reach.widened_spec()),
                wv: before.wv.plus_spec(pw),
                se: before.se.plus_spec(pw.times_spec(h.eq->Some_0.widened_spec())),
                sv: before.sv.plus_spec(pw.times_spec(h.ev->Some_0.widened_spec())),
            }
        } else {
            before
        }
    }
}

/// The largest reach among the first `k` classes.
pub open spec fn busiest<S: Single>(hands: Seq<HandView<S>>, k: int) -> S::Wide
    decreases k,
{
    if k <= 0 {
        S::Wide::decimal_spec(0, 0)
    } else {
        num::larger_of(
            busiest(hands, k - 1),
            class_sums(hands, k - 1, hands.len() as int).w,
        )
    }
}

/// Whether a class is worth reporting: it has reach, not under 1% of the
/// busiest class, it meets reach, and its equity is not under 2%.
pub open spec fn reported<W: Num>(s: ClassSums<W>, top: W) -> bool {
    let zero = W::decimal_spec(0, 0);
    &&& !s.w.at_most_spec(zero)
    &&& !s.w.below_spec(top.times_spec(W::decimal_spec(1, 2)))
    &&& !s.wv.at_most_spec(zero)
    &&& !s.se.over_spec(s.wv).below_spec(W::decimal_spec(2, 2))
}

/// The classes among the first `k` that are reported.
pub open spec fn reported_classes<S: Single>(hands: Seq<HandView<S>>, k: int) -> Seq<int>
    decreases k,
{
    if k <= 0 {
        Seq::empty()
    } else if reported(
        class_sums(hands, k - 1, hands.len() as int),
        busiest(hands, NUM_CLASSES as int),
    ) {
        reported_classes(hands, k - 1).push(k - 1)
    } else {
        reported_classes(hands, k - 1)
    }
}

/// What stays the same in all observations of a spot.
pub struct Setup<W> {
    pub board: Seq<char>,
    pub pot: W,
    pub spr: W,
}

/// The observation of one class.
pub open spec fn observed<S: Single>(
    setup: Setup<S::Wide>,
    player: int,
    hands: Seq<HandView<S>>,
    k: int,
    o: RealizationObs<S::Wide>,
) -> bool {
    let s = class_sums(hands, k, hands.len() as int);
    &&& o.board@ == setup.board
    &&& o.player == player
    &&& o.pos_frac == S::Wide::decimal_spec(
        if player == 0 {
            (-5) as i64
        } else {
            5
        },
        1,
    )
    &&& o.spr == setup.spr
    &&& o.n_players == 2
    &&& o.class == k
    &&& o.label@ == classes::class_text(k)
    &&& o.reach == s.w
    &&& o.eq == s.se.over_spec(s.wv)
    &&& o.ev == s.sv.over_spec(s.wv)
    &&& o.r_obs == o.ev.over_spec(setup.pot.times_spec(o.eq))
}

/// The observations of one player's classes, from `from` on.
pub open spec fn observed_all<S: Single>(
    setup: Setup<S::Wide>,
    player: int,
    hands: Seq<HandView<S>>,
    k: int,
    obs: Seq<RealizationObs<S::Wide>>,
    from: int,
) -> bool {
    let list = reported_classes(hands, k);
    &&& obs.len() == from + list.len()
    &&& forall|i: int|
        from <= i < obs.len() ==> observed(setup, player, hands, list[i - from], #[trigger] obs[i])
}

/// The pot, the stack behind it and the board of a spot.
pub open spec fn setup_of<S: Single>(s: Solver<S>) -> Setup<S::Wide> {
    let tc = s.spot.tree.config;
    Setup {
        board: s.spot.config.board@,
        pot: tc.starting_pot,
        spr: tc.effective_stack.over_spec(
            num::larger_of(S::Wide::decimal_spec(1, 9), tc.starting_pot),
        ),
    }
}

/// What a root view says about realization.
pub open spec fn realization_shown<S: Single>(
    setup: Setup<S::Wide>,
    view: NodeView<S>,
    obs: Seq<RealizationObs<S::Wide>>,
) -> bool {
    let oop = view.players[0].hands@;
    let ip = view.players[1].hands@;
    let n = reported_classes(oop, NUM_CLASSES as int).len() as int;
    &&& n <= obs.len()
    &&& observed_all(setup, 0, oop, NUM_CLASSES as int, obs.take(n), 0)
    &&& observed_all(setup, 1, ip, NUM_CLASSES as int, obs, n)
}

/// The hands of a view are real.
pub open spec fn view_real<S>(hands: Seq<HandView<S>>) -> bool {
    forall|i: int| 0 <= i < hands.len() ==> (#[trigger] hands[i]).c1 < 52 && hands[i].c2 < 52
}

fn sum_class<S: Single>(hands: &Vec<HandView<S>>, k: usize) -> (r: ClassSums<S::Wide>)
    requires
        view_real(hands@),
    ensures
        r == class_sums(hands@, k as int, hands@.len() as int),
{
    let zero = S::Wide::decimal(0, 0);
    let mut w = zero;
    let mut wv = zero;
    let mut se = zero;
    let mut sv = zero;
    let mut i: usize = 0;
    while i < hands.len()
        invariant
            i <= hands@.len(),
            view_real(hands@),
            (ClassSums { w, wv, se, sv }) == class_sums(hands@, k as int, i as int),
        decreases hands@.len() - i,
    {
        let h = &hands[i];
        match (h.eq, h.ev) {
            (Some(eq), Some(ev)) => {
                if class_of(h.c1, h.c2) == k {
                    let pw = h.reach.widened().times(h.valid.widened());
                    w = w.plus(h.reach.widened());
                    wv = wv.plus(pw);
                    se = se.plus(pw.times(eq.widened()));
                    sv = sv.plus(pw.times(ev.widened()));
                }
            },
            _ => {},
        }
        i = i + 1;
    }
    ClassSums { w, wv, se, sv }
}

fn observe_player<S: Single>(
    hands: &Vec<HandView<S>>,
    player: u8,
    board: &String,
    pot: S::Wide,
    spr: S::Wide,
    out: &mut Vec<RealizationObs<S::Wide>>,
)
    requires
        player < 2,
        view_real(hands@),
    ensures
        final(out)@.take(old(out)@.len() as int) == old(out)@,
        observed_all(
            (Setup { board: board@, pot, spr }),
            player as int,
            hands@,
            NUM_CLASSES as int,
            final(out)@,
            old(out)@.len() as int,
        ),
{
    let ghost setup = Setup { board: board@, pot, spr };
    let ghost start = out@;
    let mut sums: Vec<ClassSums<S::Wide>> = Vec::new();
    let mut top = S::Wide::decimal(0, 0);
    let mut k: usize = 0;
    while k < NUM_CLASSES
        invariant
            k <= NUM_CLASSES,
            view_real(hands@),
            sums@.len() == k,
            top == busiest(hands@, k as int),
            forall|x: int|
                0 <= x < k ==> #[trigger] sums@[x] == class_sums(hands@, x, hands@.len() as int),
        decreases NUM_CLASSES - k,
    {
        let s = sum_class(hands, k);
        top = larger(top, s.w);
        sums.push(s);
        k = k + 1;
    }
    let zero = S::Wide::decimal(0, 0);
    let share = top.times(S::Wide::decimal(1, 2));
    let least = S::Wide::decimal(2, 2);
    let mut c: usize = 0;
    assert(out@.take(start.len() as int) =~= start);
    while c < NUM_CLASSES
        invariant
            c <= NUM_CLASSES == sums@.len(),
            player < 2,
            setup == (Setup { board: board@, pot, spr }),
            top == busiest(hands@, NUM_CLASSES as int),
            share == top.times_spec(S::Wide::decimal_spec(1, 2)),
            least == S::Wide::decimal_spec(2, 2),
            zero == S::Wide::decimal_spec(0, 0),
            forall|x: int|
                0 <= x < NUM_CLASSES ==> #[trigger] sums@[x] == class_sums(
                    hands@,
                    x,
                    hands@.len() as int,
                ),
            out@.len() >= start.len(),
            out@.take(start.len() as int) == start,
            observed_all(setup, player as int, hands@, c as int, out@, start.len() as int),
        decreases NUM_CLASSES - c,
    {
        let s = &sums[c];
        let eq = s.se.over(s.wv);
        if !s.w.at_most(zero) && !s.w.below(share) && !s.wv.at_most(zero) && !eq.below(least) {
            let ghost before = out@;
            let ev = s.sv.over(s.wv);
            let units: i64 = if player == 0 {
                -5
            } else {
                5
            };
            out.push(
                RealizationObs {
                    board: board.clone(),
                    player,
                    pos_frac: S::Wide::decimal(units, 1),
                    spr,
                    n_players: 2,
                    class: c,
                    label: class_label(c),
                    reach: s.w,
                    eq,
                    ev,
                    r_obs: ev.over(pot.times(eq)),
                },
            );
            assert(out@.take(start.len() as int) =~= before.take(start.len() as int));
            assert forall|i: int| start.len() <= i < out@.len() implies observed(
                setup,
                player as int,
                hands@,
                reported_classes(hands@, c + 1)[i - start.len()],
                #[trigger] out@[i],
            ) by {
                if i < before.len() {
                    assert(observed(
                        setup,
                        player as int,
                        hands@,
                        reported_classes(hands@, c as int)[i - start.len()],
                        before[i],
                    ));
                }
            }
        }
        c = c + 1;
    }
}

impl<S: Single> Solver<S> {
    /// Reach-weighted per-class realization observations at the root.
    /// Classes with reach under 1% of the busiest class are dropped
    /// (noise), as are classes with negligible equity (r_obs explodes).
    pub fn realization_observations(&self) -> (r: Result<
        Vec<RealizationObs<S::Wide>>,
        QueryError,
    >)
        requires
            self.wf(),
        ensures
            r is Ok,
            exists|view: NodeView<S>|
                #![auto]
                self.node_shown(Seq::empty(), view) && realization_shown(
                    setup_of(*self),
                    view,
                    r->Ok_0@,
                ),
    {
        let none: Vec<PathStep> = Vec::new();
        assert(path::steps(none@) =~= Seq::<Step>::empty());
        let view = match self.node_view(none.as_slice()) {
            Ok(view) => view,
            Err(e) => {
                assert(false);
                return Err(e);
            },
        };
        proof {
            self.lemma_hands(0);
            self.lemma_hands(1);
            let at = self.walked(Seq::<Step>::empty())->Ok_0;
            assert forall|i: int| 0 <= i < view.players[0].hands@.len() implies (
            #[trigger] view.players[0].hands@[i]).c1 < 52 && view.players[0].hands@[i].c2 < 52 by {
                assert(self.hand_shown(at, 0, i, view.players[0].hands@[i]));
            }
            assert forall|i: int| 0 <= i < view.players[1].hands@.len() implies (
            #[trigger] view.players[1].hands@[i]).c1 < 52 && view.players[1].hands@[i].c2 < 52 by {
                assert(self.hand_shown(at, 1, i, view.players[1].hands@[i]));
            }
        }
        let tc = &self.spot.tree.config;
        let pot = tc.starting_pot;
        let spr = tc.effective_stack.over(larger(S::Wide::decimal(1, 9), pot));
        let mut out: Vec<RealizationObs<S::Wide>> = Vec::new();
        observe_player(
            &view.players[0].hands,
            0,
            &self.spot.config.board,
            pot,
            spr,
            &mut out,
        );
        let ghost first = out@;
        observe_player(
            &view.players[1].hands,
            1,
            &self.spot.config.board,
            pot,
            spr,
            &mut out,
        );
        assert(realization_shown(setup_of(*self), view, out@));
        Ok(out)
    }
}

} // verus!
