//! Equities, in exact numbers: the share of what a hand meets over all runouts
//! that it beats, and half of what it ties with.

use crate::cards::Card;
use crate::cfr;
use crate::cfr::Solver;
use crate::game;
use crate::nano;
use crate::nano::{Nano, BILLION};
use crate::num::Num;
use crate::play_laws;
use crate::removal_laws;
use crate::terminal;
use crate::values;
use crate::weigh_laws;
use crate::weigh_laws::size;
use vstd::prelude::*;

verus! {

/// Whether the `k`-th runout can come once some cards have been dealt.
pub open spec fn open_runout(s: Solver<Nano>, dealt: Seq<Card>, k: int) -> bool {
    let root = s.spot.tree.root_street;
    &&& game::runout_comes(root, s.spot.board_mask, k)
    &&& forall|i: int|
        0 <= i < dealt.len() ==> game::runout_at(root, k).contains(#[trigger] dealt[i])
}

/// The reach in play on the `k`-th runout that hand `i` faces and that stands to
/// it as asked; none where the runout takes a card of the hand.
pub open spec fn faces(
    s: Solver<Nano>,
    p: int,
    reach: Seq<Nano>,
    k: int,
    i: int,
    asked: spec_fn(u32, u32) -> bool,
) -> int {
    let cs = game::runout_at(s.spot.tree.root_street, k);
    let own = removal_laws::strong(s.spot.hands[p]@, s.spot.board@, cs, i);
    if removal_laws::in_play(s.spot.hands[p]@, cs, i) {
        removal_laws::rivals(s, p, reach, cs, i, |x: u32| asked(own, x))
    } else {
        0
    }
}

/// What hand `i` faces over the first `n` runouts that can come.
pub open spec fn faces_over(
    s: Solver<Nano>,
    p: int,
    reach: Seq<Nano>,
    dealt: Seq<Card>,
    n: int,
    i: int,
    asked: spec_fn(u32, u32) -> bool,
) -> int
    decreases n,
{
    if n <= 0 {
        0
    } else {
        faces_over(s, p, reach, dealt, n - 1, i, asked) + if open_runout(s, dealt, n - 1) {
            faces(s, p, reach, n - 1, i, asked)
        } else {
            0
        }
    }
}

/// The opponent's hand is weaker.
pub open spec fn beats() -> spec_fn(u32, u32) -> bool {
    |own: u32, x: u32| x < own
}

/// The opponent's hand is as strong.
pub open spec fn draws() -> spec_fn(u32, u32) -> bool {
    |own: u32, x: u32| x == own
}

pub open spec fn anything() -> spec_fn(u32, u32) -> bool {
    |own: u32, x: u32| true
}

proof fn lemma_three_parts(
    reach: Seq<Nano>,
    n: int,
    a: spec_fn(int) -> bool,
    b: spec_fn(int) -> bool,
    c: spec_fn(int) -> bool,
    all: spec_fn(int) -> bool,
)
    requires
        forall|j: int|
            0 <= j < n ==> (#[trigger] all(j)) == (a(j) || b(j) || c(j)) && !(a(j) && b(j)) && !(a(
                j,
            ) && c(j)) && !(b(j) && c(j)),
    ensures
        removal_laws::reach_where(reach, n, all) == removal_laws::reach_where(reach, n, a)
            + removal_laws::reach_where(reach, n, b) + removal_laws::reach_where(reach, n, c),
    decreases n,
{
    if n > 0 {
        lemma_three_parts(reach, n - 1, a, b, c, all);
        assert(all(n - 1) == (a(n - 1) || b(n - 1) || c(n - 1)));
    }
}

/// Adding up a duel adds to a hand what stands at its place in the list.
proof fn lemma_summed(
    d: terminal::Duel<Nano>,
    sums: (Seq<Nano>, Seq<Nano>, Seq<Nano>),
    k: int,
    i: int,
    m: int,
)
    requires
        0 <= k <= d.mine.len(),
        0 <= i < sums.0.len() == sums.1.len() == sums.2.len(),
        forall|x: int|
            0 <= x < d.mine.len() ==> ((#[trigger] d.mine[x]).1 == i <==> x == m) && d.mine[x].1
                < sums.0.len(),
    ensures
        ({
            let (win, tie, valid) = d.summed(sums, k);
            let all = d.met(m).plus_spec(d.twin(m));
            &&& win.len() == sums.0.len()
            &&& tie.len() == sums.0.len()
            &&& valid.len() == sums.0.len()
            &&& k <= m < d.mine.len() ==> {
                &&& win[i] == sums.0[i].plus_spec(d.beaten(m))
                &&& tie[i] == sums.1[i].plus_spec(
                    all.minus_spec(d.beaten(m)).minus_spec(d.beating(m)),
                )
                &&& valid[i] == sums.2[i].plus_spec(all)
            }
            &&& !(k <= m < d.mine.len()) ==> win[i] == sums.0[i] && tie[i] == sums.1[i] && valid[i]
                == sums.2[i]
        }),
    decreases d.mine.len() - k,
{
    if k < d.mine.len() {
        lemma_summed(d, sums, k + 1, i, m);
        assert(d.mine[k].1 == i <==> k == m);
    }
}

/// A runout that can come runs a spot's board out.
proof fn lemma_runs_out(s: Solver<Nano>, k: int)
    requires
        s.wf(),
        0 <= k < s.spot.river.slots().len(),
        game::runout_comes(s.spot.tree.root_street, s.spot.board_mask, k),
    ensures
        removal_laws::runs_out(s, game::runout_at(s.spot.tree.root_street, k)),
        cfr::river_key(
            s.spot.tree.root_street,
            game::runout_at(s.spot.tree.root_street, k),
        ) == k,
        s.spot.river.slots()[k] is Some,
        s.strengths(game::runout_at(s.spot.tree.root_street, k))
            == s.spot.river.slots()[k]->Some_0,
{
    assert(s.spot.river.street() == s.spot.tree.root_street);
}

/// What one runout adds to the sums of hand `i`.
proof fn lemma_one_runout(
    s: Solver<Nano>,
    p: int,
    reach: Seq<Nano>,
    k: int,
    i: int,
    sums: (Seq<Nano>, Seq<Nano>, Seq<Nano>),
)
    requires
        s.wf(),
        0 <= p < 2,
        reach.len() == s.nh(1 - p),
        removal_laws::summable(reach),
        0 <= k < s.spot.river.slots().len(),
        game::runout_comes(s.spot.tree.root_street, s.spot.board_mask, k),
        0 <= i < s.nh(p),
        sums.0.len() == s.nh(p),
        sums.1.len() == s.nh(p),
        sums.2.len() == s.nh(p),
        0 <= sums.0[i].count,
        0 <= sums.1[i].count,
        0 <= sums.2[i].count,
        sums.0[i].count + play_laws::counted(reach) <= i64::MAX,
        sums.1[i].count + play_laws::counted(reach) <= i64::MAX,
        sums.2[i].count + play_laws::counted(reach) <= i64::MAX,
    ensures
        ({
            let cs = game::runout_at(s.spot.tree.root_street, k);
            let (win, tie, valid) = s.face_off(p, reach, cs).summed(sums, 0);
            let all = faces(s, p, reach, k, i, anything());
            &&& win.len() == s.nh(p) && tie.len() == s.nh(p) && valid.len() == s.nh(p)
            &&& win[i].count == sums.0[i].count + faces(s, p, reach, k, i, beats())
            &&& tie[i].count == sums.1[i].count + faces(s, p, reach, k, i, draws())
            &&& valid[i].count == sums.2[i].count + all
            &&& 0 <= faces(s, p, reach, k, i, beats()) <= all
            &&& 0 <= faces(s, p, reach, k, i, draws()) <= all
            &&& faces(s, p, reach, k, i, beats()) + faces(s, p, reach, k, i, draws()) <= all
            &&& all <= play_laws::counted(reach)
        }),
{
    let cs = game::runout_at(s.spot.tree.root_street, k);
    lemma_runs_out(s, k);
    let d = s.face_off(p, reach, cs);
    let mine = s.spot.hands[p]@;
    let hands = s.spot.hands[1 - p]@;
    let board = s.spot.board@;
    let n = s.nh(1 - p);
    removal_laws::lemma_entries(s, p, reach, cs);
    assert(removal_laws::runout(s, cs) == cs);
    play_laws::lemma_taken_bound(reach, n);
    assert(reach.take(n) =~= reach);
    if removal_laws::in_play(mine, cs, i) {
        let e = removal_laws::entry_of(mine, board, cs, i);
        assert(d.mine.contains(e));
        let m = choose|m: int| 0 <= m < d.mine.len() && d.mine[m] == e;
        assert(i < 65536) by {
            assert(s.nh(p) <= 1326);
        }
        assert forall|x: int| 0 <= x < d.mine.len() implies ((#[trigger] d.mine[x]).1 == i <==> x
            == m) && d.mine[x].1 < sums.0.len() by {
            if d.mine[x].1 == i {
                assert(d.mine[x] == e);
            }
        }
        lemma_summed(d, sums, 0, i, m);
        removal_laws::law_showdown_reach_is_exact(s, p, reach, cs, m);
        let own = removal_laws::strong(mine, board, cs, i);
        assert(d.mine[m].0 == own);
        let met = |j: int|
            removal_laws::in_play(hands, cs, j) && removal_laws::apart(hands[j], mine[i]);
        let of = |j: int| removal_laws::strong(hands, board, cs, j);
        let less = |j: int| met(j) && of(j) < own;
        let more = |j: int| met(j) && of(j) > own;
        let same = |j: int| met(j) && of(j) == own;
        lemma_three_parts(reach, n, less, more, same, met);
        removal_laws::lemma_where_bound(reach, n, less);
        removal_laws::lemma_where_bound(reach, n, more);
        removal_laws::lemma_where_bound(reach, n, same);
        removal_laws::lemma_where_bound(reach, n, met);
        lemma_rivals(s, p, reach, cs, i, |x: u32| x < own, less);
        lemma_rivals(s, p, reach, cs, i, |x: u32| x > own, more);
        lemma_rivals(s, p, reach, cs, i, |x: u32| true, met);
        lemma_rivals(s, p, reach, cs, i, |x: u32| beats()(own, x), less);
        lemma_rivals(s, p, reach, cs, i, |x: u32| draws()(own, x), same);
        lemma_rivals(s, p, reach, cs, i, |x: u32| anything()(own, x), met);
    } else {
        assert forall|x: int| 0 <= x < d.mine.len() implies ((#[trigger] d.mine[x]).1 == i <==> x
            == -1) && d.mine[x].1 < sums.0.len() by {}
        lemma_summed(d, sums, 0, i, -1);
    }
}

proof fn lemma_rivals(
    s: Solver<Nano>,
    p: int,
    reach: Seq<Nano>,
    cs: Seq<Card>,
    i: int,
    asked: spec_fn(u32) -> bool,
    a: spec_fn(int) -> bool,
)
    requires
        removal_laws::runout(s, cs) == cs,
        forall|j: int|
            0 <= j < s.nh(1 - p) ==> #[trigger] a(j) == (removal_laws::in_play(
                s.spot.hands[1 - p]@,
                cs,
                j,
            ) && removal_laws::apart(s.spot.hands[1 - p]@[j], s.spot.hands[p]@[i]) && asked(
                removal_laws::strong(s.spot.hands[1 - p]@, s.spot.board@, cs, j),
            )),
    ensures
        removal_laws::rivals(s, p, reach, cs, i, asked) == removal_laws::reach_where(
            reach,
            s.nh(1 - p),
            a,
        ),
{
    removal_laws::lemma_same_where(
        reach,
        s.nh(1 - p),
        a,
        |j: int|
            removal_laws::in_play(s.spot.hands[1 - p]@, cs, j) && removal_laws::apart(
                s.spot.hands[1 - p]@[j],
                s.spot.hands[p]@[i],
            ) && asked(removal_laws::strong(s.spot.hands[1 - p]@, s.spot.board@, cs, j)),
    );
}

proof fn lemma_tallied(
    s: Solver<Nano>,
    p: int,
    reach: Seq<Nano>,
    dealt: Seq<Card>,
    k: int,
    i: int,
)
    requires
        s.wf(),
        0 <= p < 2,
        reach.len() == s.nh(1 - p),
        removal_laws::summable(reach),
        0 <= k <= s.spot.river.slots().len(),
        0 <= i < s.nh(p),
        2704 * play_laws::counted(reach) <= i64::MAX,
    ensures
        ({
            let (win, tie, valid) = s.tallied(p, reach, dealt, k);
            &&& win.len() == s.nh(p) && tie.len() == s.nh(p) && valid.len() == s.nh(p)
            &&& win[i].count == faces_over(s, p, reach, dealt, k, i, beats())
            &&& tie[i].count == faces_over(s, p, reach, dealt, k, i, draws())
            &&& valid[i].count == faces_over(s, p, reach, dealt, k, i, anything())
            &&& 0 <= win[i].count && 0 <= tie[i].count
            &&& win[i].count + tie[i].count <= valid[i].count
            &&& valid[i].count <= k * play_laws::counted(reach)
        }),
    decreases k,
{
    assert(nano::ten_to(0) == 1);
    let c = play_laws::counted(reach);
    if k > 0 {
        lemma_tallied(s, p, reach, dealt, k - 1, i);
        assert(s.spot.river.street() == s.spot.tree.root_street);
        assert(s.spot.river.slots().len() <= 2704);
        play_laws::lemma_taken_bound(reach, reach.len() as int);
        assert(reach.take(reach.len() as int) =~= reach);
        assert(k * c == (k - 1) * c + c && k * c <= 2704 * c) by (nonlinear_arith)
            requires
                k <= 2704,
                0 <= c,
        ;
        let open = game::runout_comes(s.spot.tree.root_street, s.spot.board_mask, k - 1);
        assert(s.spot.river.slots()[k - 1] is Some <==> open);
        if open {
            lemma_runs_out(s, k - 1);
            let cs = game::runout_at(s.spot.tree.root_street, k - 1);
            if values::completes(cs, dealt) {
                lemma_one_runout(s, p, reach, k - 1, i, s.tallied(p, reach, dealt, k - 1));
            }
        }
    } else {
        assert(0 * c == 0);
    }
}

/// Law: a hand's equity is the share that it wins of the reach that it meets,
/// over all runouts that can still come: the reach of the weaker hands, and half
/// the reach of those as strong. There is none where no more than a billionth
/// is met. Up to rounding.
pub proof fn law_equity_counts_wins_and_half_the_ties(
    s: Solver<Nano>,
    p: int,
    reach: Seq<Nano>,
    dealt: Seq<Card>,
    i: int,
)
    requires
        s.wf(),
        0 <= p < 2,
        reach.len() == s.nh(1 - p),
        removal_laws::summable(reach),
        0 <= i < s.nh(p),
        2704 * play_laws::counted(reach) <= i64::MAX,
    ensures
        ({
            let n = s.spot.river.slots().len() as int;
            let won = faces_over(s, p, reach, dealt, n, i, beats());
            let tied = faces_over(s, p, reach, dealt, n, i, draws());
            let all = faces_over(s, p, reach, dealt, n, i, anything());
            let eq = s.equities(p, reach, dealt)[i];
            &&& eq is Some <==> all > 1
            &&& eq is Some ==> size(2 * (eq->Some_0.count * all) - BILLION * (2 * won + tied)) <= 2
                * all + BILLION
            &&& eq is Some ==> 0 <= eq->Some_0.count <= BILLION
        }),
{
    let b = BILLION as int;
    let n = s.spot.river.slots().len() as int;
    let c = play_laws::counted(reach);
    assert(s.spot.river.street() == s.spot.tree.root_street);
    lemma_tallied(s, p, reach, dealt, n, i);
    play_laws::lemma_taken_bound(reach, reach.len() as int);
    assert(reach.take(reach.len() as int) =~= reach);
    assert(n * c <= 2704 * c) by (nonlinear_arith)
        requires
            n <= 2704,
            0 <= c,
    ;
    let sums = s.tallied(p, reach, dealt, n);
    let (won, tied, all) = (sums.0[i].count as int, sums.1[i].count as int, sums.2[i].count as int);
    assert(nano::ten_to(1) == 10) by {
        reveal_with_fuel(nano::ten_to, 2);
    }
    assert(nano::ten_to(9) == 1_000_000_000) by {
        reveal_with_fuel(nano::ten_to, 10);
    }
    assert(Nano::decimal_spec(1, 9).count == 1);
    assert(Nano::decimal_spec(5, 1).count == 500_000_000);
    if all > 1 {
        let half = sums.1[i].times_spec(Nano::decimal_spec(5, 1));
        let y = tied * 500_000_000;
        assert(half.count == tied / 2) by {
            assert(y / b == tied / 2);
        }
        let w = sums.0[i].plus_spec(half);
        assert(w.count == won + tied / 2);
        let x = w.count * b;
        weigh_laws::lemma_cut_near(x, all);
        let q = nano::cut_div(x, all);
        assert(0 <= x <= all * b) by (nonlinear_arith)
            requires
                x == w.count * b,
                0 <= w.count <= all,
                0 < b,
        ;
        vstd::arithmetic::div_mod::lemma_div_pos_is_pos(x, all);
        assert(q <= b) by (nonlinear_arith)
            requires
                all * q <= all * b,
                0 < all,
        ;
        assert(all * q == q * all) by (nonlinear_arith);
    }
}

} // verus!
