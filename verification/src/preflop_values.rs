//! What preflop play is worth: terminal values, the equity model behind
//! them, and folding the values of actions into one.

use crate::classes;
use crate::classes::{class_prob, NUM_CLASSES};
use crate::num;
use crate::num::{smaller, total, Num, Single};
use crate::preflop::PreflopConfig;
use crate::preflop_tree::{Knot, PNode, KIND_FOLD_WIN, KIND_POT_SHARE};
use crate::seats;
use crate::seats::is_seated;
use crate::strategy;
use crate::strategy::filled;
use vstd::prelude::*;

verus! {

/// How often each class beats each other class, ties counted half.
pub struct EquityTable<S> {
    pub cells: Vec<S>,
}

/// The products of a class's equities with a distribution over classes.
pub open spec fn equity_terms<S: Num>(cells: Seq<S>, h: int, dist: Seq<S>) -> Seq<S> {
    Seq::new(169, |o: int| cells[h * 169 + o].times_spec(dist[o]))
}

/// A class's equity against a distribution over classes.
pub open spec fn equity_against<S: Num>(cells: Seq<S>, h: int, dist: Seq<S>) -> S {
    num::total_of(equity_terms(cells, h, dist))
}

impl<S: Num> EquityTable<S> {
    pub open spec fn wf(&self) -> bool {
        self.cells@.len() == 169 * 169
    }

    /// The table with the given cells, one row of opponents per class.
    pub fn from_cells(cells: Vec<S>) -> (r: Option<EquityTable<S>>)
        ensures
            r is Some <==> cells@.len() == 169 * 169,
            r is Some ==> r->0.cells == cells && r->0.wf(),
    {
        if cells.len() == 169 * 169 {
            Some(EquityTable { cells })
        } else {
            None
        }
    }

    /// [`equity_against`], computed.
    pub fn eq_vs_dist(&self, h: usize, dist: &Vec<S>) -> (r: S)
        requires
            self.wf(),
            h < NUM_CLASSES,
            dist@.len() == NUM_CLASSES,
        ensures
            r == equity_against(self.cells@, h as int, dist@),
    {
        let ghost terms = equity_terms(self.cells@, h as int, dist@);
        let row: usize = h * 169;
        let mut acc = S::decimal(0, 0);
        let mut o: usize = 0;
        assert(terms.take(0) =~= Seq::<S>::empty());
        while o < NUM_CLASSES
            invariant
                o <= 169,
                self.wf(),
                h < 169,
                row == h * 169,
                dist@.len() == 169,
                terms == equity_terms(self.cells@, h as int, dist@),
                acc == num::total_of(terms.take(o as int)),
            decreases 169 - o,
        {
            assert(terms.take(o + 1).drop_last() =~= terms.take(o as int));
            acc = acc.plus(self.cells[row + o].times(dist[o]));
            o = o + 1;
        }
        assert(terms.take(169) =~= terms);
        acc
    }
}

/// Whether every seat has a weight for every class.
pub open spec fn ranged<S>(reaches: Seq<Seq<S>>, n: int) -> bool {
    reaches.len() == n && forall|q: int| 0 <= q < n ==> (#[trigger] reaches[q]).len() == 169
}

// ---------------------------------------------------------------------------
// Terminal values
// ---------------------------------------------------------------------------

/// How likely the seats of the first `k` other than `p` are to get here.
pub open spec fn mass<S: Single>(reaches: Seq<Seq<S>>, p: int, k: int) -> S::Wide
    decreases k,
{
    if k <= 0 {
        S::Wide::decimal_spec(1, 0)
    } else if k - 1 == p {
        mass(reaches, p, k - 1)
    } else {
        mass(reaches, p, k - 1).times_spec(num::total_of(reaches[k - 1]).widened_spec())
    }
}

/// The rake on a pot. A cap of zero is no cap.
pub open spec fn rake_on<W: Num>(cfg: PreflopConfig<W>, pot: W) -> W {
    let due = pot.times_spec(cfg.rake_pct).over_spec(W::decimal_spec(100, 0));
    if W::decimal_spec(0, 0).below_spec(cfg.rake_cap) {
        num::smaller_of(due, cfg.rake_cap)
    } else {
        due
    }
}

fn rake<W: Num>(cfg: &PreflopConfig<W>, pot: W) -> (r: W)
    ensures
        r == rake_on(*cfg, pot),
{
    let due = pot.times(cfg.rake_pct).over(W::decimal(100, 0));
    if W::decimal(0, 0).below(cfg.rake_cap) {
        smaller(due, cfg.rake_cap)
    } else {
        due
    }
}

/// A range as a distribution.
pub open spec fn spread<S: Num>(reach: Seq<S>) -> Seq<S> {
    Seq::new(reach.len(), |h: int| reach[h].over_spec(num::total_of(reach)))
}

/// The distributions of the live seats of the first `k` other than `p`.
pub open spec fn rivals<S: Num>(live: u32, reaches: Seq<Seq<S>>, p: int, k: int) -> Seq<Seq<S>>
    decreases k,
{
    if k <= 0 {
        Seq::empty()
    } else {
        let before = rivals(live, reaches, p, k - 1);
        if k - 1 != p && seats::seated(live, k - 1) && S::decimal_spec(0, 0).below_spec(
            num::total_of(reaches[k - 1]),
        ) {
            before.push(spread(reaches[k - 1]))
        } else {
            before
        }
    }
}

/// A class's chance to beat all of the first `k` distributions.
pub open spec fn beats<S: Single>(cells: Seq<S>, h: int, dists: Seq<Seq<S>>, k: int) -> S::Wide
    decreases k,
{
    if k <= 0 {
        S::Wide::decimal_spec(1, 0)
    } else {
        beats(cells, h, dists, k - 1).times_spec(
            equity_against(cells, h, dists[k - 1]).widened_spec(),
        )
    }
}

/// The rake on a pot that all seats but one have left.
pub open spec fn cut_before_flop<W: Num>(cfg: PreflopConfig<W>, pot: W) -> W {
    if cfg.no_flop_no_drop {
        W::decimal_spec(0, 0)
    } else {
        rake_on(cfg, pot)
    }
}

/// What seat `p` wins or loses where all seats but one have folded.
pub open spec fn left_with<S: Single>(
    cfg: PreflopConfig<S::Wide>,
    nd: Knot<S>,
    p: int,
) -> S::Wide {
    if nd.winner == p {
        nd.pot.minus_spec(cut_before_flop(cfg, nd.pot)).minus_spec(nd.invested[p])
    } else {
        nd.invested[p].negated_spec()
    }
}

/// What seat `p` wins or loses where the betting has ended, by its class,
/// times how likely the others are to get there.
pub open spec fn settled<S: Single>(
    cfg: PreflopConfig<S::Wide>,
    cells: Seq<S>,
    nd: Knot<S>,
    p: int,
    reaches: Seq<Seq<S>>,
) -> Seq<S> {
    let zero = S::Wide::decimal_spec(0, 0);
    let prob = mass(reaches, p, reaches.len() as int);
    let put_in = nd.invested[p];
    if prob.at_most_spec(zero) {
        strategy::level(169, S::decimal_spec(0, 0))
    } else if nd.kind == KIND_FOLD_WIN {
        strategy::level(169, S::narrowed_spec(prob.times_spec(left_with(cfg, nd, p))))
    } else if !seats::seated(nd.live, p) {
        strategy::level(169, S::narrowed_spec(prob.times_spec(put_in.negated_spec())))
    } else {
        let pot = nd.pot.minus_spec(rake_on(cfg, nd.pot));
        let dists = rivals(nd.live, reaches, p, reaches.len() as int);
        Seq::new(
            169,
            |h: int|
                S::narrowed_spec(
                    prob.times_spec(
                        num::smaller_of(
                            pot.times_spec(beats(cells, h, dists, dists.len() as int)).times_spec(
                                nd.r[p].widened_spec(),
                            ),
                            pot,
                        ).minus_spec(put_in),
                    ),
                ),
        )
    }
}

fn reach_mass<S: Single>(reaches: &Vec<Vec<S>>, p: usize) -> (r: S::Wide)
    ensures
        r == mass(strategy::lines(reaches@), p as int, reaches@.len() as int),
{
    let mut prob = S::Wide::decimal(1, 0);
    let mut q: usize = 0;
    while q < reaches.len()
        invariant
            q <= reaches@.len(),
            prob == mass(strategy::lines(reaches@), p as int, q as int),
        decreases reaches@.len() - q,
    {
        if q != p {
            prob = prob.times(total(reaches[q].as_slice()).widened());
        }
        q = q + 1;
    }
    prob
}

fn spread_of<S: Num>(reach: &Vec<S>, sum: S) -> (r: Vec<S>)
    requires
        sum == num::total_of(reach@),
    ensures
        r@ == spread(reach@),
{
    let mut out: Vec<S> = Vec::new();
    let mut h: usize = 0;
    while h < reach.len()
        invariant
            h <= reach@.len(),
            sum == num::total_of(reach@),
            out@ == spread(reach@).take(h as int),
        decreases reach@.len() - h,
    {
        out.push(reach[h].over(sum));
        assert(out@ =~= spread(reach@).take(h + 1));
        h = h + 1;
    }
    assert(out@ =~= spread(reach@));
    out
}

fn rivals_of<S: Single>(live: u32, reaches: &Vec<Vec<S>>, p: usize) -> (r: Vec<Vec<S>>)
    requires
        ranged(strategy::lines(reaches@), reaches@.len() as int),
        reaches@.len() <= 9,
    ensures
        strategy::lines(r@) == rivals(live, strategy::lines(reaches@), p as int, reaches@.len() as int),
        forall|i: int| 0 <= i < r@.len() ==> (#[trigger] r@[i])@.len() == 169,
{
    let mut out: Vec<Vec<S>> = Vec::new();
    let mut q: usize = 0;
    assert(strategy::lines(out@) =~= rivals(live, strategy::lines(reaches@), p as int, 0));
    while q < reaches.len()
        invariant
            q <= reaches@.len() <= 9,
            ranged(strategy::lines(reaches@), reaches@.len() as int),
            strategy::lines(out@) == rivals(live, strategy::lines(reaches@), p as int, q as int),
            forall|i: int| 0 <= i < out@.len() ==> (#[trigger] out@[i])@.len() == 169,
        decreases reaches@.len() - q,
    {
        assert(strategy::lines(reaches@)[q as int] == reaches@[q as int]@);
        if q != p && is_seated(live, q) {
            let sum = total(reaches[q].as_slice());
            if S::decimal(0, 0).below(sum) {
                let ghost was = strategy::lines(out@);
                let dist = spread_of(&reaches[q], sum);
                out.push(dist);
                assert(strategy::lines(out@) =~= was.push(dist@));
            }
        }
        q = q + 1;
    }
    out
}

/// [`settled`], computed.
pub fn terminal_value<S: Single>(
    cfg: &PreflopConfig<S::Wide>,
    eq: &EquityTable<S>,
    node: &PNode<S>,
    p: usize,
    reaches: &Vec<Vec<S>>,
) -> (r: Vec<S>)
    requires
        eq.wf(),
        2 <= reaches@.len() <= 9,
        p < reaches@.len(),
        ranged(strategy::lines(reaches@), reaches@.len() as int),
        node.invested@.len() == reaches@.len(),
        node.kind == KIND_FOLD_WIN || node.kind == KIND_POT_SHARE && node.r@.len()
            == reaches@.len(),
    ensures
        r@ == settled(*cfg, eq.cells@, node@, p as int, strategy::lines(reaches@)),
        r@.len() == 169,
{
    let zero = S::Wide::decimal(0, 0);
    let prob = reach_mass(reaches, p);
    if prob.at_most(zero) {
        return filled(NUM_CLASSES, S::decimal(0, 0));
    }
    let put_in = node.invested[p];
    if node.kind == KIND_FOLD_WIN {
        let cut = if cfg.no_flop_no_drop {
            zero
        } else {
            rake(cfg, node.pot)
        };
        let delta = if node.winner as usize == p {
            node.pot.minus(cut).minus(put_in)
        } else {
            put_in.negated()
        };
        return filled(NUM_CLASSES, S::narrowed(prob.times(delta)));
    }
    if !is_seated(node.live, p) {
        return filled(NUM_CLASSES, S::narrowed(prob.times(put_in.negated())));
    }
    let pot = node.pot.minus(rake(cfg, node.pot));
    let dists = rivals_of(node.live, reaches, p);
    let rp = node.r[p].widened();
    let ghost want = settled(*cfg, eq.cells@, node@, p as int, strategy::lines(reaches@));
    let ghost rows = rivals(node.live, strategy::lines(reaches@), p as int, reaches@.len() as int);
    let mut out: Vec<S> = Vec::new();
    let mut h: usize = 0;
    while h < NUM_CLASSES
        invariant
            h <= 169,
            eq.wf(),
            rows == strategy::lines(dists@),
            forall|i: int| 0 <= i < dists@.len() ==> (#[trigger] dists@[i])@.len() == 169,
            want == Seq::new(
                169,
                |x: int|
                    S::narrowed_spec(
                        prob.times_spec(
                            num::smaller_of(
                                pot.times_spec(
                                    beats(eq.cells@, x, rows, rows.len() as int),
                                ).times_spec(rp),
                                pot,
                            ).minus_spec(put_in),
                        ),
                    ),
            ),
            out@ == want.take(h as int),
        decreases 169 - h,
    {
        let mut chance = S::Wide::decimal(1, 0);
        let mut k: usize = 0;
        while k < dists.len()
            invariant
                k <= dists@.len(),
                h < 169,
                eq.wf(),
                rows == strategy::lines(dists@),
                forall|i: int| 0 <= i < dists@.len() ==> (#[trigger] dists@[i])@.len() == 169,
                chance == beats(eq.cells@, h as int, rows, k as int),
            decreases dists@.len() - k,
        {
            assert(rows[k as int] == dists@[k as int]@);
            chance = chance.times(eq.eq_vs_dist(h, &dists[k]).widened());
            k = k + 1;
        }
        let share = smaller(pot.times(chance).times(rp), pot);
        out.push(S::narrowed(prob.times(share.minus(put_in))));
        assert(out@ =~= want.take(h + 1));
        h = h + 1;
    }
    assert(out@ =~= want);
    out
}

/// Every hand, as likely as it is dealt.
pub open spec fn whole_range<S: Num>() -> Seq<S> {
    Seq::new(169, |h: int| classes::class_chance::<S>(h))
}

/// [`whole_range`], computed.
pub fn full_range<S: Num>() -> (r: Vec<S>)
    ensures
        r@ == whole_range::<S>(),
        r@.len() == 169,
{
    let mut out: Vec<S> = Vec::new();
    let mut h: usize = 0;
    while h < NUM_CLASSES
        invariant
            h <= 169,
            out@ == whole_range::<S>().take(h as int),
        decreases 169 - h,
    {
        out.push(class_prob(h));
        assert(out@ =~= whole_range::<S>().take(h + 1));
        h = h + 1;
    }
    assert(out@ =~= whole_range::<S>());
    out
}

} // verus!
