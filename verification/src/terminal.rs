//! Counterfactual values where a hand ends: folds and showdowns, with card
//! removal, and the reach sums that equities are made of.

use crate::cards::Card;
use crate::game::{HandInfo, RiverBoardEval};
use crate::num::{Num, Single};
use crate::sort::Ranked;
use crate::sort;
use crate::tree::SENTINEL;
use vstd::prelude::*;

verus! {

/// Opponent reach: the sum over all hands, and for each card the sum over the
/// hands that hold it.
pub ghost struct Reach<W> {
    pub all: W,
    pub by_card: Seq<W>,
}

pub open spec fn nothing<W: Num>() -> Reach<W> {
    Reach { all: W::decimal_spec(0, 0), by_card: Seq::new(52, |c: int| W::decimal_spec(0, 0)) }
}

/// The sums with one more hand counted.
pub open spec fn counting<W: Num>(m: Reach<W>, c1: Card, c2: Card, r: W) -> Reach<W> {
    let first = m.by_card.update(c1 as int, m.by_card[c1 as int].plus_spec(r));
    Reach {
        all: m.all.plus_spec(r),
        by_card: first.update(c2 as int, first[c2 as int].plus_spec(r)),
    }
}

/// The sums over the hands with the given numbers, in that order.
pub open spec fn amassed<S: Single>(
    hands: Seq<HandInfo<S>>,
    reach: Seq<S>,
    order: Seq<int>,
) -> Reach<S::Wide>
    decreases order.len(),
{
    if order.len() == 0 {
        nothing()
    } else {
        let j = order.last();
        counting(
            amassed(hands, reach, order.drop_last()),
            hands[j].c1,
            hands[j].c2,
            reach[j].widened_spec(),
        )
    }
}

/// What is left of the sums once the hands that share a card with `h` are
/// taken out. A hand with both cards is taken out twice.
pub open spec fn unblocked<S: Single>(m: Reach<S::Wide>, h: HandInfo<S>) -> S::Wide {
    m.all.minus_spec(m.by_card[h.c1 as int]).minus_spec(m.by_card[h.c2 as int])
}

/// The hand numbers of a ranked list, in its order.
pub open spec fn numbers(list: Seq<Ranked>) -> Seq<int> {
    Seq::new(list.len(), |k: int| list[k].1 as int)
}

/// The entries of a list that are strictly weaker, in list order.
pub open spec fn weaker(list: Seq<Ranked>, strength: u32) -> Seq<Ranked> {
    list.filter(|e: Ranked| e.0 < strength)
}

/// The entries of a list that are strictly stronger, from the end of the list.
pub open spec fn stronger(list: Seq<Ranked>, strength: u32) -> Seq<Ranked> {
    list.filter(|e: Ranked| e.0 > strength).reverse()
}

/// The reach of the opponent hand with the same two cards: nothing, where the
/// opponent has no such hand.
pub open spec fn twin_reach<S: Num>(reach: Seq<S>, same: u32) -> S {
    if same == SENTINEL {
        S::decimal_spec(0, 0)
    } else {
        reach[same as int]
    }
}

/// All numbers below `n`, in order.
pub open spec fn upto(n: nat) -> Seq<int> {
    Seq::new(n, |k: int| k)
}

pub open spec fn cards_real<S>(hands: Seq<HandInfo<S>>) -> bool {
    forall|j: int| 0 <= j < hands.len() ==> (#[trigger] hands[j]).c1 < 52 && hands[j].c2 < 52
}

/// Entries of a cross index are the sentinel or below `n`.
pub open spec fn indexes_below(same: Seq<u32>, n: nat) -> bool {
    forall|i: int| 0 <= i < same.len() ==> #[trigger] same[i] == SENTINEL || same[i] < n
}

/// A ranked list that numbers hands of a list of length `n`.
pub open spec fn ranks_below(list: Seq<Ranked>, n: nat) -> bool {
    forall|k: int| 0 <= k < list.len() ==> (#[trigger] list[k]).1 < n
}

/// [`Reach`], computed.
struct Tally<W> {
    all: W,
    by_card: Vec<W>,
}

impl<W: Num> Tally<W> {
    spec fn sums(&self) -> Reach<W> {
        Reach { all: self.all, by_card: self.by_card@ }
    }

    fn new() -> (r: Self)
        ensures
            r.sums() == nothing::<W>(),
            r.by_card@.len() == 52,
    {
        let zero = W::decimal(0, 0);
        let mut by_card: Vec<W> = Vec::new();
        let mut c: usize = 0;
        while c < 52
            invariant
                c <= 52,
                zero == W::decimal_spec(0, 0),
                by_card@ == Seq::new(c as nat, |k: int| W::decimal_spec(0, 0)),
            decreases 52 - c,
        {
            by_card.push(zero);
            assert(by_card@ =~= Seq::new((c + 1) as nat, |k: int| W::decimal_spec(0, 0)));
            c = c + 1;
        }
        Tally { all: zero, by_card }
    }

    fn count(&mut self, c1: Card, c2: Card, r: W)
        requires
            c1 < 52,
            c2 < 52,
            old(self).by_card@.len() == 52,
        ensures
            final(self).sums() == counting(old(self).sums(), c1, c2, r),
            final(self).by_card@.len() == 52,
    {
        self.all = self.all.plus(r);
        let a = self.by_card[c1 as usize].plus(r);
        self.by_card.set(c1 as usize, a);
        let b = self.by_card[c2 as usize].plus(r);
        self.by_card.set(c2 as usize, b);
    }

    fn unblocked(&self, c1: Card, c2: Card) -> (r: W)
        requires
            c1 < 52,
            c2 < 52,
            self.by_card@.len() == 52,
        ensures
            r == self.all.minus_spec(self.by_card@[c1 as int]).minus_spec(self.by_card@[c2 as int]),
    {
        self.all.minus(self.by_card[c1 as usize]).minus(self.by_card[c2 as usize])
    }
}

/// The sums over a whole hand list.
fn tally_hands<S: Single>(hands: &[HandInfo<S>], reach: &[S]) -> (r: Tally<S::Wide>)
    requires
        cards_real(hands@),
        hands@.len() <= reach@.len(),
    ensures
        r.sums() == amassed(hands@, reach@, upto(hands@.len())),
        r.by_card@.len() == 52,
{
    let mut t: Tally<S::Wide> = Tally::new();
    let mut j: usize = 0;
    assert(upto(0) =~= Seq::<int>::empty());
    while j < hands.len()
        invariant
            j <= hands@.len() <= reach@.len(),
            cards_real(hands@),
            t.sums() == amassed(hands@, reach@, upto(j as nat)),
            t.by_card@.len() == 52,
        decreases hands@.len() - j,
    {
        assert(upto((j + 1) as nat).drop_last() =~= upto(j as nat));
        t.count(hands[j].c1, hands[j].c2, reach[j].widened());
        j = j + 1;
    }
    t
}

/// The sums over the hands of a ranked list.
fn tally_ranked<S: Single>(hands: &[HandInfo<S>], reach: &[S], list: &Vec<Ranked>) -> (r: Tally<
    S::Wide,
>)
    requires
        cards_real(hands@),
        hands@.len() <= reach@.len(),
        ranks_below(list@, hands@.len()),
    ensures
        r.sums() == amassed(hands@, reach@, numbers(list@)),
        r.by_card@.len() == 52,
{
    let mut t: Tally<S::Wide> = Tally::new();
    let mut k: usize = 0;
    assert(numbers(list@.take(0)) =~= Seq::<int>::empty());
    while k < list.len()
        invariant
            k <= list@.len(),
            hands@.len() <= reach@.len(),
            cards_real(hands@),
            ranks_below(list@, hands@.len()),
            t.sums() == amassed(hands@, reach@, numbers(list@.take(k as int))),
            t.by_card@.len() == 52,
        decreases list@.len() - k,
    {
        let j: usize = list[k].1 as usize;
        assert(numbers(list@.take(k + 1)).drop_last() =~= numbers(list@.take(k as int)));
        t.count(hands[j].c1, hands[j].c2, reach[j].widened());
        k = k + 1;
    }
    assert(list@.take(list@.len() as int) =~= list@);
    t
}

proof fn lemma_filter_take(list: Seq<Ranked>, pred: spec_fn(Ranked) -> bool, j: int)
    requires
        0 <= j <= list.len(),
        forall|k: int| 0 <= k < j ==> pred(#[trigger] list[k]),
        forall|k: int| j <= k < list.len() ==> !pred(#[trigger] list[k]),
    ensures
        list.filter(pred) == list.take(j),
    decreases list.len(),
{
    reveal(Seq::filter);
    if list.len() > 0 {
        let rest = list.drop_last();
        if j == list.len() {
            lemma_filter_take(rest, pred, j - 1);
            assert(rest.take(j - 1).push(list.last()) =~= list.take(j));
        } else {
            lemma_filter_take(rest, pred, j);
            assert(rest.take(j) =~= list.take(j));
        }
    } else {
        assert(list.take(j) =~= list);
    }
}

proof fn lemma_filter_skip(list: Seq<Ranked>, pred: spec_fn(Ranked) -> bool, j: int)
    requires
        0 <= j <= list.len(),
        forall|k: int| 0 <= k < j ==> !pred(#[trigger] list[k]),
        forall|k: int| j <= k < list.len() ==> pred(#[trigger] list[k]),
    ensures
        list.filter(pred) == list.skip(j),
    decreases list.len(),
{
    reveal(Seq::filter);
    if list.len() > 0 {
        let rest = list.drop_last();
        if j == list.len() {
            lemma_filter_skip(rest, pred, j - 1);
            assert(rest.skip(j - 1) =~= list.skip(j));
        } else {
            lemma_filter_skip(rest, pred, j);
            assert(rest.skip(j).push(list.last()) =~= list.skip(j));
        }
    } else {
        assert(list.skip(j) =~= list);
    }
}

/// For each entry of `mine`, the unblocked reach of the strictly weaker
/// opponents.
fn sweep_up<S: Single>(
    mine: &Vec<Ranked>,
    opps: &Vec<Ranked>,
    hands_me: &[HandInfo<S>],
    hands_opp: &[HandInfo<S>],
    reach_opp: &[S],
) -> (r: Vec<S::Wide>)
    requires
        sort::in_order(mine@),
        sort::in_order(opps@),
        ranks_below(mine@, hands_me@.len()),
        ranks_below(opps@, hands_opp@.len()),
        cards_real(hands_me@),
        cards_real(hands_opp@),
        hands_opp@.len() <= reach_opp@.len(),
    ensures
        r@.len() == mine@.len(),
        forall|k: int|
            0 <= k < mine@.len() ==> #[trigger] r@[k] == weaker_reach(
                mine@[k],
                opps@,
                hands_me@,
                hands_opp@,
                reach_opp@,
            ),
{
    let mut out: Vec<S::Wide> = Vec::new();
    let mut t: Tally<S::Wide> = Tally::new();
    let mut j: usize = 0;
    let mut k: usize = 0;
    assert(numbers(opps@.take(0)) =~= Seq::<int>::empty());
    while k < mine.len()
        invariant
            k <= mine@.len(),
            j <= opps@.len(),
            sort::in_order(mine@),
            sort::in_order(opps@),
            ranks_below(mine@, hands_me@.len()),
            ranks_below(opps@, hands_opp@.len()),
            cards_real(hands_me@),
            cards_real(hands_opp@),
            hands_opp@.len() <= reach_opp@.len(),
            out@.len() == k,
            t.sums() == amassed(hands_opp@, reach_opp@, numbers(opps@.take(j as int))),
            t.by_card@.len() == 52,
            forall|i: int|
                0 <= i < j ==> k > 0 && (#[trigger] opps@[i]).0 < mine@[k - 1].0,
            forall|i: int|
                0 <= i < k ==> #[trigger] out@[i] == weaker_reach(
                    mine@[i],
                    opps@,
                    hands_me@,
                    hands_opp@,
                    reach_opp@,
                ),
        decreases mine@.len() - k,
    {
        let strength: u32 = mine[k].0;
        let i: usize = mine[k].1 as usize;
        assert(k > 0 ==> sort::not_after(mine@[k - 1], mine@[k as int]));
        while j < opps.len() && opps[j].0 < strength
            invariant
                k < mine@.len(),
                j <= opps@.len(),
                strength == mine@[k as int].0,
                ranks_below(opps@, hands_opp@.len()),
                cards_real(hands_opp@),
                hands_opp@.len() <= reach_opp@.len(),
                t.sums() == amassed(hands_opp@, reach_opp@, numbers(opps@.take(j as int))),
                t.by_card@.len() == 52,
                forall|i: int| 0 <= i < j ==> (#[trigger] opps@[i]).0 < strength,
            decreases opps@.len() - j,
        {
            let jj: usize = opps[j].1 as usize;
            assert(numbers(opps@.take(j + 1)).drop_last() =~= numbers(opps@.take(j as int)));
            t.count(hands_opp[jj].c1, hands_opp[jj].c2, reach_opp[jj].widened());
            j = j + 1;
        }
        proof {
            assert forall|m: int| j <= m < opps@.len() implies !((#[trigger] opps@[m]).0
                < strength) by {
                assert(sort::not_after(opps@[j as int], opps@[m]));
            }
            lemma_filter_take(opps@, |e: Ranked| e.0 < strength, j as int);
        }
        out.push(t.unblocked(hands_me[i].c1, hands_me[i].c2));
        k = k + 1;
    }
    out
}

/// The unblocked reach of the opponents that are strictly weaker than `e`.
pub open spec fn weaker_reach<S: Single>(
    e: Ranked,
    opps: Seq<Ranked>,
    hands_me: Seq<HandInfo<S>>,
    hands_opp: Seq<HandInfo<S>>,
    reach_opp: Seq<S>,
) -> S::Wide {
    unblocked(
        amassed(hands_opp, reach_opp, numbers(weaker(opps, e.0))),
        hands_me[e.1 as int],
    )
}

/// The unblocked reach of the opponents that are strictly stronger than `e`.
pub open spec fn stronger_reach<S: Single>(
    e: Ranked,
    opps: Seq<Ranked>,
    hands_me: Seq<HandInfo<S>>,
    hands_opp: Seq<HandInfo<S>>,
    reach_opp: Seq<S>,
) -> S::Wide {
    unblocked(
        amassed(hands_opp, reach_opp, numbers(stronger(opps, e.0))),
        hands_me[e.1 as int],
    )
}

/// For each entry of `mine`, the unblocked reach of the strictly stronger
/// opponents; from the last entry to the first.
fn sweep_down<S: Single>(
    mine: &Vec<Ranked>,
    opps: &Vec<Ranked>,
    hands_me: &[HandInfo<S>],
    hands_opp: &[HandInfo<S>],
    reach_opp: &[S],
) -> (r: Vec<S::Wide>)
    requires
        sort::in_order(mine@),
        sort::in_order(opps@),
        ranks_below(mine@, hands_me@.len()),
        ranks_below(opps@, hands_opp@.len()),
        cards_real(hands_me@),
        cards_real(hands_opp@),
        hands_opp@.len() <= reach_opp@.len(),
    ensures
        r@.len() == mine@.len(),
        forall|k: int|
            0 <= k < mine@.len() ==> #[trigger] r@[mine@.len() - 1 - k] == stronger_reach(
                mine@[k],
                opps@,
                hands_me@,
                hands_opp@,
                reach_opp@,
            ),
{
    let mut out: Vec<S::Wide> = Vec::new();
    let mut t: Tally<S::Wide> = Tally::new();
    let mut j: usize = opps.len();
    let mut k: usize = mine.len();
    assert(numbers(opps@.skip(j as int).reverse()) =~= Seq::<int>::empty());
    while k > 0
        invariant
            k <= mine@.len(),
            j <= opps@.len(),
            sort::in_order(mine@),
            sort::in_order(opps@),
            ranks_below(mine@, hands_me@.len()),
            ranks_below(opps@, hands_opp@.len()),
            cards_real(hands_me@),
            cards_real(hands_opp@),
            hands_opp@.len() <= reach_opp@.len(),
            out@.len() == mine@.len() - k,
            t.sums() == amassed(
                hands_opp@,
                reach_opp@,
                numbers(opps@.skip(j as int).reverse()),
            ),
            t.by_card@.len() == 52,
            forall|i: int|
                j <= i < opps@.len() ==> k < mine@.len() && (#[trigger] opps@[i]).0
                    > mine@[k as int].0,
            forall|i: int|
                0 <= i < out@.len() ==> #[trigger] out@[i] == stronger_reach(
                    mine@[mine@.len() - 1 - i],
                    opps@,
                    hands_me@,
                    hands_opp@,
                    reach_opp@,
                ),
        decreases k,
    {
        k = k - 1;
        let strength: u32 = mine[k].0;
        let i: usize = mine[k].1 as usize;
        assert(k + 1 < mine@.len() ==> sort::not_after(mine@[k as int], mine@[k + 1]));
        while j > 0 && opps[j - 1].0 > strength
            invariant
                k < mine@.len(),
                j <= opps@.len(),
                strength == mine@[k as int].0,
                ranks_below(opps@, hands_opp@.len()),
                cards_real(hands_opp@),
                hands_opp@.len() <= reach_opp@.len(),
                t.sums() == amassed(
                    hands_opp@,
                    reach_opp@,
                    numbers(opps@.skip(j as int).reverse()),
                ),
                t.by_card@.len() == 52,
                forall|i: int| j <= i < opps@.len() ==> (#[trigger] opps@[i]).0 > strength,
            decreases j,
        {
            j = j - 1;
            let jj: usize = opps[j].1 as usize;
            assert(numbers(opps@.skip(j as int).reverse()).drop_last() =~= numbers(
                opps@.skip(j + 1).reverse(),
            ));
            t.count(hands_opp[jj].c1, hands_opp[jj].c2, reach_opp[jj].widened());
        }
        proof {
            assert forall|m: int| 0 <= m < j implies !((#[trigger] opps@[m]).0 > strength) by {
                assert(sort::not_after(opps@[m], opps@[j - 1]));
            }
            lemma_filter_skip(opps@, |e: Ranked| e.0 > strength, j as int);
        }
        out.push(t.unblocked(hands_me[i].c1, hands_me[i].c2));
    }
    assert forall|m: int| 0 <= m < mine@.len() implies #[trigger] out@[mine@.len() - 1 - m]
        == stronger_reach(mine@[m], opps@, hands_me@, hands_opp@, reach_opp@) by {}
    out
}

/// The opponent reach that each hand can meet: without the hands that share a
/// card with it, the one with the same two cards being taken out only once.
pub open spec fn met_reach<S: Single>(
    hands_me: Seq<HandInfo<S>>,
    hands_opp: Seq<HandInfo<S>>,
    reach_opp: Seq<S>,
    same_combo_me: Seq<u32>,
) -> Seq<S::Wide> {
    let all = amassed(hands_opp, reach_opp, upto(hands_opp.len()));
    Seq::new(
        hands_me.len(),
        |i: int|
            unblocked(all, hands_me[i]).plus_spec(
                twin_reach(reach_opp, same_combo_me[i]).widened_spec(),
            ),
    )
}

/// [`met_reach`], computed.
pub fn compatible_reach<S: Single>(
    hands_me: &[HandInfo<S>],
    hands_opp: &[HandInfo<S>],
    reach_opp: &[S],
    same_combo_me: &[u32],
) -> (r: Vec<S::Wide>)
    requires
        cards_real(hands_me@),
        cards_real(hands_opp@),
        hands_opp@.len() <= reach_opp@.len(),
        hands_me@.len() <= same_combo_me@.len(),
        indexes_below(same_combo_me@, reach_opp@.len()),
    ensures
        r@ == met_reach(hands_me@, hands_opp@, reach_opp@, same_combo_me@),
{
    let t = tally_hands(hands_opp, reach_opp);
    let ghost want = met_reach(hands_me@, hands_opp@, reach_opp@, same_combo_me@);
    let mut out: Vec<S::Wide> = Vec::new();
    let mut i: usize = 0;
    while i < hands_me.len()
        invariant
            i <= hands_me@.len() <= same_combo_me@.len(),
            cards_real(hands_me@),
            indexes_below(same_combo_me@, reach_opp@.len()),
            t.sums() == amassed(hands_opp@, reach_opp@, upto(hands_opp@.len())),
            t.by_card@.len() == 52,
            want == met_reach(hands_me@, hands_opp@, reach_opp@, same_combo_me@),
            out@ == want.take(i as int),
        decreases hands_me@.len() - i,
    {
        let same: u32 = same_combo_me[i];
        let same_r = if same != SENTINEL {
            reach_opp[same as usize].widened()
        } else {
            S::decimal(0, 0).widened()
        };
        out.push(t.unblocked(hands_me[i].c1, hands_me[i].c2).plus(same_r));
        assert(out@ =~= want.take(i + 1));
        i = i + 1;
    }
    assert(out@ =~= want);
    out
}

// ---------------------------------------------------------------------------
// Folds
// ---------------------------------------------------------------------------

/// The value of hand `i` at a fold: `amount` per unit of compatible reach.
pub open spec fn fold_value<S: Single>(
    hands_me: Seq<HandInfo<S>>,
    hands_opp: Seq<HandInfo<S>>,
    reach_opp: Seq<S>,
    same_combo_me: Seq<u32>,
    amount: S,
    i: int,
) -> S {
    let left = unblocked(amassed(hands_opp, reach_opp, upto(hands_opp.len())), hands_me[i]);
    amount.times_spec(
        S::narrowed_spec(left).plus_spec(twin_reach(reach_opp, same_combo_me[i])),
    )
}

/// Counterfactual value at a fold terminal: `amount` per unit of compatible
/// opponent reach.
pub fn fold_cfv<S: Single>(
    hands_me: &[HandInfo<S>],
    hands_opp: &[HandInfo<S>],
    reach_opp: &[S],
    same_combo_me: &[u32],
    amount: S,
    out: &mut [S],
)
    requires
        cards_real(hands_me@),
        cards_real(hands_opp@),
        hands_opp@.len() <= reach_opp@.len(),
        hands_me@.len() <= same_combo_me@.len(),
        indexes_below(same_combo_me@, reach_opp@.len()),
        hands_me@.len() <= old(out)@.len(),
    ensures
        final(out)@.len() == old(out)@.len(),
        forall|i: int|
            0 <= i < old(out)@.len() ==> #[trigger] final(out)@[i] == if i < hands_me@.len() {
                fold_value(hands_me@, hands_opp@, reach_opp@, same_combo_me@, amount, i)
            } else {
                old(out)@[i]
            },
{
    let t = tally_hands(hands_opp, reach_opp);
    let mut i: usize = 0;
    while i < hands_me.len()
        invariant
            i <= hands_me@.len(),
            cards_real(hands_me@),
            hands_me@.len() <= same_combo_me@.len(),
            indexes_below(same_combo_me@, reach_opp@.len()),
            hands_me@.len() <= out@.len() == old(out)@.len(),
            t.sums() == amassed(hands_opp@, reach_opp@, upto(hands_opp@.len())),
            t.by_card@.len() == 52,
            forall|m: int|
                0 <= m < out@.len() ==> #[trigger] out@[m] == if m < i {
                    fold_value(hands_me@, hands_opp@, reach_opp@, same_combo_me@, amount, m)
                } else {
                    old(out)@[m]
                },
        decreases hands_me@.len() - i,
    {
        let same: u32 = same_combo_me[i];
        let same_r = if same != SENTINEL {
            reach_opp[same as usize]
        } else {
            S::decimal(0, 0)
        };
        let left = t.unblocked(hands_me[i].c1, hands_me[i].c2);
        let value = amount.times(S::narrowed(left).plus(same_r));
        out[i] = value;
        i = i + 1;
    }
}

// ---------------------------------------------------------------------------
// Showdowns
// ---------------------------------------------------------------------------

/// One player's side of a showdown.
pub ghost struct Duel<S> {
    pub mine: Seq<Ranked>,
    pub opps: Seq<Ranked>,
    pub hands_me: Seq<HandInfo<S>>,
    pub hands_opp: Seq<HandInfo<S>>,
    pub reach_opp: Seq<S>,
    pub same_combo_me: Seq<u32>,
}

impl<S: Single> Duel<S> {
    /// The unblocked reach of all opponents at the showdown, without the hand
    /// with the same two cards.
    pub open spec fn met(&self, k: int) -> S::Wide {
        unblocked(
            amassed(self.hands_opp, self.reach_opp, numbers(self.opps)),
            self.hands_me[self.mine[k].1 as int],
        )
    }

    pub open spec fn twin(&self, k: int) -> S {
        twin_reach(self.reach_opp, self.same_combo_me[self.mine[k].1 as int])
    }

    pub open spec fn beaten(&self, k: int) -> S::Wide {
        weaker_reach(self.mine[k], self.opps, self.hands_me, self.hands_opp, self.reach_opp)
    }

    pub open spec fn beating(&self, k: int) -> S::Wide {
        stronger_reach(self.mine[k], self.opps, self.hands_me, self.hands_opp, self.reach_opp)
    }

    /// The value of the hand of entry `k`: what it wins against the beaten
    /// reach, loses against the beating reach, and gets of the tied rest.
    pub open spec fn value(&self, k: int, win: S, lose: S, tie: S) -> S {
        let lo = S::narrowed_spec(self.beaten(k));
        let hi = S::narrowed_spec(self.beating(k));
        let valid = S::narrowed_spec(self.met(k)).plus_spec(self.twin(k));
        win.times_spec(lo).plus_spec(lose.times_spec(hi)).plus_spec(
            tie.times_spec(valid.minus_spec(lo).minus_spec(hi)),
        )
    }

    /// `out` once the entries from `k` on have been settled, last to first.
    pub open spec fn settled(&self, out: Seq<S>, k: int, win: S, lose: S, tie: S) -> Seq<S>
        decreases self.mine.len() - k,
    {
        if k >= self.mine.len() {
            out
        } else {
            self.settled(out, k + 1, win, lose, tie).update(
                self.mine[k].1 as int,
                self.value(k, win, lose, tie),
            )
        }
    }

    /// The reach sums once the entries from `k` on have been added, last to
    /// first: won, tied and met reach.
    pub open spec fn summed(
        &self,
        sums: (Seq<S::Wide>, Seq<S::Wide>, Seq<S::Wide>),
        k: int,
    ) -> (Seq<S::Wide>, Seq<S::Wide>, Seq<S::Wide>)
        decreases self.mine.len() - k,
    {
        if k >= self.mine.len() {
            sums
        } else {
            let (win, tie, valid) = self.summed(sums, k + 1);
            let i = self.mine[k].1 as int;
            let lo = self.beaten(k);
            let hi = self.beating(k);
            let all = self.met(k).plus_spec(self.twin(k).widened_spec());
            (
                win.update(i, win[i].plus_spec(lo)),
                tie.update(i, tie[i].plus_spec(all.minus_spec(lo).minus_spec(hi))),
                valid.update(i, valid[i].plus_spec(all)),
            )
        }
    }

    /// The lists are in order and name each other's hands.
    pub open spec fn wf(&self) -> bool {
        &&& sort::in_order(self.mine)
        &&& sort::in_order(self.opps)
        &&& ranks_below(self.mine, self.hands_me.len())
        &&& ranks_below(self.opps, self.hands_opp.len())
        &&& cards_real(self.hands_me)
        &&& cards_real(self.hands_opp)
        &&& self.hands_opp.len() <= self.reach_opp.len()
        &&& self.hands_me.len() <= self.same_combo_me.len()
        &&& indexes_below(self.same_combo_me, self.reach_opp.len())
    }
}

/// The side of player `me`.
pub open spec fn duel<S>(
    eval: RiverBoardEval,
    me: int,
    hands_me: Seq<HandInfo<S>>,
    hands_opp: Seq<HandInfo<S>>,
    reach_opp: Seq<S>,
    same_combo_me: Seq<u32>,
) -> Duel<S> {
    Duel {
        mine: eval.sorted[me]@,
        opps: eval.sorted[1 - me]@,
        hands_me,
        hands_opp,
        reach_opp,
        same_combo_me,
    }
}

/// Counterfactual value at a showdown. Only hands valid on this river board
/// are written.
pub fn showdown_cfv<S: Single>(
    eval: &RiverBoardEval,
    me: usize,
    hands_me: &[HandInfo<S>],
    hands_opp: &[HandInfo<S>],
    reach_opp: &[S],
    same_combo_me: &[u32],
    win: S,
    lose: S,
    tie: S,
    out: &mut [S],
)
    requires
        me < 2,
        duel(*eval, me as int, hands_me@, hands_opp@, reach_opp@, same_combo_me@).wf(),
        hands_me@.len() <= old(out)@.len(),
    ensures
        final(out)@ == duel(
            *eval,
            me as int,
            hands_me@,
            hands_opp@,
            reach_opp@,
            same_combo_me@,
        ).settled(old(out)@, 0, win, lose, tie),
        final(out)@.len() == old(out)@.len(),
{
    let ghost d = duel(*eval, me as int, hands_me@, hands_opp@, reach_opp@, same_combo_me@);
    let mine = &eval.sorted[me];
    let opps = &eval.sorted[1 - me];
    let all = tally_ranked(hands_opp, reach_opp, opps);
    let lower = sweep_up(mine, opps, hands_me, hands_opp, reach_opp);
    let upper = sweep_down(mine, opps, hands_me, hands_opp, reach_opp);
    let n: usize = mine.len();
    let mut k: usize = n;
    while k > 0
        invariant
            k <= n == mine@.len(),
            d.wf(),
            d.mine == mine@,
            d.opps == opps@,
            d.hands_me == hands_me@,
            d.hands_opp == hands_opp@,
            d.reach_opp == reach_opp@,
            d.same_combo_me == same_combo_me@,
            all.by_card@.len() == 52,
            all.sums() == amassed(hands_opp@, reach_opp@, numbers(opps@)),
            lower@.len() == n,
            upper@.len() == n,
            forall|m: int| 0 <= m < n ==> #[trigger] lower@[m] == d.beaten(m),
            forall|m: int| 0 <= m < n ==> #[trigger] upper@[n - 1 - m] == d.beating(m),
            hands_me@.len() <= out@.len() == old(out)@.len(),
            out@ == d.settled(old(out)@, k as int, win, lose, tie),
        decreases k,
    {
        k = k - 1;
        let i: usize = mine[k].1 as usize;
        let lo = S::narrowed(lower[k]);
        let higher = S::narrowed(upper[n - 1 - k]);
        assert(upper@[n - 1 - k] == d.beating(k as int));
        let same: u32 = same_combo_me[i];
        let same_r = if same != SENTINEL {
            reach_opp[same as usize]
        } else {
            S::decimal(0, 0)
        };
        let valid = S::narrowed(all.unblocked(hands_me[i].c1, hands_me[i].c2)).plus(same_r);
        let tied = valid.minus(lo).minus(higher);
        let value = win.times(lo).plus(lose.times(higher)).plus(tie.times(tied));
        assert(value == d.value(k as int, win, lose, tie));
        out[i] = value;
    }
}

/// Accumulate win/tie/valid opponent reach per hand for equity calculation.
pub fn sweep_buckets<S: Single>(
    eval: &RiverBoardEval,
    me: usize,
    hands_me: &[HandInfo<S>],
    hands_opp: &[HandInfo<S>],
    reach_opp: &[S],
    same_combo_me: &[u32],
    acc_win: &mut [S::Wide],
    acc_tie: &mut [S::Wide],
    acc_valid: &mut [S::Wide],
)
    requires
        me < 2,
        duel(*eval, me as int, hands_me@, hands_opp@, reach_opp@, same_combo_me@).wf(),
        hands_me@.len() <= old(acc_win)@.len(),
        hands_me@.len() <= old(acc_tie)@.len(),
        hands_me@.len() <= old(acc_valid)@.len(),
    ensures
        (final(acc_win)@, final(acc_tie)@, final(acc_valid)@) == duel(
            *eval,
            me as int,
            hands_me@,
            hands_opp@,
            reach_opp@,
            same_combo_me@,
        ).summed((old(acc_win)@, old(acc_tie)@, old(acc_valid)@), 0),
        final(acc_win)@.len() == old(acc_win)@.len(),
        final(acc_tie)@.len() == old(acc_tie)@.len(),
        final(acc_valid)@.len() == old(acc_valid)@.len(),
{
    let ghost d = duel(*eval, me as int, hands_me@, hands_opp@, reach_opp@, same_combo_me@);
    let ghost start = (acc_win@, acc_tie@, acc_valid@);
    let mine = &eval.sorted[me];
    let opps = &eval.sorted[1 - me];
    let all = tally_ranked(hands_opp, reach_opp, opps);
    let lower = sweep_up(mine, opps, hands_me, hands_opp, reach_opp);
    let upper = sweep_down(mine, opps, hands_me, hands_opp, reach_opp);
    let n: usize = mine.len();
    let mut k: usize = n;
    while k > 0
        invariant
            k <= n == mine@.len(),
            d.wf(),
            d.mine == mine@,
            d.opps == opps@,
            d.hands_me == hands_me@,
            d.hands_opp == hands_opp@,
            d.reach_opp == reach_opp@,
            d.same_combo_me == same_combo_me@,
            all.by_card@.len() == 52,
            all.sums() == amassed(hands_opp@, reach_opp@, numbers(opps@)),
            lower@.len() == n,
            upper@.len() == n,
            forall|m: int| 0 <= m < n ==> #[trigger] lower@[m] == d.beaten(m),
            forall|m: int| 0 <= m < n ==> #[trigger] upper@[n - 1 - m] == d.beating(m),
            hands_me@.len() <= acc_win@.len() == old(acc_win)@.len(),
            hands_me@.len() <= acc_tie@.len() == old(acc_tie)@.len(),
            hands_me@.len() <= acc_valid@.len() == old(acc_valid)@.len(),
            start == (old(acc_win)@, old(acc_tie)@, old(acc_valid)@),
            (acc_win@, acc_tie@, acc_valid@) == d.summed(start, k as int),
        decreases k,
    {
        k = k - 1;
        let i: usize = mine[k].1 as usize;
        let lo = lower[k];
        let higher = upper[n - 1 - k];
        assert(upper@[n - 1 - k] == d.beating(k as int));
        let same: u32 = same_combo_me[i];
        let same_r = if same != SENTINEL {
            reach_opp[same as usize].widened()
        } else {
            S::decimal(0, 0).widened()
        };
        assert(same_r == d.twin(k as int).widened_spec());
        let valid = all.unblocked(hands_me[i].c1, hands_me[i].c2).plus(same_r);
        let w = acc_win[i].plus(lo);
        acc_win[i] = w;
        let t = acc_tie[i].plus(valid.minus(lo).minus(higher));
        acc_tie[i] = t;
        let v = acc_valid[i].plus(valid);
        acc_valid[i] = v;
    }
}

} // verus!
