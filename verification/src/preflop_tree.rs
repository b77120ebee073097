//! The nodes of a preflop game's tree, the order of play after the flop, and
//! how much of its equity each seat realizes.

use crate::betting;
use crate::betting::{Act, PAction};
use crate::num;
use crate::num::{larger, smaller, Num, Single};
use crate::preflop::PreflopConfig;
use crate::seats;
use crate::seats::is_seated;
use crate::strategy::filled;
use vstd::prelude::*;

verus! {

/// A seat acts.
pub const KIND_ACTION: u8 = 0;

/// All seats but one have folded.
pub const KIND_FOLD_WIN: u8 = 1;

/// The betting is closed and the live seats share the pot.
pub const KIND_POT_SHARE: u8 = 2;

/// A node of the tree.
pub struct PNode<S: Single> {
    pub kind: u8,
    /// The seat to act, or the winner.
    pub actor: u8,
    pub actions: Vec<PAction<S::Wide>>,
    /// Where the node's children start in the list of children.
    pub child_start: u32,
    pub pot: S::Wide,
    pub invested: Vec<S::Wide>,
    /// The seats that have not folded.
    pub live: u32,
    pub winner: u8,
    /// At shared pots: how much of its equity each seat realizes.
    pub r: Vec<S>,
    /// At shared pots: each live seat's place in the order of play, from
    /// minus a half for the first to plus a half for the last.
    pub posf: Vec<S>,
    /// At acting nodes: the situation that the seat to act faces.
    pub bucket: u8,
    /// Where an acting node's cells start in the arenas.
    pub data_off: usize,
}

/// A [`PNode`] as a mathematical value.
pub ghost struct Knot<S: Single> {
    pub kind: u8,
    pub actor: u8,
    pub actions: Seq<Act<S::Wide>>,
    pub child_start: u32,
    pub pot: S::Wide,
    pub invested: Seq<S::Wide>,
    pub live: u32,
    pub winner: u8,
    pub r: Seq<S>,
    pub posf: Seq<S>,
    pub bucket: u8,
    pub data_off: usize,
}

impl<S: Single> View for PNode<S> {
    type V = Knot<S>;

    open spec fn view(&self) -> Knot<S> {
        Knot {
            kind: self.kind,
            actor: self.actor,
            actions: betting::acts(self.actions@),
            child_start: self.child_start,
            pot: self.pot,
            invested: self.invested@,
            live: self.live,
            winner: self.winner,
            r: self.r@,
            posf: self.posf@,
            bucket: self.bucket,
            data_off: self.data_off,
        }
    }
}

/// Nodes as mathematical values.
pub open spec fn knots<S: Single>(v: Seq<PNode<S>>) -> Seq<Knot<S>> {
    Seq::new(v.len(), |i: int| v[i]@)
}

// ---------------------------------------------------------------------------
// The order of play after the flop
// ---------------------------------------------------------------------------

/// A list ordered by post with a seat put in behind those that post no more.
pub open spec fn placed<W: Num>(posts: Seq<W>, order: Seq<usize>, seat: usize) -> Seq<usize>
    decreases order.len(),
{
    if order.len() > 0 && posts[seat as int].below_spec(posts[order.last() as int]) {
        placed(posts, order.drop_last(), seat).push(order.last())
    } else {
        order.push(seat)
    }
}

/// The posting seats of the first `k`, by what they post.
pub open spec fn blinds<W: Num>(posts: Seq<W>, k: int) -> Seq<usize>
    decreases k,
{
    if k <= 0 {
        Seq::empty()
    } else if W::decimal_spec(0, 0).below_spec(posts[k - 1]) {
        placed(posts, blinds(posts, k - 1), (k - 1) as usize)
    } else {
        blinds(posts, k - 1)
    }
}

/// The other seats of the first `k`, in their order.
pub open spec fn others<W: Num>(posts: Seq<W>, k: int) -> Seq<usize>
    decreases k,
{
    if k <= 0 {
        Seq::empty()
    } else if W::decimal_spec(0, 0).below_spec(posts[k - 1]) {
        others(posts, k - 1)
    } else {
        others(posts, k - 1).push((k - 1) as usize)
    }
}

/// The order of play after the flop: the posting seats first, by what they
/// post, and the rest in seat order. Of two seats the first is the button,
/// which acts last.
pub open spec fn order_of<W: Num>(posts: Seq<W>, n: int) -> Seq<usize> {
    if n == 2 {
        seq![1usize, 0usize]
    } else {
        blinds(posts, n) + others(posts, n)
    }
}

fn place<W: Num>(posts: &Vec<W>, order: &mut Vec<usize>, seat: usize)
    requires
        seat < posts@.len(),
        forall|i: int| 0 <= i < old(order)@.len() ==> #[trigger] old(order)@[i] < posts@.len(),
    ensures
        final(order)@ == placed(posts@, old(order)@, seat),
        final(order)@.len() == old(order)@.len() + 1,
        forall|i: int| 0 <= i < final(order)@.len() ==> #[trigger] final(order)@[i] < posts@.len(),
    decreases old(order)@.len(),
{
    let count: usize = order.len();
    if count > 0 && posts[seat].below(posts[order[count - 1]]) {
        let ghost was = order@;
        let top: usize = order[count - 1];
        let _ = order.pop();
        assert(order@ =~= was.drop_last());
        place(posts, order, seat);
        order.push(top);
    } else {
        order.push(seat);
    }
}

/// [`order_of`], computed.
pub fn play_order<W: Num>(posts: &Vec<W>, n: usize) -> (r: Vec<usize>)
    requires
        n == posts@.len(),
    ensures
        r@ == order_of(posts@, n as int),
        forall|i: int| 0 <= i < r@.len() ==> #[trigger] r@[i] < n,
        r@.len() == n,
{
    if n == 2 {
        let mut r: Vec<usize> = Vec::new();
        r.push(1);
        r.push(0);
        return r;
    }
    let mut first: Vec<usize> = Vec::new();
    let mut rest: Vec<usize> = Vec::new();
    let mut i: usize = 0;
    while i < n
        invariant
            i <= n == posts@.len(),
            first@ == blinds(posts@, i as int),
            rest@ == others(posts@, i as int),
            first@.len() + rest@.len() == i,
            forall|j: int| 0 <= j < first@.len() ==> #[trigger] first@[j] < n,
            forall|j: int| 0 <= j < rest@.len() ==> #[trigger] rest@[j] < n,
        decreases n - i,
    {
        if W::decimal(0, 0).below(posts[i]) {
            place(posts, &mut first, i);
        } else {
            rest.push(i);
        }
        i = i + 1;
    }
    let ghost head = first@;
    let mut j: usize = 0;
    while j < rest.len()
        invariant
            j <= rest@.len(),
            first@ == head + rest@.take(j as int),
            forall|k: int| 0 <= k < first@.len() ==> #[trigger] first@[k] < n,
            forall|k: int| 0 <= k < rest@.len() ==> #[trigger] rest@[k] < n,
        decreases rest@.len() - j,
    {
        first.push(rest[j]);
        assert(first@ =~= head + rest@.take(j + 1));
        j = j + 1;
    }
    assert(rest@.take(rest@.len() as int) =~= rest@);
    first
}

// ---------------------------------------------------------------------------
// How much of its equity a seat realizes
// ---------------------------------------------------------------------------

/// The least that a live seat of the first `k` has left.
pub open spec fn least_left<W: Num>(
    cfg: PreflopConfig<W>,
    live: u32,
    invested: Seq<W>,
    k: int,
) -> Option<W>
    decreases k,
{
    if k <= 0 {
        None
    } else {
        let before = least_left(cfg, live, invested, k - 1);
        if seats::seated(live, k - 1) {
            let left = cfg.stack.minus_spec(invested[k - 1]).plus_spec(cfg.ante);
            match before {
                Some(least) => Some(num::smaller_of(least, left)),
                None => Some(left),
            }
        } else {
            before
        }
    }
}

/// The stack behind, as a multiple of the pot.
pub open spec fn depth<W: Num>(
    cfg: PreflopConfig<W>,
    live: u32,
    invested: Seq<W>,
    pot: W,
) -> W {
    match least_left(cfg, live, invested, invested.len() as int) {
        Some(least) => num::larger_of(W::decimal_spec(0, 0), least.over_spec(pot)),
        None => W::decimal_spec(0, 0),
    }
}

/// [`depth`], computed.
pub fn stack_to_pot<W: Num>(cfg: &PreflopConfig<W>, live: u32, invested: &Vec<W>, pot: W) -> (r: W)
    requires
        invested@.len() <= 9,
    ensures
        r == depth(*cfg, live, invested@, pot),
{
    let mut least: Option<W> = None;
    let mut i: usize = 0;
    while i < invested.len()
        invariant
            i <= invested@.len() <= 9,
            least == least_left(*cfg, live, invested@, i as int),
        decreases invested@.len() - i,
    {
        if is_seated(live, i) {
            let left = cfg.stack.minus(invested[i]).plus(cfg.ante);
            least = match least {
                Some(v) => Some(smaller(v, left)),
                None => Some(left),
            };
        }
        i = i + 1;
    }
    match least {
        Some(v) => larger(W::decimal(0, 0), v.over(pot)),
        None => W::decimal(0, 0),
    }
}

/// The live seats of a list, in its order.
pub open spec fn live_of(order: Seq<usize>, live: u32) -> Seq<usize>
    decreases order.len(),
{
    if order.len() == 0 {
        Seq::empty()
    } else if seats::seated(live, order.last() as int) {
        live_of(order.drop_last(), live).push(order.last())
    } else {
        live_of(order.drop_last(), live)
    }
}

/// [`live_of`], computed.
pub fn live_seats(order: &Vec<usize>, live: u32) -> (r: Vec<usize>)
    requires
        forall|i: int| 0 <= i < order@.len() ==> #[trigger] order@[i] < 32,
    ensures
        r@ == live_of(order@, live),
        forall|i: int| 0 <= i < r@.len() ==> order@.contains(#[trigger] r@[i]),
        r@.len() <= order@.len(),
{
    let mut out: Vec<usize> = Vec::new();
    let mut i: usize = 0;
    assert(order@.take(0) =~= Seq::<usize>::empty());
    while i < order.len()
        invariant
            i <= order@.len(),
            forall|k: int| 0 <= k < order@.len() ==> #[trigger] order@[k] < 32,
            out@ == live_of(order@.take(i as int), live),
            forall|k: int| 0 <= k < out@.len() ==> order@.contains(#[trigger] out@[k]),
            out@.len() <= i,
        decreases order@.len() - i,
    {
        assert(order@.take(i + 1).drop_last() =~= order@.take(i as int));
        if is_seated(live, order[i]) {
            out.push(order[i]);
        }
        i = i + 1;
    }
    assert(order@.take(order@.len() as int) =~= order@);
    out
}

/// The place of the seat `rank` among `m` in the order of play, from minus a
/// half to plus a half.
pub open spec fn place_of<W: Num>(rank: int, m: int) -> W {
    W::decimal_spec(rank as i64, 0).over_spec(W::decimal_spec((m - 1) as i64, 0)).minus_spec(
        W::decimal_spec(5, 1),
    )
}

/// The share of its equity that the seat `rank` among `m` realizes: all of
/// it where equity counts raw or nothing is left to bet, else more the later
/// it acts and the deeper the stacks are, up to eight pots.
pub open spec fn realized<W: Num>(raw: bool, depth: W, rank: int, m: int) -> W {
    if raw || depth.at_most_spec(W::decimal_spec(1, 9)) || m < 2 {
        W::decimal_spec(1, 0)
    } else {
        W::decimal_spec(1, 0).plus_spec(
            W::decimal_spec(16, 2).times_spec(place_of(rank, m)).times_spec(
                num::smaller_of(depth, W::decimal_spec(8, 0)).over_spec(W::decimal_spec(8, 0)),
            ),
        )
    }
}

/// The table of realized shares, the first `k` of the live seats filled in.
pub open spec fn shares<S: Single>(
    n: int,
    raw: bool,
    depth: S::Wide,
    line: Seq<usize>,
    k: int,
) -> Seq<S>
    decreases k,
{
    if k <= 0 {
        Seq::new(n as nat, |i: int| S::decimal_spec(0, 0))
    } else {
        shares::<S>(n, raw, depth, line, k - 1).update(
            line[k - 1] as int,
            S::narrowed_spec(realized(raw, depth, k - 1, line.len() as int)),
        )
    }
}

/// The table of places in the order of play, likewise.
pub open spec fn places<S: Single>(n: int, line: Seq<usize>, k: int) -> Seq<S>
    decreases k,
{
    if k <= 0 {
        Seq::new(n as nat, |i: int| S::decimal_spec(0, 0))
    } else if line.len() < 2 {
        places::<S>(n, line, k - 1)
    } else {
        places::<S>(n, line, k - 1).update(
            line[k - 1] as int,
            S::narrowed_spec(place_of(k - 1, line.len() as int)),
        )
    }
}

/// What each seat realizes of its equity in a shared pot.
pub open spec fn weights<S: Single>(
    cfg: PreflopConfig<S::Wide>,
    live: u32,
    invested: Seq<S::Wide>,
    pot: S::Wide,
) -> Seq<S> {
    let n = invested.len() as int;
    let line = live_of(order_of(cfg.posts@, n), live);
    shares::<S>(
        n,
        cfg.realization@ == "raw"@,
        depth(cfg, live, invested, pot),
        line,
        line.len() as int,
    )
}

/// Each live seat's place in the order of play in a shared pot.
pub open spec fn standings<S: Single>(
    cfg: PreflopConfig<S::Wide>,
    live: u32,
    n: int,
) -> Seq<S> {
    let line = live_of(order_of(cfg.posts@, n), live);
    places::<S>(n, line, line.len() as int)
}

/// [`weights`] and [`standings`], computed.
pub fn realization_weights<S: Single>(
    cfg: &PreflopConfig<S::Wide>,
    live: u32,
    invested: &Vec<S::Wide>,
    pot: S::Wide,
) -> (r: (Vec<S>, Vec<S>))
    requires
        2 <= invested@.len() <= 9,
        cfg.posts@.len() == invested@.len(),
    ensures
        r.0@ == weights::<S>(*cfg, live, invested@, pot),
        r.1@ == standings::<S>(*cfg, live, invested@.len() as int),
        r.0@.len() == invested@.len(),
        r.1@.len() == invested@.len(),
{
    let n: usize = invested.len();
    let deep = stack_to_pot(cfg, live, invested, pot);
    let order = play_order(&cfg.posts, n);
    let line = live_seats(&order, live);
    let m: usize = line.len();
    let raw = cfg.realization == "raw".to_owned();
    let mut r: Vec<S> = filled(n, S::decimal(0, 0));
    let mut posf: Vec<S> = filled(n, S::decimal(0, 0));
    assert(r@ =~= shares::<S>(n as int, raw, deep, line@, 0));
    assert(posf@ =~= places::<S>(n as int, line@, 0));
    let mut rank: usize = 0;
    while rank < m
        invariant
            rank <= m == line@.len() <= n,
            2 <= n <= 9,
            r@.len() == n,
            posf@.len() == n,
            forall|i: int| 0 <= i < line@.len() ==> #[trigger] line@[i] < n,
            r@ == shares::<S>(n as int, raw, deep, line@, rank as int),
            posf@ == places::<S>(n as int, line@, rank as int),
        decreases m - rank,
    {
        let one = S::Wide::decimal(1, 0);
        let seat: usize = line[rank];
        if m >= 2 {
            let frac = S::Wide::decimal(rank as i64, 0).over(
                S::Wide::decimal((m - 1) as i64, 0),
            ).minus(S::Wide::decimal(5, 1));
            posf.set(seat, S::narrowed(frac));
            let w = if raw || deep.at_most(S::Wide::decimal(1, 9)) {
                one
            } else {
                let eight = S::Wide::decimal(8, 0);
                one.plus(
                    S::Wide::decimal(16, 2).times(frac).times(smaller(deep, eight).over(eight)),
                )
            };
            r.set(seat, S::narrowed(w));
        } else {
            r.set(seat, S::narrowed(one));
        }
        rank = rank + 1;
    }
    (r, posf)
}

// ---------------------------------------------------------------------------
// The order of play holds the seats of the table
// ---------------------------------------------------------------------------

proof fn lemma_placed<W: Num>(posts: Seq<W>, order: Seq<usize>, seat: usize)
    ensures
        placed(posts, order, seat).to_multiset() =~= order.to_multiset().insert(seat),
        placed(posts, order, seat).len() == order.len() + 1,
    decreases order.len(),
{
    broadcast use vstd::seq_lib::group_to_multiset_ensures;

    if order.len() > 0 && posts[seat as int].below_spec(posts[order.last() as int]) {
        lemma_placed(posts, order.drop_last(), seat);
        assert(order.drop_last().push(order.last()) =~= order);
    }
}

/// The seats below `k`.
pub open spec fn seat_list(k: int) -> Seq<usize> {
    Seq::new(k as nat, |i: int| i as usize)
}

proof fn lemma_split<W: Num>(posts: Seq<W>, k: int)
    requires
        0 <= k <= usize::MAX,
    ensures
        (blinds(posts, k) + others(posts, k)).to_multiset() =~= seat_list(k).to_multiset(),
        blinds(posts, k).len() + others(posts, k).len() == k,
    decreases k,
{
    broadcast use vstd::seq_lib::group_to_multiset_ensures;

    if k > 0 {
        lemma_split(posts, k - 1);
        let seat = (k - 1) as usize;
        assert(seat_list(k) =~= seat_list(k - 1).push(seat));
        let b = blinds(posts, k - 1);
        let o = others(posts, k - 1);
        vstd::seq_lib::lemma_multiset_commutative(b, o);
        if W::decimal_spec(0, 0).below_spec(posts[k - 1]) {
            lemma_placed(posts, b, seat);
            vstd::seq_lib::lemma_multiset_commutative(placed(posts, b, seat), o);
        } else {
            assert(b + o.push(seat) =~= (b + o).push(seat));
        }
    } else {
        assert(blinds(posts, 0) + others(posts, 0) =~= seat_list(0));
    }
}

/// The order of play after the flop lists every seat of the table once.
pub proof fn law_order_lists_every_seat<W: Num>(posts: Seq<W>, n: int)
    requires
        0 <= n <= usize::MAX,
    ensures
        order_of(posts, n).to_multiset() =~= seat_list(n).to_multiset(),
        order_of(posts, n).len() == n,
{
    broadcast use vstd::seq_lib::group_to_multiset_ensures;

    if n == 2 {
        let a = seq![1usize, 0usize];
        assert(a =~= Seq::<usize>::empty().push(1).push(0));
        assert(seat_list(2) =~= Seq::<usize>::empty().push(0).push(1));
        assert(a.to_multiset() =~= seat_list(2).to_multiset());
    } else {
        lemma_split(posts, n);
    }
}

proof fn lemma_order_in_range<W: Num>(posts: Seq<W>, n: int, i: int)
    requires
        0 <= n <= usize::MAX,
        0 <= i < order_of(posts, n).len(),
    ensures
        order_of(posts, n)[i] < n,
{
    broadcast use vstd::seq_lib::group_to_multiset_ensures;

    law_order_lists_every_seat(posts, n);
    let seat = order_of(posts, n)[i];
    assert(order_of(posts, n).contains(seat));
    assert(order_of(posts, n).to_multiset().count(seat) > 0);
    assert(seat_list(n).contains(seat));
}

proof fn lemma_live_of(order: Seq<usize>, live: u32, n: int)
    requires
        forall|i: int| 0 <= i < order.len() ==> #[trigger] order[i] < n,
    ensures
        forall|i: int| 0 <= i < live_of(order, live).len() ==> #[trigger] live_of(order, live)[i] < n,
    decreases order.len(),
{
    if order.len() > 0 {
        assert forall|i: int| 0 <= i < order.drop_last().len() implies #[trigger] order.drop_last()[i]
            < n by {
            assert(order.drop_last()[i] == order[i]);
        }
        lemma_live_of(order.drop_last(), live, n);
        assert(order[order.len() - 1] < n);
        let less = live_of(order.drop_last(), live);
        assert forall|i: int| 0 <= i < live_of(order, live).len() implies #[trigger] live_of(
            order,
            live,
        )[i] < n by {
            if i < less.len() {
                assert(less[i] < n);
            }
        }
    }
}

proof fn lemma_tables<S: Single>(n: int, raw: bool, depth: S::Wide, line: Seq<usize>, k: int)
    requires
        0 <= n,
        k <= line.len(),
        forall|i: int| 0 <= i < line.len() ==> #[trigger] line[i] < n,
    ensures
        shares::<S>(n, raw, depth, line, k).len() == n,
        places::<S>(n, line, k).len() == n,
    decreases k,
{
    if k > 0 {
        lemma_tables::<S>(n, raw, depth, line, k - 1);
        assert(line[k - 1] < n);
    }
}

/// The tables of a shared pot have an entry for every seat.
pub proof fn lemma_weights<S: Single>(
    cfg: PreflopConfig<S::Wide>,
    live: u32,
    invested: Seq<S::Wide>,
    pot: S::Wide,
)
    requires
        invested.len() <= usize::MAX,
    ensures
        weights::<S>(cfg, live, invested, pot).len() == invested.len(),
        standings::<S>(cfg, live, invested.len() as int).len() == invested.len(),
{
    let n = invested.len() as int;
    let order = order_of(cfg.posts@, n);
    assert forall|i: int| 0 <= i < order.len() implies #[trigger] order[i] < n by {
        lemma_order_in_range(cfg.posts@, n, i);
    }
    lemma_live_of(order, live, n);
    let line = live_of(order, live);
    lemma_tables::<S>(
        n,
        cfg.realization@ == "raw"@,
        depth(cfg, live, invested, pot),
        line,
        line.len() as int,
    );
}

proof fn lemma_live_one_less(list: Seq<usize>, live: u32, i: int)
    requires
        0 <= i < list.len(),
    ensures
        live_of(list, live).len() == live_of(list.remove(i), live).len() + if seats::seated(
            live,
            list[i] as int,
        ) {
            1int
        } else {
            0
        },
    decreases list.len(),
{
    if i == list.len() - 1 {
        assert(list.remove(i) =~= list.drop_last());
    } else {
        lemma_live_one_less(list.drop_last(), live, i);
        assert(list.remove(i).drop_last() =~= list.drop_last().remove(i));
        assert(list.remove(i).last() == list.last());
    }
}

proof fn lemma_same_seats(a: Seq<usize>, b: Seq<usize>, live: u32)
    requires
        a.to_multiset() =~= b.to_multiset(),
    ensures
        live_of(a, live).len() == live_of(b, live).len(),
    decreases a.len(),
{
    broadcast use vstd::seq_lib::group_to_multiset_ensures;

    assert(a.to_multiset().len() == a.len() && b.to_multiset().len() == b.len());
    if a.len() > 0 {
        let x = a.last();
        assert(a.contains(x));
        assert(a.to_multiset().count(x) > 0);
        assert(b.contains(x));
        let i = choose|i: int| 0 <= i < b.len() && b[i] == x;
        lemma_live_one_less(a, live, a.len() - 1);
        lemma_live_one_less(b, live, i);
        assert(a.remove(a.len() - 1).to_multiset() =~= a.to_multiset().remove(x));
        assert(b.remove(i).to_multiset() =~= b.to_multiset().remove(x));
        lemma_same_seats(a.remove(a.len() - 1), b.remove(i), live);
    }
}

proof fn lemma_live_listed(live: u32, k: int)
    requires
        0 <= k <= usize::MAX,
    ensures
        live_of(seat_list(k), live).len() == seats::seats_in(live, k),
    decreases k,
{
    if k > 0 {
        lemma_live_listed(live, k - 1);
        assert(seat_list(k).drop_last() =~= seat_list(k - 1));
        assert(seat_list(k).last() == k - 1);
    }
}

/// The order of play lists as many live seats as there are.
pub proof fn law_order_lists_live_seats<W: Num>(posts: Seq<W>, n: int, live: u32)
    requires
        0 <= n <= usize::MAX,
    ensures
        live_of(order_of(posts, n), live).len() == seats::seats_in(live, n),
{
    law_order_lists_every_seat(posts, n);
    lemma_same_seats(order_of(posts, n), seat_list(n), live);
    lemma_live_listed(live, n);
}

} // verus!
