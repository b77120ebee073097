//! One preflop betting round: who acts, what may be done, and what follows.

use crate::num;
use crate::messages;
use crate::messages::write_whole;
use crate::num::{integer, larger, magnitude, Num};
use crate::preflop;
use crate::preflop::{biggest_post, PreflopConfig};
use crate::seats;
use crate::seats::{full_table, is_seated, seat_in, seat_out};
use crate::strategy::copied;
use crate::text::{chars_of, push_all, string_of};
use vstd::prelude::*;

verus! {

/// Where a betting round stands.
pub struct BuildState<W> {
    /// What each seat has put in, antes and all.
    pub invested: Vec<W>,
    /// The seats that have folded.
    pub folded: u32,
    /// The seats that are all-in.
    pub allin: u32,
    /// The seats that still have to act.
    pub needs: u32,
    /// The bet to be met, antes aside.
    pub to_call: W,
    /// By how much the last raise raised.
    pub last_raise: W,
    /// How many raises there have been.
    pub raises: u8,
    /// The seats that have called since the last raise; limpers, where there
    /// was none.
    pub called: u32,
    /// The seat from which the next one to act is looked for.
    pub next_seat: usize,
}

/// A [`BuildState`] as a mathematical value.
pub ghost struct Round<W> {
    pub invested: Seq<W>,
    pub folded: u32,
    pub allin: u32,
    pub needs: u32,
    pub to_call: W,
    pub last_raise: W,
    pub raises: u8,
    pub called: u32,
    pub next_seat: int,
}

impl<W> View for BuildState<W> {
    type V = Round<W>;

    open spec fn view(&self) -> Round<W> {
        Round {
            invested: self.invested@,
            folded: self.folded,
            allin: self.allin,
            needs: self.needs,
            to_call: self.to_call,
            last_raise: self.last_raise,
            raises: self.raises,
            called: self.called,
            next_seat: self.next_seat as int,
        }
    }
}

/// Whether a round is one of a game with `n` seats.
pub open spec fn sits<W>(n: int, st: Round<W>) -> bool {
    &&& 2 <= n <= 9
    &&& st.invested.len() == n
    &&& 0 <= st.next_seat < n
}

/// What an action does.
#[derive(Debug, Clone, Copy, PartialEq, Eq, Structural)]
pub enum PKind {
    Fold,
    Check,
    Call,
    Raise,
    Jam,
}

impl PKind {
    pub open spec fn text(self) -> Seq<char> {
        match self {
            PKind::Fold => "fold"@,
            PKind::Check => "check"@,
            PKind::Call => "call"@,
            PKind::Raise => "raise"@,
            PKind::Jam => "jam"@,
        }
    }

    /// The word for the kind.
    pub fn name(&self) -> (r: &'static str)
        ensures
            r@ == self.text(),
    {
        match self {
            PKind::Fold => "fold",
            PKind::Check => "check",
            PKind::Call => "call",
            PKind::Raise => "raise",
            PKind::Jam => "jam",
        }
    }
}

/// An action: what it does, the bet it leads to, and what it is called.
pub struct PAction<W> {
    pub kind: PKind,
    pub to: W,
    pub label: String,
}

/// A [`PAction`] as a mathematical value.
pub ghost struct Act<W> {
    pub kind: PKind,
    pub to: W,
    pub label: Seq<char>,
}

impl<W> View for PAction<W> {
    type V = Act<W>;

    open spec fn view(&self) -> Act<W> {
        Act { kind: self.kind, to: self.to, label: self.label@ }
    }
}

/// Actions as mathematical values.
pub open spec fn acts<W>(v: Seq<PAction<W>>) -> Seq<Act<W>> {
    Seq::new(v.len(), |i: int| v[i]@)
}

// ---------------------------------------------------------------------------
// The round's start, and who acts
// ---------------------------------------------------------------------------

/// The round before anyone has acted.
pub open spec fn opening<W: Num>(cfg: PreflopConfig<W>, n: int) -> Round<W> {
    Round {
        invested: Seq::new(n as nat, |i: int| cfg.posts@[i].plus_spec(cfg.ante)),
        folded: 0,
        allin: 0,
        needs: seats::table_of(n),
        to_call: preflop::biggest(cfg.posts@),
        last_raise: num::larger_of(preflop::biggest(cfg.posts@), W::decimal_spec(1, 0)),
        raises: 0,
        called: 0,
        next_seat: 0,
    }
}

/// The round before anyone has acted.
pub fn root_state<W: Num>(cfg: &PreflopConfig<W>, n: usize) -> (r: BuildState<W>)
    requires
        2 <= n <= 9,
        cfg.posts@.len() == n,
    ensures
        r@ == opening(*cfg, n as int),
        sits(n as int, r@),
{
    let mut invested: Vec<W> = Vec::new();
    let mut i: usize = 0;
    while i < n
        invariant
            i <= n == cfg.posts@.len(),
            invested@ == opening(*cfg, n as int).invested.take(i as int),
        decreases n - i,
    {
        invested.push(cfg.posts[i].plus(cfg.ante));
        assert(invested@ =~= opening(*cfg, n as int).invested.take(i + 1));
        i = i + 1;
    }
    let top = biggest_post(&cfg.posts);
    let r = BuildState {
        invested,
        folded: 0,
        allin: 0,
        needs: full_table(n),
        to_call: top,
        last_raise: larger(top, W::decimal(1, 0)),
        raises: 0,
        called: 0,
        next_seat: 0,
    };
    assert(r@.invested =~= opening(*cfg, n as int).invested);
    r
}

/// Whether a seat still has to act.
pub open spec fn waits<W>(st: Round<W>, seat: int) -> bool {
    !seats::seated(st.folded, seat) && !seats::seated(st.allin, seat) && seats::seated(
        st.needs,
        seat,
    )
}

/// The first seat to act of those `k` or more places on from where the
/// search starts.
pub open spec fn waits_from<W>(n: int, st: Round<W>, k: int) -> Option<int>
    decreases n - k,
{
    if k >= n {
        None
    } else if waits(st, (st.next_seat + k) % n) {
        Some((st.next_seat + k) % n)
    } else {
        waits_from(n, st, k + 1)
    }
}

/// The seat to act, if any has to.
pub open spec fn actor_of<W>(n: int, st: Round<W>) -> Option<int> {
    waits_from(n, st, 0)
}

pub open spec fn seat_found(found: Option<usize>) -> Option<int> {
    match found {
        Some(seat) => Some(seat as int),
        None => None,
    }
}

/// [`actor_of`], computed.
pub fn next_actor_of<W>(n: usize, st: &BuildState<W>) -> (r: Option<usize>)
    requires
        sits(n as int, st@),
    ensures
        seat_found(r) == actor_of(n as int, st@),
        r is Some ==> r->0 < n && waits(st@, r->0 as int),
{
    let mut k: usize = 0;
    while k < n
        invariant
            sits(n as int, st@),
            k <= n,
            waits_from(n as int, st@, k as int) == actor_of(n as int, st@),
        decreases n - k,
    {
        let seat: usize = (st.next_seat + k) % n;
        if !is_seated(st.folded, seat) && !is_seated(st.allin, seat) && is_seated(st.needs, seat) {
            return Some(seat);
        }
        k = k + 1;
    }
    None
}

/// The seat to act has to act.
pub proof fn lemma_actor<W>(n: int, st: Round<W>, k: int)
    requires
        2 <= n <= 9,
        0 <= st.next_seat,
        0 <= k,
    ensures
        waits_from(n, st, k) is Some ==> 0 <= waits_from(n, st, k)->0 < n && waits(
            st,
            waits_from(n, st, k)->0,
        ),
    decreases n - k,
{
    if k < n {
        lemma_actor(n, st, k + 1);
    }
}

// ---------------------------------------------------------------------------
// What a seat faces
// ---------------------------------------------------------------------------

/// Nobody has entered the pot.
pub const BUCKET_UNOPENED: u8 = 0;

/// There are limpers, and no raise.
pub const BUCKET_VS_LIMPS: u8 = 1;

/// There is one raise, and nobody has called it.
pub const BUCKET_VS_RAISE: u8 = 2;

/// There is one raise, and somebody has called it.
pub const BUCKET_SQUEEZE: u8 = 3;

/// There are two raises or more.
pub const BUCKET_VS_3BET: u8 = 4;

/// How many situations are told apart.
pub const NUM_BUCKETS: usize = 5;

/// The situation that a seat faces, the way a player would describe it.
pub open spec fn situation<W>(st: Round<W>) -> u8 {
    if st.raises == 0 {
        if st.called == 0 {
            BUCKET_UNOPENED
        } else {
            BUCKET_VS_LIMPS
        }
    } else if st.raises == 1 {
        if st.called == 0 {
            BUCKET_VS_RAISE
        } else {
            BUCKET_SQUEEZE
        }
    } else {
        BUCKET_VS_3BET
    }
}

/// [`situation`], computed.
pub fn bucket_of<W>(st: &BuildState<W>) -> (r: u8)
    ensures
        r == situation(st@),
        r < NUM_BUCKETS,
{
    if st.raises == 0 {
        if st.called == 0 {
            BUCKET_UNOPENED
        } else {
            BUCKET_VS_LIMPS
        }
    } else if st.raises == 1 {
        if st.called == 0 {
            BUCKET_VS_RAISE
        } else {
            BUCKET_SQUEEZE
        }
    } else {
        BUCKET_VS_3BET
    }
}

// ---------------------------------------------------------------------------
// What may be done
// ---------------------------------------------------------------------------

/// An amount without decimal places where it is whole, else with one.
pub open spec fn amount_text<W: Num>(x: W) -> Seq<char> {
    if num::magnitude_of(x.minus_spec(x.rounded_spec())).below_spec(W::decimal_spec(1, 9)) {
        messages::whole_text(num::integer_of(x.rounded_spec()) as int)
    } else {
        x.fixed_spec(1)
    }
}

/// [`amount_text`], computed.
pub fn trim<W: Num>(x: W) -> (r: String)
    ensures
        r@ == amount_text(x),
{
    let whole = x.rounded();
    if magnitude(x.minus(whole)).below(W::decimal(1, 9)) {
        string_of(&write_whole(integer(whole)))
    } else {
        x.fixed(1)
    }
}

fn labelled<W: Num>(word: &str, x: W) -> (r: String)
    ensures
        r@ == word@ + amount_text(x),
{
    let mut out = chars_of(word);
    let tail = trim(x);
    push_all(&mut out, &chars_of(tail.as_str()));
    string_of(&out)
}

fn text(word: &str) -> (r: String)
    ensures
        r@ == word@,
{
    string_of(&chars_of(word))
}

/// What the seat to act has to add to stay in; never negative.
pub open spec fn owed<W: Num>(cfg: PreflopConfig<W>, st: Round<W>, actor: int) -> W {
    num::larger_of(
        W::decimal_spec(0, 0),
        st.to_call.minus_spec(st.invested[actor].minus_spec(cfg.ante)),
    )
}

/// What may be done short of a raise.
pub open spec fn passive<W: Num>(cfg: PreflopConfig<W>, st: Round<W>, actor: int) -> Seq<Act<W>> {
    if W::decimal_spec(1, 9).below_spec(owed(cfg, st, actor)) {
        let fold = Act { kind: PKind::Fold, to: W::decimal_spec(0, 0), label: "Fold"@ };
        if st.raises > 0 || cfg.limp {
            seq![
                fold,
                Act {
                    kind: PKind::Call,
                    to: st.to_call,
                    label: (if st.raises == 0 {
                        "Limp "@
                    } else {
                        "Call "@
                    }) + amount_text(st.to_call),
                },
            ]
        } else {
            seq![fold]
        }
    } else {
        seq![Act { kind: PKind::Check, to: st.to_call, label: "Check"@ }]
    }
}

/// The amounts that the game's menu would raise to, legal or not.
pub open spec fn menu<W: Num>(cfg: PreflopConfig<W>, st: Round<W>, actor: int) -> Seq<W> {
    let sizes = if st.raises == 0 {
        cfg.opens(actor)
    } else {
        let mults = cfg.mults(actor);
        Seq::new(
            mults.len(),
            |i: int|
                num::larger_of(
                    st.to_call.times_spec(mults[i]),
                    st.to_call.plus_spec(st.last_raise),
                ),
        )
    };
    if cfg.add_allin {
        sizes.push(cfg.stack)
    } else {
        sizes
    }
}

/// An amount near enough to the stack is the stack.
pub open spec fn capped<W: Num>(cfg: PreflopConfig<W>, to: W) -> W {
    if cfg.allin_threshold.times_spec(cfg.stack).at_most_spec(to) {
        cfg.stack
    } else {
        to
    }
}

/// Whether two amounts pass for the same.
pub open spec fn near<W: Num>(a: W, b: W) -> bool {
    num::magnitude_of(a.minus_spec(b)).below_spec(W::decimal_spec(1, 9))
}

pub open spec fn near_some<W: Num>(seen: Seq<W>, to: W) -> bool {
    exists|i: int| 0 <= i < seen.len() && near(#[trigger] seen[i], to)
}

/// The amounts of a menu that are raises, each once, in the menu's order.
pub open spec fn offered<W: Num>(cfg: PreflopConfig<W>, to_call: W, tos: Seq<W>) -> Seq<W>
    decreases tos.len(),
{
    if tos.len() == 0 {
        Seq::empty()
    } else {
        let seen = offered(cfg, to_call, tos.drop_last());
        let to = capped(cfg, tos.last());
        if to.at_most_spec(to_call.plus_spec(W::decimal_spec(1, 9))) || near_some(seen, to) {
            seen
        } else {
            seen.push(to)
        }
    }
}

/// The action that raises to an amount.
pub open spec fn raise_act<W: Num>(cfg: PreflopConfig<W>, raises: u8, to: W) -> Act<W> {
    if near(to, cfg.stack) {
        Act { kind: PKind::Jam, to, label: "All-in "@ + amount_text(to) }
    } else if raises == 0 {
        Act { kind: PKind::Raise, to, label: "Raise "@ + amount_text(to) }
    } else {
        Act {
            kind: PKind::Raise,
            to,
            label: messages::whole_text(raises + 2) + "-bet "@ + amount_text(
                to,
            ),
        }
    }
}

/// The raises that the seat to act may make.
pub open spec fn raising<W: Num>(cfg: PreflopConfig<W>, st: Round<W>, actor: int) -> Seq<Act<W>> {
    if st.raises < cfg.max_raises && !cfg.calls_only(actor) {
        let tos = offered(cfg, st.to_call, menu(cfg, st, actor));
        Seq::new(tos.len(), |i: int| raise_act(cfg, st.raises, tos[i]))
    } else {
        Seq::empty()
    }
}

/// What the seat to act may do.
pub open spec fn legal<W: Num>(cfg: PreflopConfig<W>, st: Round<W>, actor: int) -> Seq<Act<W>> {
    passive(cfg, st, actor) + raising(cfg, st, actor)
}

fn passive_actions<W: Num>(cfg: &PreflopConfig<W>, st: &BuildState<W>, actor: usize) -> (r: Vec<
    PAction<W>,
>)
    requires
        actor < st.invested@.len(),
    ensures
        acts(r@) == passive(*cfg, st@, actor as int),
{
    let due = larger(
        W::decimal(0, 0),
        st.to_call.minus(st.invested[actor].minus(cfg.ante)),
    );
    let mut out: Vec<PAction<W>> = Vec::new();
    if W::decimal(1, 9).below(due) {
        out.push(PAction { kind: PKind::Fold, to: W::decimal(0, 0), label: text("Fold") });
        if st.raises > 0 || cfg.limp {
            let word = if st.raises == 0 {
                "Limp "
            } else {
                "Call "
            };
            out.push(
                PAction { kind: PKind::Call, to: st.to_call, label: labelled(word, st.to_call) },
            );
        }
    } else {
        out.push(PAction { kind: PKind::Check, to: st.to_call, label: text("Check") });
    }
    assert(acts(out@) =~= passive(*cfg, st@, actor as int));
    out
}

fn menu_of<W: Num>(cfg: &PreflopConfig<W>, st: &BuildState<W>, actor: usize) -> (r: Vec<W>)
    ensures
        r@ == menu(*cfg, st@, actor as int),
{
    let mut out: Vec<W>;
    if st.raises == 0 {
        out = copied(cfg.opens_of(actor).as_slice());
    } else {
        let mults = cfg.mults_of(actor);
        out = Vec::new();
        let least = st.to_call.plus(st.last_raise);
        let mut i: usize = 0;
        while i < mults.len()
            invariant
                i <= mults@.len(),
                least == st.to_call.plus_spec(st.last_raise),
                out@ == Seq::new(
                    i as nat,
                    |j: int| num::larger_of(st.to_call.times_spec(mults@[j]), least),
                ),
            decreases mults@.len() - i,
        {
            out.push(larger(st.to_call.times(mults[i]), least));
            assert(out@ =~= Seq::new(
                (i + 1) as nat,
                |j: int| num::larger_of(st.to_call.times_spec(mults@[j]), least),
            ));
            i = i + 1;
        }
    }
    if cfg.add_allin {
        out.push(cfg.stack);
    }
    assert(out@ =~= menu(*cfg, st@, actor as int));
    out
}

fn is_near_some<W: Num>(seen: &Vec<W>, to: W) -> (r: bool)
    ensures
        r == near_some(seen@, to),
{
    let mut i: usize = 0;
    while i < seen.len()
        invariant
            i <= seen@.len(),
            forall|j: int| 0 <= j < i ==> !near(#[trigger] seen@[j], to),
        decreases seen@.len() - i,
    {
        if magnitude(seen[i].minus(to)).below(W::decimal(1, 9)) {
            assert(near(seen@[i as int], to));
            return true;
        }
        i = i + 1;
    }
    false
}

fn raise_action<W: Num>(cfg: &PreflopConfig<W>, raises: u8, to: W) -> (r: PAction<W>)
    ensures
        r@ == raise_act(*cfg, raises, to),
{
    if magnitude(to.minus(cfg.stack)).below(W::decimal(1, 9)) {
        PAction { kind: PKind::Jam, to, label: labelled("All-in ", to) }
    } else if raises == 0 {
        PAction { kind: PKind::Raise, to, label: labelled("Raise ", to) }
    } else {
        let mut label = write_whole(raises as i64 + 2);
        push_all(&mut label, &chars_of("-bet "));
        let tail = trim(to);
        push_all(&mut label, &chars_of(tail.as_str()));
        PAction { kind: PKind::Raise, to, label: string_of(&label) }
    }
}

/// What the seat to act may do: one source for the tree that is built and
/// for the one that is only counted. Antes are dead money: only what is put
/// in beyond them counts towards the bet.
pub fn legal_actions_of<W: Num>(cfg: &PreflopConfig<W>, st: &BuildState<W>, actor: usize) -> (r:
    Vec<PAction<W>>)
    requires
        actor < st.invested@.len(),
    ensures
        acts(r@) == legal(*cfg, st@, actor as int),
{
    let mut out = passive_actions(cfg, st, actor);
    if st.raises < cfg.max_raises && !cfg.is_call_only(actor) {
        let tos = menu_of(cfg, st, actor);
        let bar = st.to_call.plus(W::decimal(1, 9));
        let line = cfg.allin_threshold.times(cfg.stack);
        let mut seen: Vec<W> = Vec::new();
        let ghost base = acts(out@);
        let mut i: usize = 0;
        assert(tos@.take(0) =~= Seq::<W>::empty());
        assert(acts(out@) =~= base + Seq::new(
            0,
            |k: int| raise_act(*cfg, st.raises, seen@[k]),
        ));
        while i < tos.len()
            invariant
                i <= tos@.len(),
                tos@ == menu(*cfg, st@, actor as int),
                bar == st.to_call.plus_spec(W::decimal_spec(1, 9)),
                line == cfg.allin_threshold.times_spec(cfg.stack),
                seen@ == offered(*cfg, st.to_call, tos@.take(i as int)),
                acts(out@) == base + Seq::new(
                    seen@.len(),
                    |k: int| raise_act(*cfg, st.raises, seen@[k]),
                ),
            decreases tos@.len() - i,
        {
            assert(tos@.take(i + 1).drop_last() =~= tos@.take(i as int));
            let to = if line.at_most(tos[i]) {
                cfg.stack
            } else {
                tos[i]
            };
            if !to.at_most(bar) && !is_near_some(&seen, to) {
                let ghost prev = seen@;
                let ghost done = out@;
                seen.push(to);
                out.push(raise_action(cfg, st.raises, to));
                assert(acts(out@) =~= acts(done).push(raise_act(*cfg, st.raises, to)));
                assert(acts(out@) =~= base + Seq::new(
                    seen@.len(),
                    |k: int| raise_act(*cfg, st.raises, seen@[k]),
                ));
            }
            i = i + 1;
        }
        assert(tos@.take(tos@.len() as int) =~= tos@);
        assert(acts(out@) =~= legal(*cfg, st@, actor as int));
    } else {
        assert(acts(out@) =~= legal(*cfg, st@, actor as int));
    }
    out
}

// ---------------------------------------------------------------------------
// What follows
// ---------------------------------------------------------------------------

/// The round after the seat to act has acted.
pub open spec fn after<W: Num>(
    cfg: PreflopConfig<W>,
    n: int,
    st: Round<W>,
    actor: int,
    act: Act<W>,
) -> Round<W> {
    let next_seat = (actor + 1) % n;
    let needs = seats::without(st.needs, actor);
    match act.kind {
        PKind::Fold => Round { folded: seats::with(st.folded, actor), needs, next_seat, ..st },
        PKind::Check | PKind::Call => Round {
            invested: st.invested.update(actor, st.to_call.plus_spec(cfg.ante)),
            allin: if near(st.to_call, cfg.stack) {
                seats::with(st.allin, actor)
            } else {
                st.allin
            },
            needs,
            called: if act.kind is Call {
                seats::with(st.called, actor)
            } else {
                st.called
            },
            next_seat,
            ..st
        },
        PKind::Raise | PKind::Jam => {
            let allin = if near(act.to, cfg.stack) {
                seats::with(st.allin, actor)
            } else {
                st.allin
            };
            Round {
                invested: st.invested.update(actor, act.to.plus_spec(cfg.ante)),
                folded: st.folded,
                allin,
                needs: seats::without(seats::table_of(n) & !st.folded & !allin, actor),
                to_call: act.to,
                last_raise: act.to.minus_spec(st.to_call),
                raises: (st.raises + 1) as u8,
                called: 0,
                next_seat,
            }
        },
    }
}

/// [`after`], computed. A raise asks every live seat to act again.
pub fn next_state_of<W: Num>(
    cfg: &PreflopConfig<W>,
    n: usize,
    st: &BuildState<W>,
    actor: usize,
    a: &PAction<W>,
) -> (r: BuildState<W>)
    requires
        sits(n as int, st@),
        actor < n,
        (a.kind is Raise || a.kind is Jam) ==> st.raises < 255,
    ensures
        r@ == after(*cfg, n as int, st@, actor as int, a@),
        sits(n as int, r@),
{
    let mut invested = copied(st.invested.as_slice());
    let next_seat: usize = (actor + 1) % n;
    let needs = seat_out(st.needs, actor);
    match a.kind {
        PKind::Fold => BuildState {
            invested,
            folded: seat_in(st.folded, actor),
            allin: st.allin,
            needs,
            to_call: st.to_call,
            last_raise: st.last_raise,
            raises: st.raises,
            called: st.called,
            next_seat,
        },
        PKind::Check | PKind::Call => {
            invested.set(actor, st.to_call.plus(cfg.ante));
            BuildState {
                invested,
                folded: st.folded,
                allin: if magnitude(st.to_call.minus(cfg.stack)).below(W::decimal(1, 9)) {
                    seat_in(st.allin, actor)
                } else {
                    st.allin
                },
                needs,
                to_call: st.to_call,
                last_raise: st.last_raise,
                raises: st.raises,
                called: if a.kind == PKind::Call {
                    seat_in(st.called, actor)
                } else {
                    st.called
                },
                next_seat,
            }
        },
        PKind::Raise | PKind::Jam => {
            invested.set(actor, a.to.plus(cfg.ante));
            let allin = if magnitude(a.to.minus(cfg.stack)).below(W::decimal(1, 9)) {
                seat_in(st.allin, actor)
            } else {
                st.allin
            };
            BuildState {
                invested,
                folded: st.folded,
                allin,
                needs: seat_out(full_table(n) & !st.folded & !allin, actor),
                to_call: a.to,
                last_raise: a.to.minus(st.to_call),
                raises: st.raises + 1,
                called: 0,
                next_seat,
            }
        },
    }
}

/// Whether a round is closer to its end than another: more raises have been
/// made, or as many and fewer seats have still to act.
pub open spec fn nearer_end<W: Num>(
    cfg: PreflopConfig<W>,
    n: int,
    later: Round<W>,
    st: Round<W>,
) -> bool {
    ||| st.raises < later.raises <= cfg.max_raises
    ||| st.raises == later.raises && seats::seats_in(later.needs, n) < seats::seats_in(st.needs, n)
}

/// Raises are offered only while there may be more of them.
pub proof fn lemma_legal_raise<W: Num>(
    cfg: PreflopConfig<W>,
    st: Round<W>,
    actor: int,
    k: int,
)
    requires
        0 <= k < legal(cfg, st, actor).len(),
        legal(cfg, st, actor)[k].kind is Raise || legal(cfg, st, actor)[k].kind is Jam,
    ensures
        st.raises < cfg.max_raises,
{
    assert(k >= passive(cfg, st, actor).len());
}

/// Every action brings the round closer to its end.
pub proof fn lemma_nearer_end<W: Num>(
    cfg: PreflopConfig<W>,
    n: int,
    st: Round<W>,
    actor: int,
    k: int,
)
    requires
        sits(n, st),
        actor_of(n, st) == Some(actor),
        0 <= k < legal(cfg, st, actor).len(),
    ensures
        sits(n, after(cfg, n, st, actor, legal(cfg, st, actor)[k])),
        nearer_end(cfg, n, after(cfg, n, st, actor, legal(cfg, st, actor)[k]), st),
{
    lemma_actor(n, st, 0);
    seats::lemma_one_fewer(st.needs, actor, n);
    let act = legal(cfg, st, actor)[k];
    if act.kind is Raise || act.kind is Jam {
        lemma_legal_raise(cfg, st, actor, k);
    }
}

} // verus!
