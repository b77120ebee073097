//! How a seat is modelled: what a player does in each situation that the
//! player can face.

use crate::betting;
use crate::betting::{Act, PAction, PKind, NUM_BUCKETS};
use crate::classes::NUM_CLASSES;
use crate::num;
use crate::num::{larger, Num};
use crate::profile;
use crate::profile::PostflopStats;
use crate::strategy;
use crate::strategy::{copied, normalize};
use vstd::prelude::*;

verus! {

/// Which raise a player makes.
#[derive(Debug, Clone, Copy, PartialEq, Eq, Structural)]
pub enum RaiseSize {
    Min,
    Max,
    Jam,
}

/// What a player does in one situation: how often each class calls, raises
/// and jams. What is left of it folds, or checks where that costs nothing.
#[derive(Debug, Clone)]
pub struct BucketPolicy<S> {
    pub call: Vec<S>,
    pub raise: Vec<S>,
    pub jam: Vec<S>,
    pub raise_size: RaiseSize,
}

/// A player: what is known of the play before the flop, situation by
/// situation, and of the play after it.
#[derive(Debug, Clone)]
pub struct SeatProfile<S> {
    pub name: String,
    pub buckets: Vec<Option<BucketPolicy<S>>>,
    pub postflop: Option<PostflopStats<S>>,
}

/// Whether two policies say the same.
pub open spec fn same_policy<S>(a: BucketPolicy<S>, b: BucketPolicy<S>) -> bool {
    &&& a.call@ == b.call@
    &&& a.raise@ == b.raise@
    &&& a.jam@ == b.jam@
    &&& a.raise_size == b.raise_size
}

/// Whether two places for a policy say the same.
pub open spec fn same_choice<S>(a: Option<BucketPolicy<S>>, b: Option<BucketPolicy<S>>) -> bool {
    match (a, b) {
        (Some(p), Some(q)) => same_policy(p, q),
        (None, None) => true,
        _ => false,
    }
}

/// Whether two players are the same.
pub open spec fn same_profile<S>(a: SeatProfile<S>, b: SeatProfile<S>) -> bool {
    &&& a.name@ == b.name@
    &&& a.buckets@.len() == b.buckets@.len()
    &&& forall|k: int|
        0 <= k < a.buckets@.len() ==> same_choice(#[trigger] a.buckets@[k], b.buckets@[k])
    &&& match (a.postflop, b.postflop) {
        (Some(s), Some(t)) => profile::same_stats(s, t),
        (None, None) => true,
        _ => false,
    }
}

/// Whether two tables seat the same players.
pub open spec fn same_profiles<S>(
    a: Seq<Option<SeatProfile<S>>>,
    b: Seq<Option<SeatProfile<S>>>,
) -> bool {
    &&& a.len() == b.len()
    &&& forall|q: int|
        0 <= q < a.len() ==> match (#[trigger] a[q], b[q]) {
            (Some(s), Some(t)) => same_profile(s, t),
            (None, None) => true,
            _ => false,
        }
}

impl<S: Copy> BucketPolicy<S> {
    /// A policy that says the same.
    pub fn duplicate(&self) -> (r: Self)
        ensures
            same_policy(r, *self),
    {
        BucketPolicy {
            call: copied(self.call.as_slice()),
            raise: copied(self.raise.as_slice()),
            jam: copied(self.jam.as_slice()),
            raise_size: self.raise_size,
        }
    }
}

impl<S: Copy> SeatProfile<S> {
    /// The same player.
    pub fn duplicate(&self) -> (r: Self)
        ensures
            same_profile(r, *self),
    {
        let mut buckets: Vec<Option<BucketPolicy<S>>> = Vec::new();
        let mut k: usize = 0;
        while k < self.buckets.len()
            invariant
                k <= self.buckets@.len(),
                buckets@.len() == k,
                forall|i: int|
                    0 <= i < k ==> same_choice(#[trigger] buckets@[i], self.buckets@[i]),
            decreases self.buckets@.len() - k,
        {
            match &self.buckets[k] {
                Some(policy) => buckets.push(Some(policy.duplicate())),
                None => buckets.push(None),
            }
            k = k + 1;
        }
        let postflop = match &self.postflop {
            Some(stats) => Some(stats.duplicate()),
            None => None,
        };
        SeatProfile { name: self.name.clone(), buckets, postflop }
    }
}

/// The same players, seat by seat.
pub fn copy_profiles<S: Copy>(profiles: &Vec<Option<SeatProfile<S>>>) -> (r: Vec<
    Option<SeatProfile<S>>,
>)
    ensures
        same_profiles(r@, profiles@),
{
    let mut out: Vec<Option<SeatProfile<S>>> = Vec::new();
    let mut q: usize = 0;
    while q < profiles.len()
        invariant
            q <= profiles@.len(),
            out@.len() == q,
            forall|x: int|
                0 <= x < q ==> match (#[trigger] out@[x], profiles@[x]) {
                    (Some(s), Some(t)) => same_profile(s, t),
                    (None, None) => true,
                    _ => false,
                },
        decreases profiles@.len() - q,
    {
        match &profiles[q] {
            Some(profile) => out.push(Some(profile.duplicate())),
            None => out.push(None),
        }
        q = q + 1;
    }
    out
}

impl<S> BucketPolicy<S> {
    /// Whether there is a frequency for every class.
    pub open spec fn wf(self) -> bool {
        self.call@.len() == 169 && self.raise@.len() == 169 && self.jam@.len() == 169
    }

    /// [`Self::wf`], computed.
    pub fn is_wf(&self) -> (r: bool)
        ensures
            r == self.wf(),
    {
        self.call.len() == NUM_CLASSES && self.raise.len() == NUM_CLASSES && self.jam.len()
            == NUM_CLASSES
    }
}

impl<S> SeatProfile<S> {
    /// Whether there is a place for every situation, and every policy is
    /// well-formed.
    pub open spec fn wf(self) -> bool {
        &&& self.buckets@.len() == NUM_BUCKETS
        &&& forall|b: int|
            0 <= b < NUM_BUCKETS && (#[trigger] self.buckets@[b]) is Some
                ==> self.buckets@[b]->0.wf()
    }

    /// Whether there is a policy for every situation.
    pub open spec fn complete(self) -> bool {
        forall|b: int| 0 <= b < NUM_BUCKETS ==> (#[trigger] self.buckets@[b]) is Some
    }

    /// [`Self::wf`], computed.
    pub fn is_wf(&self) -> (r: bool)
        ensures
            r == self.wf(),
    {
        if self.buckets.len() != NUM_BUCKETS {
            return false;
        }
        let mut b: usize = 0;
        while b < NUM_BUCKETS
            invariant
                b <= NUM_BUCKETS,
                self.buckets@.len() == NUM_BUCKETS,
                forall|x: int|
                    0 <= x < b && (#[trigger] self.buckets@[x]) is Some
                        ==> self.buckets@[x]->0.wf(),
            decreases NUM_BUCKETS - b,
        {
            match &self.buckets[b] {
                Some(policy) => {
                    if !policy.is_wf() {
                        assert(self.buckets@[b as int] is Some);
                        return false;
                    }
                },
                None => {},
            }
            b = b + 1;
        }
        true
    }

    /// [`Self::complete`], computed.
    pub fn is_complete(&self) -> (r: bool)
        requires
            self.wf(),
        ensures
            r == self.complete(),
    {
        let mut b: usize = 0;
        while b < NUM_BUCKETS
            invariant
                b <= NUM_BUCKETS,
                self.buckets@.len() == NUM_BUCKETS,
                forall|x: int| 0 <= x < b ==> (#[trigger] self.buckets@[x]) is Some,
            decreases NUM_BUCKETS - b,
        {
            if self.buckets[b].is_none() {
                return false;
            }
            b = b + 1;
        }
        true
    }
}

// ---------------------------------------------------------------------------
// What a policy comes to at a node
// ---------------------------------------------------------------------------

/// The first action of a kind among those from the `from`-th on.
pub open spec fn first_of<W>(acts: Seq<Act<W>>, kind: PKind, from: int) -> Option<int>
    decreases acts.len() - from,
{
    if from < 0 || from >= acts.len() {
        None
    } else if acts[from].kind == kind {
        Some(from)
    } else {
        first_of(acts, kind, from + 1)
    }
}

/// The smallest raise short of a jam among the first `k` actions, or the
/// largest; of equals the first.
pub open spec fn raise_among<W: Num>(acts: Seq<Act<W>>, most: bool, k: int) -> Option<int>
    decreases k,
{
    if k <= 0 {
        None
    } else {
        let before = raise_among(acts, most, k - 1);
        let act = acts[k - 1];
        if act.kind is Raise && match before {
            None => true,
            Some(i) => if most {
                acts[i].to.below_spec(act.to)
            } else {
                act.to.below_spec(acts[i].to)
            },
        } {
            Some(k - 1)
        } else {
            before
        }
    }
}

/// The first of two where there is one, else the second.
pub open spec fn or_else(a: Option<int>, b: int) -> int {
    match a {
        Some(i) => i,
        None => b,
    }
}

/// The action that calls, or checks; the first one where neither can be done.
pub open spec fn call_line<W>(acts: Seq<Act<W>>) -> int {
    or_else(first_of(acts, PKind::Call, 0), or_else(first_of(acts, PKind::Check, 0), 0))
}

/// The action that jams; the largest raise where there is no jam, and a call
/// where there is no raise.
pub open spec fn jam_line<W: Num>(acts: Seq<Act<W>>) -> int {
    or_else(
        first_of(acts, PKind::Jam, 0),
        or_else(raise_among(acts, true, acts.len() as int), call_line(acts)),
    )
}

/// The action that raises by a size; a jam where there is no raise.
pub open spec fn raise_line<W: Num>(acts: Seq<Act<W>>, size: RaiseSize) -> int {
    match size {
        RaiseSize::Min => or_else(
            raise_among(acts, false, acts.len() as int),
            jam_line(acts),
        ),
        RaiseSize::Max => or_else(raise_among(acts, true, acts.len() as int), jam_line(acts)),
        RaiseSize::Jam => jam_line(acts),
    }
}

/// What is left of a class for the first action, which folds or checks.
pub open spec fn left_over<S: Num>(policy: BucketPolicy<S>, h: int) -> S {
    num::larger_of(
        S::decimal_spec(0, 0),
        S::decimal_spec(1, 0).minus_spec(
            policy.call@[h].plus_spec(policy.raise@[h]).plus_spec(policy.jam@[h]),
        ),
    )
}

pub open spec fn share_if<S: Num>(here: bool, x: S) -> S {
    if here {
        x
    } else {
        S::decimal_spec(0, 0)
    }
}

/// What class `h` puts on action `a`.
pub open spec fn put_on<W: Num, S: Num>(
    acts: Seq<Act<W>>,
    policy: BucketPolicy<S>,
    a: int,
    h: int,
) -> S {
    share_if(a == 0, left_over(policy, h)).plus_spec(
        share_if(a == call_line(acts), policy.call@[h]),
    ).plus_spec(
        share_if(a == raise_line(acts, policy.raise_size), policy.raise@[h]),
    ).plus_spec(share_if(a == jam_line(acts), policy.jam@[h]))
}

/// The strategy that a policy comes to where these actions can be taken.
pub open spec fn played_by<W: Num, S: Num>(acts: Seq<Act<W>>, policy: BucketPolicy<S>) -> Seq<S> {
    strategy::normalized(
        Seq::new(acts.len() * 169, |k: int| put_on(acts, policy, k / 169, k % 169)),
        acts.len() as int,
        169,
    )
}

fn find_first<W>(actions: &Vec<PAction<W>>, kind: PKind) -> (r: Option<usize>)
    ensures
        match r {
            Some(i) => i < actions@.len() && first_of(betting::acts(actions@), kind, 0) == Some(
                i as int,
            ),
            None => first_of(betting::acts(actions@), kind, 0) is None,
        },
{
    let ghost acts = betting::acts(actions@);
    let mut i: usize = 0;
    while i < actions.len()
        invariant
            i <= actions@.len(),
            acts == betting::acts(actions@),
            first_of(acts, kind, 0) == first_of(acts, kind, i as int),
        decreases actions@.len() - i,
    {
        assert(acts[i as int] == actions@[i as int]@);
        if actions[i].kind == kind {
            return Some(i);
        }
        i = i + 1;
    }
    None
}

fn find_raise<W: Num>(actions: &Vec<PAction<W>>, most: bool) -> (r: Option<usize>)
    ensures
        ({
            let found = raise_among(betting::acts(actions@), most, actions@.len() as int);
            match r {
                Some(i) => i < actions@.len() && found == Some(i as int),
                None => found is None,
            }
        }),
{
    let ghost acts = betting::acts(actions@);
    let mut found: Option<usize> = None;
    let mut k: usize = 0;
    while k < actions.len()
        invariant
            k <= actions@.len(),
            acts == betting::acts(actions@),
            match found {
                Some(i) => i < k && raise_among(acts, most, k as int) == Some(i as int),
                None => raise_among(acts, most, k as int) is None,
            },
        decreases actions@.len() - k,
    {
        assert(acts[k as int] == actions@[k as int]@);
        if actions[k].kind == PKind::Raise {
            let better = match found {
                None => true,
                Some(i) => {
                    assert(acts[i as int] == actions@[i as int]@);
                    if most {
                        actions[i].to.below(actions[k].to)
                    } else {
                        actions[k].to.below(actions[i].to)
                    }
                },
            };
            if better {
                found = Some(k);
            }
        }
        k = k + 1;
    }
    found
}

fn one_of(a: Option<usize>, b: usize) -> (r: usize)
    ensures
        r == match a {
            Some(i) => i,
            None => b,
        },
{
    match a {
        Some(i) => i,
        None => b,
    }
}

fn share<S: Num>(here: bool, x: S) -> (r: S)
    ensures
        r == share_if(here, x),
{
    if here {
        x
    } else {
        S::decimal(0, 0)
    }
}

impl<S: Num> BucketPolicy<S> {
    /// [`played_by`], computed.
    pub fn strategy<W: Num>(&self, actions: &Vec<PAction<W>>) -> (r: Vec<S>)
        requires
            self.wf(),
            1 <= actions@.len(),
            actions@.len() * 169 <= usize::MAX,
        ensures
            r@ == played_by(betting::acts(actions@), *self),
            r@.len() == actions@.len() * 169,
    {
        let ghost acts = betting::acts(actions@);
        let na: usize = actions.len();
        let call = one_of(
            find_first(actions, PKind::Call),
            one_of(find_first(actions, PKind::Check), 0),
        );
        let most = find_raise(actions, true);
        let jam = one_of(find_first(actions, PKind::Jam), one_of(most, call));
        let raise = match self.raise_size {
            RaiseSize::Min => one_of(find_raise(actions, false), jam),
            RaiseSize::Max => one_of(most, jam),
            RaiseSize::Jam => jam,
        };
        assert(call == call_line(acts) && jam == jam_line(acts) && raise == raise_line(
            acts,
            self.raise_size,
        ));
        let ghost want = Seq::new(acts.len() * 169, |k: int| put_on(acts, *self, k / 169, k % 169));
        let mut out: Vec<S> = Vec::new();
        let count: usize = na * NUM_CLASSES;
        let mut k: usize = 0;
        while k < count
            invariant
                k <= count == acts.len() * 169,
                self.wf(),
                acts == betting::acts(actions@),
                call == call_line(acts),
                jam == jam_line(acts),
                raise == raise_line(acts, self.raise_size),
                want == Seq::new(
                    acts.len() * 169,
                    |k: int| put_on(acts, *self, k / 169, k % 169),
                ),
                out@ == want.take(k as int),
            decreases count - k,
        {
            let a: usize = k / 169;
            let h: usize = k % 169;
            let rest = larger(
                S::decimal(0, 0),
                S::decimal(1, 0).minus(self.call[h].plus(self.raise[h]).plus(self.jam[h])),
            );
            let put = share(a == 0, rest).plus(share(a == call, self.call[h])).plus(
                share(a == raise, self.raise[h]),
            ).plus(share(a == jam, self.jam[h]));
            out.push(put);
            assert(out@ =~= want.take(k + 1));
            k = k + 1;
        }
        assert(out@ =~= want);
        normalize(out.as_slice(), na, NUM_CLASSES)
    }
}

} // verus!
