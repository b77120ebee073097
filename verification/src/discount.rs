//! Discounting: how much of what was learnt counts on after an iteration.

use crate::num::{Num, Single};
use vstd::prelude::*;

verus! {

/// The weight that positive regrets keep after iteration `t`:
/// `t^1.5 / (t^1.5 + 1)`.
pub open spec fn regret_keep<S: Single>(t: u32) -> S {
    let time = S::Wide::decimal_spec(t as i64, 0);
    let power = time.times_spec(time.root_spec());
    S::narrowed_spec(power.over_spec(power.plus_spec(S::Wide::decimal_spec(1, 0))))
}

/// The weight that strategy sums keep after iteration `t`: the square of
/// `t / (t + 1)`.
pub open spec fn sum_keep<S: Single>(t: u32) -> S {
    let time = S::Wide::decimal_spec(t as i64, 0);
    let part = time.over_spec(time.plus_spec(S::Wide::decimal_spec(1, 0)));
    S::narrowed_spec(part.times_spec(part))
}

/// A regret discounted after iteration `t`; one that is not positive keeps a
/// half.
pub open spec fn worn<S: Single>(regret: S, t: u32) -> S {
    regret.times_spec(
        if S::decimal_spec(0, 0).below_spec(regret) {
            regret_keep::<S>(t)
        } else {
            S::decimal_spec(5, 1)
        },
    )
}

/// The weights of an iteration.
pub struct Discount<S> {
    pub regret: S,
    pub sum: S,
}

impl<S: Single> Discount<S> {
    pub open spec fn of(&self, t: u32) -> bool {
        self.regret == regret_keep::<S>(t) && self.sum == sum_keep::<S>(t)
    }

    /// The weights of iteration `t`.
    pub fn after(t: u32) -> (r: Self)
        ensures
            r.of(t),
    {
        let one = S::Wide::decimal(1, 0);
        let time = S::Wide::decimal(t as i64, 0);
        let power = time.times(time.root());
        let part = time.over(time.plus(one));
        Discount {
            regret: S::narrowed(power.over(power.plus(one))),
            sum: S::narrowed(part.times(part)),
        }
    }

    /// [`worn`], computed.
    pub(crate) fn wear(&self, regret: S, Ghost(t): Ghost<u32>) -> (r: S)
        requires
            self.of(t),
        ensures
            r == worn(regret, t),
    {
        regret.times(
            if S::decimal(0, 0).below(regret) {
                self.regret
            } else {
                S::decimal(5, 1)
            },
        )
    }
}

} // verus!
