//! What edits of a decision do, and what a best response plays, in exact
//! numbers.

use crate::cards;
use crate::cfr::Solver;
use crate::exploit;
use crate::game::HandInfo;
use crate::locks;
use crate::locks::{HandEdit, LockMode};
use crate::nano;
use crate::nano::{Nano, BILLION};
use crate::num;
use crate::num::{Num, Single};
use crate::path::{Place, QueryFault};
use crate::play_laws;
use crate::rake;
use crate::strategy;
use crate::weigh_laws::size;
use vstd::prelude::*;

verus! {

// ---------------------------------------------------------------------------
// Locks
// ---------------------------------------------------------------------------

/// Law: given frequencies are read in proportion: each counts for its share of
/// their sum, down to a billionth.
pub proof fn law_read_frequencies_keep_proportions(freqs: Seq<Nano>, na: int, a: int)
    requires
        rake::freqs_read(freqs, na) is Ok,
        play_laws::counted(freqs) <= i64::MAX,
        0 <= a < na,
    ensures
        freqs.len() == na,
        rake::freqs_read(freqs, na)->Ok_0.len() == na,
        0 < play_laws::counted(freqs),
        ({
            let q = rake::freqs_read(freqs, na)->Ok_0[a].count;
            let t = play_laws::counted(freqs);
            0 <= freqs[a].count * BILLION - q * t < t
        }),
{
    let q = rake::freqs_read(freqs, na)->Ok_0;
    assert(nano::ten_to(0) == 1);
    assert(nano::ten_to(9) == 1_000_000_000) by {
        reveal_with_fuel(nano::ten_to, 10);
    }
    assert forall|i: int| 0 <= i < freqs.len() implies (#[trigger] freqs[i]).count >= 0 by {
        assert(!rake::unusable(freqs[i]));
    }
    play_laws::lemma_counted_bound(freqs);
    play_laws::lemma_total_counted(freqs);
    let t = play_laws::counted(freqs);
    let c = freqs[a].count as int;
    let y = c * BILLION;
    assert(0 <= y / t <= BILLION) by (nonlinear_arith)
        requires
            y == c * BILLION,
            0 <= c <= t,
            0 < t,
    ;
    assert(q[a].count == y / t);
    vstd::arithmetic::div_mod::lemma_fundamental_div_mod(y, t);
    vstd::arithmetic::div_mod::lemma_mod_bound(y, t);
    assert(t * (y / t) == (y / t) * t) by (nonlinear_arith);
}

/// Whether an edit names hand `i`: its two cards, seen through the suits, are
/// the hand's, and no earlier hand's.
pub open spec fn names<S>(
    hands: Seq<HandInfo<S>>,
    perm: [u8; 4],
    edit: HandEdit<S>,
    i: int,
) -> bool {
    match cards::text_cards(edit.combo@) {
        Err(_) => false,
        Ok(combo) => {
            let c = cards::permuted(combo[0] as int, perm);
            let d = cards::permuted(combo[1] as int, perm);
            &&& combo.len() == 2
            &&& 0 <= i < hands.len()
            &&& locks::made_of(hands[i], c, d)
            &&& forall|x: int| 0 <= x < i ==> !locks::made_of(#[trigger] hands[x], c, d)
        },
    }
}

proof fn lemma_hand_from<S>(hands: Seq<HandInfo<S>>, c: int, d: int, from: int)
    requires
        0 <= from,
    ensures
        match locks::hand_from(hands, c, d, from) {
            Some(i) => {
                &&& from <= i < hands.len()
                &&& locks::made_of(hands[i], c, d)
                &&& forall|x: int| from <= x < i ==> !locks::made_of(#[trigger] hands[x], c, d)
            },
            None => forall|x: int|
                from <= x < hands.len() ==> !locks::made_of(#[trigger] hands[x], c, d),
        },
    decreases hands.len() - from,
{
    if from < hands.len() {
        lemma_hand_from(hands, c, d, from + 1);
    }
}

/// One edit.
proof fn lemma_one_edit<S: Num>(
    block: Seq<S>,
    na: int,
    hands: Seq<HandInfo<S>>,
    player: u8,
    perm: [u8; 4],
    edit: HandEdit<S>,
    i: int,
)
    requires
        locks::edited_one(block, na, hands, player, perm, edit) is Ok,
        block.len() == na * hands.len(),
        0 <= i < hands.len(),
    ensures
        ({
            let nh = hands.len() as int;
            let after = locks::edited_one(block, na, hands, player, perm, edit)->Ok_0;
            &&& after.len() == block.len()
            &&& rake::freqs_read(edit.freqs@, na) is Ok
            &&& strategy::column(after, na, nh, i) == if names(hands, perm, edit, i) {
                rake::freqs_read(edit.freqs@, na)->Ok_0
            } else {
                strategy::column(block, na, nh, i)
            }
        }),
{
    let nh = hands.len() as int;
    let combo = cards::text_cards(edit.combo@)->Ok_0;
    let c = cards::permuted(combo[0] as int, perm);
    let d = cards::permuted(combo[1] as int, perm);
    lemma_hand_from(hands, c, d, 0);
    let found = locks::hand_from(hands, c, d, 0)->Some_0;
    assert(names(hands, perm, edit, i) <==> i == found);
    let to = rake::freqs_read(edit.freqs@, na)->Ok_0;
    let after = locks::edited_one(block, na, hands, player, perm, edit)->Ok_0;
    assert forall|a: int| 0 <= a < na implies strategy::column(after, na, nh, i)[a] == if i
        == found {
        to[a]
    } else {
        strategy::column(block, na, nh, i)[a]
    } by {
        strategy::lemma_cell(na, nh, a, i);
    }
    if i == found {
        assert(strategy::column(after, na, nh, i) =~= to);
    } else {
        assert(strategy::column(after, na, nh, i) =~= strategy::column(block, na, nh, i));
    }
}

/// Law: hand by hand edits set the hands that they name. A hand that the `m`-th
/// edit names, and no later one, plays that edit's frequencies.
pub proof fn law_the_last_edit_of_a_hand_counts<S: Num>(
    block: Seq<S>,
    na: int,
    hands: Seq<HandInfo<S>>,
    player: u8,
    perm: [u8; 4],
    edits: Seq<HandEdit<S>>,
    m: int,
    i: int,
)
    requires
        locks::edited(block, na, hands, player, perm, edits) is Ok,
        block.len() == na * hands.len(),
        0 <= m < edits.len(),
        0 <= i < hands.len(),
        names(hands, perm, edits[m], i),
        forall|x: int| m < x < edits.len() ==> !names(hands, perm, #[trigger] edits[x], i),
    ensures
        rake::freqs_read(edits[m].freqs@, na) is Ok,
        strategy::column(
            locks::edited(block, na, hands, player, perm, edits)->Ok_0,
            na,
            hands.len() as int,
            i,
        ) == rake::freqs_read(edits[m].freqs@, na)->Ok_0,
    decreases edits.len(),
{
    let rest = edits.drop_last();
    let before = locks::edited(block, na, hands, player, perm, rest)->Ok_0;
    lemma_edits_keep_length(block, na, hands, player, perm, rest);
    lemma_one_edit(before, na, hands, player, perm, edits.last(), i);
    if m < rest.len() {
        assert(rest[m] == edits[m]);
        assert forall|x: int| m < x < rest.len() implies !names(
            hands,
            perm,
            #[trigger] rest[x],
            i,
        ) by {
            assert(rest[x] == edits[x]);
        }
        law_the_last_edit_of_a_hand_counts(block, na, hands, player, perm, rest, m, i);
        assert(!names(hands, perm, edits[edits.len() - 1], i));
    }
}

proof fn lemma_edits_keep_length<S: Num>(
    block: Seq<S>,
    na: int,
    hands: Seq<HandInfo<S>>,
    player: u8,
    perm: [u8; 4],
    edits: Seq<HandEdit<S>>,
)
    requires
        locks::edited(block, na, hands, player, perm, edits) is Ok,
    ensures
        locks::edited(block, na, hands, player, perm, edits)->Ok_0.len() == block.len(),
    decreases edits.len(),
{
    if edits.len() > 0 {
        lemma_edits_keep_length(block, na, hands, player, perm, edits.drop_last());
    }
}

/// Law: a hand that no edit names plays as before.
pub proof fn law_edits_leave_other_hands<S: Num>(
    block: Seq<S>,
    na: int,
    hands: Seq<HandInfo<S>>,
    player: u8,
    perm: [u8; 4],
    edits: Seq<HandEdit<S>>,
    i: int,
)
    requires
        locks::edited(block, na, hands, player, perm, edits) is Ok,
        block.len() == na * hands.len(),
        0 <= i < hands.len(),
        forall|x: int| 0 <= x < edits.len() ==> !names(hands, perm, #[trigger] edits[x], i),
    ensures
        strategy::column(
            locks::edited(block, na, hands, player, perm, edits)->Ok_0,
            na,
            hands.len() as int,
            i,
        ) == strategy::column(block, na, hands.len() as int, i),
    decreases edits.len(),
{
    if edits.len() > 0 {
        let rest = edits.drop_last();
        let before = locks::edited(block, na, hands, player, perm, rest)->Ok_0;
        lemma_edits_keep_length(block, na, hands, player, perm, rest);
        lemma_one_edit(before, na, hands, player, perm, edits.last(), i);
        assert forall|x: int| 0 <= x < rest.len() implies !names(
            hands,
            perm,
            #[trigger] rest[x],
            i,
        ) by {
            assert(rest[x] == edits[x]);
        }
        law_edits_leave_other_hands(block, na, hands, player, perm, rest, i);
        assert(!names(hands, perm, edits[edits.len() - 1], i));
    }
}

/// Law: freezing a decision that is not locked goes on as it is played, and no
/// edits at all keep what is played.
pub proof fn law_freezing_keeps_play<S: Single>(
    s: Solver<S>,
    at: Place<S>,
    perm: [u8; 4],
    none: Vec<HandEdit<S>>,
)
    requires
        none@.len() == 0,
    ensures
        !s.locks@.contains_key(at.idx as u32) ==> s.lock_wanted(at, perm, LockMode::Freeze) == Ok::<
            Seq<S>,
            QueryFault,
        >(s.played(at.idx)),
        s.lock_wanted(at, perm, LockMode::Hands { edits: none }) == Ok::<Seq<S>, QueryFault>(
            s.played(at.idx),
        ),
{
}

// ---------------------------------------------------------------------------
// Best responses
// ---------------------------------------------------------------------------

/// How far an action may stay behind the best: a hundred-thousandth of the best
/// value's size, or of one chip.
pub open spec fn slack(best: int) -> int {
    let part = size(best) / 100_000;
    if part < 10_000 {
        10_000
    } else {
        part
    }
}

proof fn lemma_best_of(cfvs: Seq<Seq<Nano>>, j: int, k: int, t: int)
    requires
        1 <= k <= cfvs.len(),
        0 <= t < cfvs.len(),
        forall|a: int| 0 <= a < cfvs.len() ==> (#[trigger] cfvs[a])[j].count <= cfvs[t][j].count,
    ensures
        exploit::best_of::<Nano>(cfvs, j, k).count <= cfvs[t][j].count,
        t < k ==> exploit::best_of::<Nano>(cfvs, j, k).count == cfvs[t][j].count,
    decreases k,
{
    assert(cfvs[k - 1][j].count <= cfvs[t][j].count);
    if k > 1 {
        lemma_best_of(cfvs, j, k - 1, t);
    }
}

proof fn lemma_ties_among(cfvs: Seq<Seq<Nano>>, j: int, k: int, t: int)
    requires
        0 <= k <= cfvs.len(),
        exploit::ties::<Nano>(cfvs, j, t),
        0 <= t,
    ensures
        0 <= exploit::ties_among::<Nano>(cfvs, j, k) <= k,
        t < k ==> 1 <= exploit::ties_among::<Nano>(cfvs, j, k),
    decreases k,
{
    if k > 0 {
        lemma_ties_among(cfvs, j, k - 1, t);
    }
}

proof fn lemma_even_sum(cfvs: Seq<Seq<Nano>>, j: int, k: int, u: int)
    requires
        0 <= k <= cfvs.len(),
        forall|a: int|
            0 <= a < cfvs.len() ==> (#[trigger] exploit::best_response::<Nano>(cfvs, j)[a]).count
                == if exploit::ties::<Nano>(cfvs, j, a) {
                u
            } else {
                0
            },
    ensures
        play_laws::counted(exploit::best_response::<Nano>(cfvs, j).take(k)) == u
            * exploit::ties_among::<Nano>(cfvs, j, k),
    decreases k,
{
    let r = exploit::best_response::<Nano>(cfvs, j);
    if k > 0 {
        lemma_even_sum(cfvs, j, k - 1, u);
        assert(r.take(k).drop_last() =~= r.take(k - 1));
        assert(r[k - 1].count == if exploit::ties::<Nano>(cfvs, j, k - 1) {
            u
        } else {
            0
        });
        let n = exploit::ties_among::<Nano>(cfvs, j, k - 1);
        assert(u * (n + 1) == u * n + u) by (nonlinear_arith);
    } else {
        assert(r.take(0) =~= Seq::<Nano>::empty());
    }
}

/// Law: the best response that is shown plays the best action, and evenly every
/// action that stays behind it by no more than the slack; nothing else is
/// played, and what is played shares one.
pub proof fn law_best_responses_play_the_best(cfvs: Seq<Seq<Nano>>, j: int, t: int, a: int)
    requires
        1 <= cfvs.len() <= 255,
        0 <= t < cfvs.len(),
        0 <= a < cfvs.len(),
        forall|x: int| 0 <= x < cfvs.len() ==> (#[trigger] cfvs[x])[j].count <= cfvs[t][j].count,
        forall|x: int|
            0 <= x < cfvs.len() ==> -i64::MAX / 2 <= (#[trigger] cfvs[x])[j].count <= i64::MAX / 2,
    ensures
        ({
            let r = exploit::best_response::<Nano>(cfvs, j);
            let behind = cfvs[t][j].count - cfvs[a][j].count;
            &&& r.len() == cfvs.len()
            &&& 0 < r[t].count
            &&& behind <= slack(cfvs[t][j].count as int) ==> r[a] == r[t]
            &&& behind > slack(cfvs[t][j].count as int) ==> r[a].count == 0
            &&& play_laws::share_one(r)
        }),
{
    let b = BILLION as int;
    let n = cfvs.len() as int;
    assert(nano::ten_to(0) == 1);
    assert(nano::ten_to(5) == 100_000) by {
        reveal_with_fuel(nano::ten_to, 6);
    }
    lemma_best_of(cfvs, j, n, t);
    let best = exploit::best_of::<Nano>(cfvs, j, n);
    let top = cfvs[t][j];
    assert(best.count == top.count);
    let e = Nano::decimal_spec(1, 5);
    assert(e.count == 10_000);
    let mag = num::magnitude_of(best);
    assert(mag.count == size(best.count as int));
    let prod = mag.count * 10_000;
    assert(prod / b == mag.count as int / 100_000);
    assert(mag.times_spec(e).count == mag.count as int / 100_000);
    assert(exploit::tie_margin(best).count == slack(best.count as int));
    assert forall|x: int| 0 <= x < n implies (#[trigger] exploit::ties::<Nano>(cfvs, j, x)
        <==> top.count - cfvs[x][j].count <= slack(top.count as int)) by {
        assert(cfvs[x][j].count <= top.count);
    }
    assert(exploit::ties::<Nano>(cfvs, j, t));
    lemma_ties_among(cfvs, j, n, t);
    let k = exploit::ties_among::<Nano>(cfvs, j, n);
    assert(1 <= k <= 255);
    let r = exploit::best_response::<Nano>(cfvs, j);
    let share = Nano::decimal_spec(1, 0).over_spec(Nano::decimal_spec(k as i64, 0));
    assert(Nano::decimal_spec(1, 0).count == b);
    assert(Nano::decimal_spec(k as i64, 0).count == k * b);
    let u = b * b / (k * b);
    assert(u == b / k) by (nonlinear_arith)
        requires
            u == b * b / (k * b),
            1 <= k,
            0 < b,
    ;
    vstd::arithmetic::div_mod::lemma_fundamental_div_mod(b, k);
    vstd::arithmetic::div_mod::lemma_mod_bound(b, k);
    assert(1 <= u <= b) by (nonlinear_arith)
        requires
            b == k * u + b % k,
            0 <= b % k < k,
            1 <= k <= 255,
            b == 1_000_000_000,
    ;
    assert(share.count == u);
    assert forall|x: int| 0 <= x < n implies (#[trigger] r[x]).count == if exploit::ties::<Nano>(
        cfvs,
        j,
        x,
    ) {
        u
    } else {
        0
    } by {}
    lemma_even_sum(cfvs, j, n, u);
    assert(r.take(n) =~= r);
    assert(k * u == u * k) by (nonlinear_arith);
    assert(exploit::ties::<Nano>(cfvs, j, a) <==> top.count - cfvs[a][j].count <= slack(
        top.count as int,
    ));
}

} // verus!
