//! The suit symmetries of a spot, and what they make of a path.

use crate::canonical;
use crate::cards;
use crate::cards::{Card, NUM_COMBOS};
use crate::cfr::Solver;
use crate::game;
use crate::game::{HandInfo, Spot};
use crate::num::{Num, Single};
use crate::path::Step;
use crate::spot;
use vstd::prelude::*;

verus! {

/// Whether weights that are near to a third are near to each other. Weights
/// that are a little less than the tolerance apart, in a row, are not.
pub open spec fn near_chains<S: Num>(hands: Seq<HandInfo<S>>) -> bool {
    forall|i: int, j: int, k: int|
        0 <= i < hands.len() && 0 <= j < hands.len() && 0 <= k < hands.len()
            && #[trigger] game::near_weight(hands[k].weight, hands[j].weight)
            && #[trigger] game::near_weight(hands[j].weight, hands[i].weight) ==> game::near_weight(
            hands[k].weight,
            hands[i].weight,
        )
}

/// The same two cards renamed are the same two cards, whichever comes first.
proof fn lemma_same_pair(a: int, b: int, x: int, y: int, q: [u8; 4])
    requires
        cards::is_card(a),
        cards::is_card(b),
        cards::is_card(x),
        cards::is_card(y),
        b < a,
        x != y,
        cards::combo_number(a, b) == cards::combo_number(x, y),
    ensures
        cards::combo_number(cards::permuted(a, q), cards::permuted(b, q)) == cards::combo_number(
            cards::permuted(x, q),
            cards::permuted(y, q),
        ),
{
    if y < x {
        cards::law_combo_number_is_injective(a, b, x, y);
    } else {
        cards::law_combo_number_is_injective(a, b, y, x);
    }
}

proof fn lemma_card_stays(c: int, p: [u8; 4])
    requires
        cards::is_card(c),
        cards::is_perm(p),
    ensures
        cards::is_card(cards::permuted(c, p)),
{
    let s = c % 4;
    assert(s == 0 || s == 1 || s == 2 || s == 3);
    assert(p[s] < 4);
}

proof fn lemma_symmetric_composed<S: Num>(hands: Seq<HandInfo<S>>, p: [u8; 4], q: [u8; 4])
    requires
        game::listed(hands, NUM_COMBOS as int),
        near_chains(hands),
        cards::is_perm(p),
        cards::is_perm(q),
        game::symmetric(hands, p),
        game::symmetric(hands, q),
    ensures
        game::symmetric(hands, cards::composed(p, q)),
{
    let both = cards::composed(p, q);
    assert forall|i: int| 0 <= i < hands.len() implies #[trigger] game::has_image(
        hands,
        both,
        i,
    ) by {
        assert(game::has_image(hands, p, i));
        let j = choose|j: int| game::is_image(hands, p, i, j);
        assert(game::has_image(hands, q, j));
        let k = choose|k: int| game::is_image(hands, q, j, k);
        let c1 = hands[i].c1 as int;
        let c2 = hands[i].c2 as int;
        let x = cards::permuted(c1, p);
        let y = cards::permuted(c2, p);
        lemma_card_stays(c1, p);
        lemma_card_stays(c2, p);
        if x == y {
            cards::law_permuted_is_injective(p, c1, c2);
        }
        assert(hands[j].c2 < hands[j].c1 < 52);
        lemma_same_pair(hands[j].c1 as int, hands[j].c2 as int, x, y, q);
        cards::law_composed(p, q, c1);
        cards::law_composed(p, q, c2);
        assert(game::near_weight(hands[k].weight, hands[j].weight));
        assert(game::near_weight(hands[j].weight, hands[i].weight));
        assert(game::is_image(hands, both, i, k));
    }
}

proof fn lemma_symmetry_listed<S: Num>(
    board: Seq<Card>,
    h0: Seq<HandInfo<S>>,
    h1: Seq<HandInfo<S>>,
    k: int,
    n: int,
)
    requires
        0 <= k < n,
        game::is_symmetry(cards::digits(k), board, h0, h1),
    ensures
        game::symmetries(board, h0, h1, n).contains(cards::digits(k)),
    decreases n,
{
    let all = game::symmetries(board, h0, h1, n);
    if k == n - 1 {
        assert(all[all.len() - 1] == cards::digits(k));
    } else {
        lemma_symmetry_listed(board, h0, h1, k, n - 1);
        let before = game::symmetries(board, h0, h1, n - 1);
        let i = choose|i: int| 0 <= i < before.len() && before[i] == cards::digits(k);
        assert(all[i] == before[i]);
    }
}

proof fn lemma_symmetries_are_such<S: Num>(
    board: Seq<Card>,
    h0: Seq<HandInfo<S>>,
    h1: Seq<HandInfo<S>>,
    n: int,
)
    ensures
        forall|k: int|
            0 <= k < game::symmetries(board, h0, h1, n).len() ==> game::is_symmetry(
                #[trigger] game::symmetries(board, h0, h1, n)[k],
                board,
                h0,
                h1,
            ),
    decreases n,
{
    if n > 0 {
        lemma_symmetries_are_such(board, h0, h1, n - 1);
        let before = game::symmetries(board, h0, h1, n - 1);
        let all = game::symmetries(board, h0, h1, n);
        assert forall|k: int| 0 <= k < all.len() implies game::is_symmetry(
            #[trigger] all[k],
            board,
            h0,
            h1,
        ) by {
            if k < before.len() {
                assert(all[k] == before[k]);
            }
        }
    }
}

/// The number of a renaming.
proof fn lemma_number_of(pm: [u8; 4]) -> (k: int)
    requires
        cards::is_perm(pm),
    ensures
        0 <= k < 256,
        cards::digits(k) == pm,
{
    let k = pm[0] * 64 + pm[1] * 16 + pm[2] * 4 + pm[3];
    assert(k / 64 == pm[0] && k / 16 == pm[0] * 4 + pm[1] && k / 4 == pm[0] * 16 + pm[1] * 4
        + pm[2]);
    assert(cards::digits(k) =~= pm);
    k
}

/// Law: one symmetry of a spot after another is again one of its symmetries,
/// where the nearness of weights carries over.
pub proof fn law_symmetries_compose<N: Num, S: Num>(s: Spot<N, S>)
    requires
        s.wf(),
        near_chains(s.hands[0]@),
        near_chains(s.hands[1]@),
    ensures
        canonical::composes(s.suit_perms@),
{
    let perms = s.suit_perms@;
    let board = s.board@;
    let h0 = s.hands[0]@;
    let h1 = s.hands[1]@;
    lemma_symmetries_are_such(board, h0, h1, 256);
    assert forall|i: int, j: int|
        0 <= i < perms.len() && 0 <= j < perms.len() implies #[trigger] canonical::pair_composes(
        perms,
        i,
        j,
    ) by {
        let both = cards::composed(perms[i], perms[j]);
        cards::law_composed(perms[i], perms[j], 0);
        assert forall|x: int| 0 <= x < board.len() implies cards::permuted(
            #[trigger] board[x] as int,
            both,
        ) == board[x] by {
            cards::law_composed(perms[i], perms[j], board[x] as int);
        }
        lemma_symmetric_composed(h0, perms[i], perms[j]);
        lemma_symmetric_composed(h1, perms[i], perms[j]);
        let k = lemma_number_of(both);
        lemma_symmetry_listed(board, h0, h1, k, 256);
    }
}

// ---------------------------------------------------------------------------
// Paths
// ---------------------------------------------------------------------------

/// The cards that a path deals.
pub open spec fn cards_of(way: Seq<Step>) -> Seq<Card>
    decreases way.len(),
{
    if way.len() == 0 {
        Seq::empty()
    } else {
        match way.last() {
            Step::Action { index } => cards_of(way.drop_last()),
            Step::Card { text } => match cards::text_card(text) {
                Ok(c) => cards_of(way.drop_last()).push(c),
                Err(_) => cards_of(way.drop_last()),
            },
        }
    }
}

/// Whether a step is moved onto another: actions stay, and a card becomes what
/// the renaming makes of it.
pub open spec fn step_moved(from: Step, to: Step, perm: [u8; 4]) -> bool {
    match from {
        Step::Action { index } => to == from,
        Step::Card { text } => match cards::text_card(text) {
            Ok(c) => to == (Step::Card { text: cards::card_text(cards::permuted(c as int, perm)) }),
            Err(_) => to == from,
        },
    }
}

/// Law: a path is moved by one renaming of the suits. Its actions stay, and
/// each of its cards becomes what the renaming makes of it.
pub proof fn law_path_is_moved_by_one_renaming(perms: Seq<[u8; 4]>, way: Seq<Step>)
    requires
        canonical::all_perms(perms),
        perms.len() <= usize::MAX,
    ensures
        ({
            let m = canonical::moved(perms, way);
            &&& m.steps.len() == way.len()
            &&& cards::is_perm(m.perm)
            &&& forall|i: int|
                0 <= i < way.len() ==> step_moved(#[trigger] way[i], m.steps[i], m.perm)
        }),
        ({
            let m = canonical::moved(perms, way);
            &&& m.dealt.len() == cards_of(way).len()
            &&& forall|i: int|
                0 <= i < m.dealt.len() ==> (#[trigger] m.dealt[i]) < 52 && cards_of(way)[i] < 52
                    && m.dealt[i] == cards::permuted(cards_of(way)[i] as int, m.perm)
        }),
        forall|i: int|
            0 <= i < way.len() ==> (#[trigger] way[i] matches Step::Card { text } ==> (
            cards::text_card(text) matches Ok(c) ==> c < 52 && cards_of(way).contains(c))),
    decreases way.len(),
{
    let m = canonical::moved(perms, way);
    if way.len() == 0 {
        assert(cards::is_perm(canonical::unmoved()));
    } else {
        let rest = way.drop_last();
        law_path_is_moved_by_one_renaming(perms, rest);
        let before = canonical::moved(perms, rest);
        let last = way[way.len() - 1];
        match last {
            Step::Action { index } => {
                assert forall|i: int| 0 <= i < way.len() implies step_moved(
                    #[trigger] way[i],
                    m.steps[i],
                    m.perm,
                ) by {
                    if i < rest.len() {
                        assert(way[i] == rest[i]);
                    }
                }
                assert forall|i: int| 0 <= i < way.len() implies (
                #[trigger] way[i] matches Step::Card { text } ==> (
                cards::text_card(text) matches Ok(c) ==> c < 52 && cards_of(way).contains(c))) by {
                    if i < rest.len() {
                        assert(way[i] == rest[i]);
                    }
                }
            },
            Step::Card { text } => match cards::text_card(text) {
                Err(_) => {
                    assert forall|i: int| 0 <= i < way.len() implies step_moved(
                        #[trigger] way[i],
                        m.steps[i],
                        m.perm,
                    ) by {
                        if i < rest.len() {
                            assert(way[i] == rest[i]);
                        }
                    }
                    assert forall|i: int| 0 <= i < way.len() implies (
                    #[trigger] way[i] matches Step::Card { text } ==> (
                    cards::text_card(text) matches Ok(c) ==> c < 52 && cards_of(way).contains(
                        c,
                    ))) by {
                        if i < rest.len() {
                            assert(way[i] == rest[i]);
                        }
                    }
                },
                Ok(c) => {
                    lemma_named_card(text);
                    lemma_card_moved(perms, before, c);
                    let dealt = cards_of(rest);
                    let all = cards_of(way);
                    assert(all == dealt.push(c));
                    assert forall|i: int| 0 <= i < m.dealt.len() implies (
                    #[trigger] m.dealt[i]) < 52 && all[i] < 52 && m.dealt[i] == cards::permuted(
                        all[i] as int,
                        m.perm,
                    ) by {
                        if i < before.dealt.len() {
                            assert(before.dealt[i] == cards::permuted(
                                dealt[i] as int,
                                before.perm,
                            ));
                            lemma_later_card_keeps(perms, before, c, dealt[i], i);
                        }
                    }
                    assert forall|i: int| 0 <= i < way.len() implies (
                    #[trigger] way[i] matches Step::Card { text } ==> (
                    cards::text_card(text) matches Ok(c) ==> c < 52 && cards_of(way).contains(
                        c,
                    ))) by {
                        if i < rest.len() {
                            assert(way[i] == rest[i]);
                            match rest[i] {
                                Step::Card { text } => match cards::text_card(text) {
                                    Ok(d) => {
                                        let x = choose|x: int|
                                            0 <= x < dealt.len() && dealt[x] == d;
                                        assert(all[x] == d);
                                    },
                                    Err(_) => {},
                                },
                                Step::Action { .. } => {},
                            }
                        } else {
                            assert(all[all.len() - 1] == c);
                        }
                    }
                    assert forall|i: int| 0 <= i < way.len() implies step_moved(
                        #[trigger] way[i],
                        m.steps[i],
                        m.perm,
                    ) by {
                        if i < rest.len() {
                            assert(way[i] == rest[i]);
                            assert(m.steps[i] == before.steps[i]);
                            match rest[i] {
                                Step::Card { text } => match cards::text_card(text) {
                                    Ok(d) => {
                                        let x = choose|x: int|
                                            0 <= x < dealt.len() && dealt[x] == d;
                                        assert(before.dealt[x] == cards::permuted(
                                            dealt[x] as int,
                                            before.perm,
                                        ));
                                        lemma_later_card_keeps(perms, before, c, d, x);
                                    },
                                    Err(_) => {},
                                },
                                Step::Action { .. } => {},
                            }
                        }
                    }
                },
            },
        }
    }
}

proof fn lemma_named_card(text: Seq<char>)
    requires
        cards::text_card(text) is Ok,
    ensures
        cards::text_card(text)->Ok_0 < 52,
{
}

proof fn lemma_card_moved(perms: Seq<[u8; 4]>, m: canonical::Moved, c: Card)
    requires
        canonical::all_perms(perms),
        perms.len() <= usize::MAX,
        cards::is_perm(m.perm),
        c < 52,
    ensures
        ({
            let now = canonical::moved_card(perms, m, c);
            &&& cards::is_perm(now.perm)
            &&& now.dealt.len() == m.dealt.len() + 1
            &&& forall|i: int| 0 <= i < m.dealt.len() ==> #[trigger] now.dealt[i] == m.dealt[i]
            &&& now.dealt.last() < 52
            &&& now.dealt.last() == cards::permuted(c as int, now.perm)
            &&& now.steps.len() == m.steps.len() + 1
            &&& forall|i: int| 0 <= i < m.steps.len() ==> #[trigger] now.steps[i] == m.steps[i]
            &&& now.steps.last() == (Step::Card {
                text: cards::card_text(cards::permuted(c as int, now.perm)),
            })
        }),
{
    let seen = cards::permuted(c as int, m.perm);
    let valid = spot::fixing(perms, m.dealt, perms.len() as int);
    lemma_card_stays(c as int, m.perm);
    canonical::lemma_fixing_inside(perms, m.dealt, perms.len() as int);
    canonical::lemma_least_under(perms, valid, seen, valid.len() as int);
    let (rep, by) = canonical::least_under(perms, valid, seen, valid.len() as int);
    if by is Some {
        let k = by->Some_0 as int;
        cards::law_composed(m.perm, perms[k], c as int);
        lemma_card_stays(seen, perms[k]);
    }
}

proof fn lemma_later_card_keeps(
    perms: Seq<[u8; 4]>,
    m: canonical::Moved,
    c: Card,
    d: Card,
    i: int,
)
    requires
        canonical::all_perms(perms),
        perms.len() <= usize::MAX,
        cards::is_perm(m.perm),
        c < 52,
        d < 52,
        0 <= i < m.dealt.len(),
        m.dealt[i] == cards::permuted(d as int, m.perm),
    ensures
        cards::permuted(d as int, canonical::moved_card(perms, m, c).perm) == m.dealt[i],
{
    let seen = cards::permuted(c as int, m.perm);
    let valid = spot::fixing(perms, m.dealt, perms.len() as int);
    lemma_card_stays(c as int, m.perm);
    canonical::lemma_fixing_inside(perms, m.dealt, perms.len() as int);
    canonical::lemma_least_under(perms, valid, seen, valid.len() as int);
    let (rep, by) = canonical::least_under(perms, valid, seen, valid.len() as int);
    if by is Some {
        let k = by->Some_0 as int;
        cards::law_composed(m.perm, perms[k], d as int);
        assert(game::fixes(perms[k], m.dealt));
    }
}

/// Law: the path that is visited for another is visited for itself, unmoved,
/// where the nearness of weights carries over.
pub proof fn law_visited_path_is_settled<S: Single>(solver: Solver<S>, way: Seq<Step>)
    requires
        solver.spot.wf(),
        near_chains(solver.spot.hands[0]@),
        near_chains(solver.spot.hands[1]@),
    ensures
        solver.visited(solver.visited(way)) == solver.visited(way),
        solver.visited_by(solver.visited(way)) == canonical::unmoved(),
        !solver.folds_symmetry() ==> solver.visited(way) == way && solver.visited_by(way)
            == canonical::unmoved(),
{
    if solver.folds_symmetry() {
        solver.lemma_suit_perms();
        law_symmetries_compose(solver.spot);
        canonical::law_canonical_path_is_settled(solver.spot.suit_perms@, way);
    }
}

} // verus!
