//! Suit-symmetric runouts: one branch stands for its siblings, and paths are
//! moved onto it.

use crate::cards;
use crate::cards::{card_from_str, card_to_string, permute_card, Card};
use crate::cfr::Solver;
use crate::game;
use crate::game::Dealt;
use crate::num::{Num, Single};
use crate::path;
use crate::path::{PathStep, Step};
use crate::spot;
use vstd::prelude::*;

verus! {

/// The least image of a card under the first `n` of the given permutations,
/// and the permutation that gives it; none, where no image is less than the
/// card.
pub open spec fn least_under(perms: Seq<[u8; 4]>, valid: Seq<usize>, c: int, n: int) -> (
    int,
    Option<usize>,
)
    decreases n,
{
    if n <= 0 {
        (c, None)
    } else {
        let (rep, by) = least_under(perms, valid, c, n - 1);
        let image = cards::permuted(c, perms[valid[n - 1] as int]);
        if image < rep {
            (image, Some(valid[n - 1]))
        } else {
            (rep, by)
        }
    }
}

/// How far a path has been moved: its steps, the permutation that moves the
/// browsed branch onto the one that is visited, and the cards dealt there.
pub struct Moved {
    pub steps: Seq<Step>,
    pub perm: [u8; 4],
    pub dealt: Seq<Card>,
}

pub open spec fn unmoved() -> [u8; 4] {
    [0u8, 1, 2, 3]
}

/// One more card, moved.
pub open spec fn moved_card(perms: Seq<[u8; 4]>, m: Moved, c: Card) -> Moved {
    let seen = cards::permuted(c as int, m.perm);
    let valid = spot::fixing(perms, m.dealt, perms.len() as int);
    let (rep, by) = least_under(perms, valid, seen, valid.len() as int);
    Moved {
        steps: m.steps.push(Step::Card { text: cards::card_text(rep) }),
        perm: match by {
            Some(k) => cards::composed(m.perm, perms[k as int]),
            None => m.perm,
        },
        dealt: m.dealt.push(rep as u8),
    }
}

/// A path moved onto the branch that stands for its siblings.
pub open spec fn moved(perms: Seq<[u8; 4]>, way: Seq<Step>) -> Moved
    decreases way.len(),
{
    if way.len() == 0 {
        Moved { steps: Seq::empty(), perm: unmoved(), dealt: Seq::empty() }
    } else {
        let m = moved(perms, way.drop_last());
        match way.last() {
            Step::Action { index } => Moved { steps: m.steps.push(way.last()), ..m },
            Step::Card { text } => match cards::text_card(text) {
                Ok(c) => moved_card(perms, m, c),
                Err(_) => Moved { steps: m.steps.push(way.last()), ..m },
            },
        }
    }
}

/// How many steps of a path deal a card.
pub open spec fn deals(way: Seq<Step>) -> nat
    decreases way.len(),
{
    if way.len() == 0 {
        0
    } else {
        deals(way.drop_last()) + match way.last() {
            Step::Action { index } => 0nat,
            Step::Card { text } => if cards::text_card(text) is Ok {
                1nat
            } else {
                0nat
            },
        }
    }
}

/// The permutations are permutations of the suits.
pub open spec fn all_perms(perms: Seq<[u8; 4]>) -> bool {
    forall|k: int| 0 <= k < perms.len() ==> cards::is_perm(#[trigger] perms[k])
}

/// What holds of a moved path.
pub open spec fn moved_well(m: Moved, way: Seq<Step>) -> bool {
    &&& m.steps.len() == way.len()
    &&& m.dealt.len() == deals(way)
    &&& cards::is_perm(m.perm)
    &&& game::all_cards(m.dealt)
}

pub proof fn lemma_fixing_inside(perms: Seq<[u8; 4]>, cs: Seq<Card>, n: int)
    requires
        0 <= n <= perms.len() <= usize::MAX,
    ensures
        forall|j: int|
            0 <= j < spot::fixing(perms, cs, n).len() ==> (#[trigger] spot::fixing(perms, cs, n)[j])
                < n && game::fixes(perms[spot::fixing(perms, cs, n)[j] as int], cs),
    decreases n,
{
    if n > 0 {
        lemma_fixing_inside(perms, cs, n - 1);
        let before = spot::fixing(perms, cs, n - 1);
        let all = spot::fixing(perms, cs, n);
        assert forall|j: int| 0 <= j < all.len() implies (#[trigger] all[j]) < n && game::fixes(
            perms[all[j] as int],
            cs,
        ) by {
            if j < before.len() {
                assert(all[j] == before[j]);
            }
        }
    }
}

pub(crate) proof fn lemma_least_under(perms: Seq<[u8; 4]>, valid: Seq<usize>, c: int, n: int)
    requires
        all_perms(perms),
        0 <= n <= valid.len(),
        0 <= c < 52,
        forall|j: int| 0 <= j < valid.len() ==> (#[trigger] valid[j]) < perms.len(),
    ensures
        ({
            let (rep, by) = least_under(perms, valid, c, n);
            &&& 0 <= rep <= c
            &&& match by {
                Some(k) => k < perms.len() && rep == cards::permuted(c, perms[k as int])
                    && valid.contains(k),
                None => rep == c,
            }
            &&& forall|j: int|
                0 <= j < n ==> rep <= cards::permuted(c, perms[(#[trigger] valid[j]) as int])
        }),
    decreases n,
{
    if n > 0 {
        lemma_least_under(perms, valid, c, n - 1);
        let k = valid[n - 1];
        assert(cards::is_perm(perms[k as int]));
    }
}

proof fn lemma_composed_perm(first: [u8; 4], second: [u8; 4])
    requires
        cards::is_perm(first),
        cards::is_perm(second),
    ensures
        cards::is_perm(cards::composed(first, second)),
{
}

pub proof fn lemma_moved(perms: Seq<[u8; 4]>, way: Seq<Step>)
    requires
        all_perms(perms),
        perms.len() <= usize::MAX,
    ensures
        moved_well(moved(perms, way), way),
    decreases way.len(),
{
    if way.len() > 0 {
        let m = moved(perms, way.drop_last());
        lemma_moved(perms, way.drop_last());
        match way.last() {
            Step::Action { index } => {},
            Step::Card { text } => match cards::text_card(text) {
                Ok(c) => {
                    let seen = cards::permuted(c as int, m.perm);
                    let valid = spot::fixing(perms, m.dealt, perms.len() as int);
                    lemma_fixing_inside(perms, m.dealt, perms.len() as int);
                    lemma_least_under(perms, valid, seen, valid.len() as int);
                    let (rep, by) = least_under(perms, valid, seen, valid.len() as int);
                    if by is Some {
                        lemma_composed_perm(m.perm, perms[by->Some_0 as int]);
                    }
                },
                Err(_) => {},
            },
        }
    }
}

fn duplicate_path(path: &[PathStep]) -> (r: Vec<PathStep>)
    ensures
        path::steps(r@) == path::steps(path@),
{
    let mut out: Vec<PathStep> = Vec::new();
    let mut i: usize = 0;
    while i < path.len()
        invariant
            i <= path@.len(),
            out@.len() == i,
            forall|k: int| 0 <= k < i ==> (#[trigger] out@[k])@ == path@[k]@,
        decreases path@.len() - i,
    {
        out.push(path[i].duplicate());
        i = i + 1;
    }
    assert(path::steps(out@) =~= path::steps(path@));
    out
}

impl<S: Single> Solver<S> {
    /// Whether runouts have symmetric siblings that are not visited.
    pub open spec fn folds_symmetry(&self) -> bool {
        self.use_isomorphism && self.spot.suit_perms@.len() >= 2
    }

    /// The path as it is visited.
    pub open spec fn visited(&self, way: Seq<Step>) -> Seq<Step> {
        if self.folds_symmetry() {
            moved(self.spot.suit_perms@, way).steps
        } else {
            way
        }
    }

    /// The permutation that moves the browsed branch onto the visited one.
    pub open spec fn visited_by(&self, way: Seq<Step>) -> [u8; 4] {
        if self.folds_symmetry() {
            moved(self.spot.suit_perms@, way).perm
        } else {
            unmoved()
        }
    }

    /// At most two cards can be dealt on a path that is moved.
    pub open spec fn dealable(&self, way: Seq<Step>) -> bool {
        self.folds_symmetry() ==> deals(way) <= 2
    }

    pub proof fn lemma_suit_perms(&self)
        requires
            self.spot.wf(),
        ensures
            all_perms(self.spot.suit_perms@),
            self.spot.suit_perms@.len() <= 256,
    {
        spot::lemma_symmetries_are_perms(
            self.spot.board@,
            self.spot.hands[0]@,
            self.spot.hands[1]@,
            256,
        );
    }

    /// The card that stands for a card under the given permutations, and the
    /// permutation that moves the card onto it.
    pub(crate) fn representative(&self, valid: &Vec<usize>, seen: Card) -> (r: (
        Card,
        Option<usize>,
    ))
        requires
            all_perms(self.spot.suit_perms@),
            seen < 52,
            forall|x: int|
                0 <= x < valid@.len() ==> (#[trigger] valid@[x]) < self.spot.suit_perms@.len(),
        ensures
            (r.0 as int, r.1) == least_under(
                self.spot.suit_perms@,
                valid@,
                seen as int,
                valid@.len() as int,
            ),
            r.0 < 52,
            r.1 matches Some(k) ==> k < self.spot.suit_perms@.len(),
    {
        let ghost perms = self.spot.suit_perms@;
        let mut rep: Card = seen;
        let mut by: Option<usize> = None;
        let mut j: usize = 0;
        while j < valid.len()
            invariant
                j <= valid@.len(),
                perms == self.spot.suit_perms@,
                all_perms(perms),
                seen < 52,
                rep < 52,
                by matches Some(k) ==> k < perms.len(),
                forall|x: int| 0 <= x < valid@.len() ==> (#[trigger] valid@[x]) < perms.len(),
                (rep as int, by) == least_under(perms, valid@, seen as int, j as int),
            decreases valid@.len() - j,
        {
            let k: usize = valid[j];
            assert(cards::is_perm(perms[k as int]));
            let image: Card = permute_card(seen, &self.spot.suit_perms[k]);
            if image < rep {
                rep = image;
                by = Some(k);
            }
            j = j + 1;
        }
        (rep, by)
    }

    /// Map every card step to its suit-isomorphism orbit representative, so
    /// operations land on the branch the solver actually traverses.
    pub fn canonical_path(&self, path: &[PathStep]) -> (r: Vec<PathStep>)
        requires
            self.wf(),
            self.dealable(path::steps(path@)),
        ensures
            path::steps(r@) == self.visited(path::steps(path@)),
    {
        self.canonical_path_with_perm(path).0
    }

    /// Canonicalize card steps to orbit representatives, tracking the composed
    /// suit permutation that maps the browsed branch onto the canonical one.
    /// Later steps canonicalize the already-permuted card. The returned suit
    /// map lets callers translate hand identities between the browsed branch
    /// and the canonical one (identity when nothing moved).
    pub fn canonical_path_with_perm(&self, path: &[PathStep]) -> (r: (Vec<PathStep>, [u8; 4]))
        requires
            self.wf(),
            self.dealable(path::steps(path@)),
        ensures
            path::steps(r.0@) == self.visited(path::steps(path@)),
            r.1 == self.visited_by(path::steps(path@)),
    {
        let mut composed: [u8; 4] = [0, 1, 2, 3];
        if !self.use_isomorphism || self.spot.suit_perms.len() < 2 {
            return (duplicate_path(path), composed);
        }
        let ghost perms = self.spot.suit_perms@;
        let ghost way = path::steps(path@);
        let count: usize = self.spot.suit_perms.len();
        let mut dealt: Dealt = Dealt::default();
        let mut out: Vec<PathStep> = Vec::new();
        let mut i: usize = 0;
        proof {
            self.lemma_suit_perms();
            assert(way.take(0) =~= Seq::<Step>::empty());
            assert(path::steps(out@) =~= Seq::<Step>::empty());
        }
        while i < path.len()
            invariant
                i <= path@.len(),
                way == path::steps(path@),
                perms == self.spot.suit_perms@,
                count == perms.len(),
                self.wf(),
                all_perms(perms),
                deals(way) <= 2,
                dealt.wf(),
                moved(perms, way.take(i as int)).steps == path::steps(out@),
                moved(perms, way.take(i as int)).perm == composed,
                moved(perms, way.take(i as int)).dealt == dealt.list(),
            decreases path@.len() - i,
        {
            let ghost before = out@;
            let ghost m = moved(perms, way.take(i as int));
            proof {
                assert(way.take(i + 1).drop_last() =~= way.take(i as int));
                assert(way.take(i + 1).last() == way[i as int]);
                lemma_moved(perms, way.take(i as int));
                lemma_moved(perms, way.take(i + 1));
                lemma_deals_prefix(way, i + 1);
            }
            match &path[i] {
                PathStep::Action { index } => {
                    out.push(PathStep::Action { index: *index });
                    assert(path::steps(out@) =~= path::steps(before).push(way[i as int]));
                },
                PathStep::Card { card } => match card_from_str(card.as_str()) {
                    Ok(c) => {
                        // the card as it is seen on the canonical branch so far
                        let seen: Card = permute_card(c, &composed);
                        let valid = self.spot.perms_fixing(&dealt);
                        proof {
                            lemma_fixing_inside(perms, dealt.list(), perms.len() as int);
                        }
                        let (rep, by) = self.representative(&valid, seen);
                        proof {
                            lemma_least_under(
                                perms,
                                valid@,
                                seen as int,
                                valid@.len() as int,
                            );
                        }
                        match by {
                            Some(k) => {
                                assert(cards::is_perm(perms[k as int]));
                                let pm: [u8; 4] = self.spot.suit_perms[k];
                                let next: [u8; 4] = [
                                    pm[composed[0] as usize],
                                    pm[composed[1] as usize],
                                    pm[composed[2] as usize],
                                    pm[composed[3] as usize],
                                ];
                                assert(next =~= cards::composed(composed, pm));
                                composed = next;
                            },
                            None => {},
                        }
                        dealt = dealt.push(rep);
                        out.push(PathStep::Card { card: card_to_string(rep) });
                        assert(path::steps(out@) =~= path::steps(before).push(
                            Step::Card { text: cards::card_text(rep as int) },
                        ));
                    },
                    Err(_) => {
                        out.push(PathStep::Card { card: card.clone() });
                        assert(path::steps(out@) =~= path::steps(before).push(way[i as int]));
                    },
                },
            }
            i = i + 1;
        }
        assert(way.take(i as int) =~= way);
        (out, composed)
    }
}

proof fn lemma_deals_prefix(way: Seq<Step>, n: int)
    requires
        0 <= n <= way.len(),
    ensures
        deals(way.take(n)) <= deals(way),
    decreases way.len(),
{
    if n == way.len() {
        assert(way.take(n) =~= way);
    } else {
        lemma_deals_prefix(way.drop_last(), n);
        assert(way.drop_last().take(n) =~= way.take(n));
    }
}

/// One permutation after another is again one of the permutations.
pub open spec fn composes(perms: Seq<[u8; 4]>) -> bool {
    forall|i: int, j: int|
        0 <= i < perms.len() && 0 <= j < perms.len() ==> #[trigger] pair_composes(perms, i, j)
}

/// Permutation `j` after permutation `i` is one of the permutations.
pub open spec fn pair_composes(perms: Seq<[u8; 4]>, i: int, j: int) -> bool {
    perms.contains(cards::composed(perms[i], perms[j]))
}

/// No symmetry makes less of a representative.
proof fn lemma_representative(perms: Seq<[u8; 4]>, dealt: Seq<Card>, seen: int, v: int)
    requires
        all_perms(perms),
        composes(perms),
        perms.len() <= usize::MAX,
        0 <= seen < 52,
        game::all_cards(dealt),
        0 <= v < perms.len(),
        game::fixes(perms[v], dealt),
    ensures
        ({
            let valid = spot::fixing(perms, dealt, perms.len() as int);
            let rep = least_under(perms, valid, seen, valid.len() as int).0;
            rep <= cards::permuted(rep, perms[v])
        }),
{
    let valid = spot::fixing(perms, dealt, perms.len() as int);
    lemma_fixing_inside(perms, dealt, perms.len() as int);
    lemma_least_under(perms, valid, seen, valid.len() as int);
    let (rep, by) = least_under(perms, valid, seen, valid.len() as int);
    if by is Some {
        let k = by->Some_0 as int;
        let both = cards::composed(perms[k], perms[v]);
        assert(pair_composes(perms, k, v));
        let q = choose|q: int| 0 <= q < perms.len() && perms[q] == both;
        cards::law_composed(perms[k], perms[v], seen);
        let x = choose|x: int| 0 <= x < valid.len() && valid[x] == by->Some_0;
        assert(game::fixes(perms[valid[x] as int], dealt));
        assert forall|y: int| 0 <= y < dealt.len() implies cards::permuted(
            (#[trigger] dealt[y]) as int,
            both,
        ) == dealt[y] by {
            cards::law_composed(perms[k], perms[v], dealt[y] as int);
        }
        lemma_fixing_complete(perms, dealt, perms.len() as int, q);
        let z = choose|z: int| 0 <= z < valid.len() && valid[z] == q as usize;
        assert(rep <= cards::permuted(seen, perms[valid[z] as int]));
    } else {
        lemma_fixing_complete(perms, dealt, perms.len() as int, v);
        let z = choose|z: int| 0 <= z < valid.len() && valid[z] == v as usize;
        assert(rep <= cards::permuted(seen, perms[valid[z] as int]));
    }
}

proof fn lemma_fixing_complete(perms: Seq<[u8; 4]>, cs: Seq<Card>, n: int, q: int)
    requires
        0 <= q < n <= perms.len() <= usize::MAX,
        game::fixes(perms[q], cs),
    ensures
        spot::fixing(perms, cs, n).contains(q as usize),
    decreases n,
{
    let all = spot::fixing(perms, cs, n);
    if q == n - 1 {
        assert(all[all.len() - 1] == q as usize);
    } else {
        lemma_fixing_complete(perms, cs, n - 1, q);
        let before = spot::fixing(perms, cs, n - 1);
        let j = choose|j: int| 0 <= j < before.len() && before[j] == q as usize;
        assert(all[j] == before[j]);
    }
}

proof fn lemma_least_stays(perms: Seq<[u8; 4]>, valid: Seq<usize>, c: int, n: int)
    requires
        0 <= n <= valid.len(),
        forall|j: int|
            0 <= j < valid.len() ==> c <= cards::permuted(c, perms[(#[trigger] valid[j]) as int]),
    ensures
        least_under(perms, valid, c, n) == (c, None::<usize>),
    decreases n,
{
    if n > 0 {
        lemma_least_stays(perms, valid, c, n - 1);
    }
}

/// Law: a moved path stays where it is when it is moved again, as long as the
/// symmetries of the spot form a group.
pub proof fn law_canonical_path_is_settled(perms: Seq<[u8; 4]>, way: Seq<Step>)
    requires
        all_perms(perms),
        composes(perms),
        perms.len() <= usize::MAX,
    ensures
        moved(perms, moved(perms, way).steps) == (Moved { perm: unmoved(), ..moved(perms, way) }),
    decreases way.len(),
{
    if way.len() > 0 {
        let rest = way.drop_last();
        law_canonical_path_is_settled(perms, rest);
        lemma_moved(perms, rest);
        let m = moved(perms, rest);
        let all = moved(perms, way);
        let again = moved(perms, m.steps);
        assert(all.steps.drop_last() =~= m.steps);
        match way.last() {
            Step::Action { index } => {},
            Step::Card { text } => match cards::text_card(text) {
                Ok(c) => {
                    let seen = cards::permuted(c as int, m.perm);
                    let valid = spot::fixing(perms, m.dealt, perms.len() as int);
                    lemma_fixing_inside(perms, m.dealt, perms.len() as int);
                    lemma_least_under(perms, valid, seen, valid.len() as int);
                    let (rep, by) = least_under(perms, valid, seen, valid.len() as int);
                    cards::law_card_text_roundtrip(rep as u8);
                    assert(cards::permuted(rep, unmoved()) == rep);
                    assert forall|j: int| 0 <= j < valid.len() implies rep <= cards::permuted(
                        rep,
                        perms[(#[trigger] valid[j]) as int],
                    ) by {
                        lemma_representative(perms, m.dealt, seen, valid[j] as int);
                    }
                    lemma_least_stays(perms, valid, rep, valid.len() as int);
                },
                Err(_) => {},
            },
        }
    }
}

/// Law: each card of a moved path is the least that the symmetries make of
/// it, given the cards before it.
pub proof fn law_canonical_card_is_least(perms: Seq<[u8; 4]>, m: Moved, c: Card, k: int)
    requires
        all_perms(perms),
        perms.len() <= usize::MAX,
        cards::is_perm(m.perm),
        c < 52,
        0 <= k < perms.len(),
        game::fixes(perms[k], m.dealt),
    ensures
        moved_card(perms, m, c).dealt.last() <= cards::permuted(
            cards::permuted(c as int, m.perm),
            perms[k],
        ),
{
    let seen = cards::permuted(c as int, m.perm);
    let valid = spot::fixing(perms, m.dealt, perms.len() as int);
    lemma_fixing_inside(perms, m.dealt, perms.len() as int);
    lemma_least_under(perms, valid, seen, valid.len() as int);
    lemma_fixing_complete(perms, m.dealt, perms.len() as int, k);
    let z = choose|z: int| 0 <= z < valid.len() && valid[z] == k as usize;
    assert(valid[z] == k);
}

} // verus!
