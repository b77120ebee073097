//! Writing a range and reading it back.

use crate::cards;
use crate::cards::NUM_COMBOS;
use crate::nano;
use crate::nano::Nano;
use crate::num::Num;
use crate::range;
use crate::range::{Combo, Read, Run, Suitedness};
use crate::text;
use vstd::prelude::*;

verus! {

/// Whether a text neither ends a token nor has white space in it.
pub open spec fn solid(s: Seq<char>) -> bool {
    forall|i: int| 0 <= i < s.len() ==> !range::separates(#[trigger] s[i]) && !text::white_space(s[i])
}

/// Whether a text has no colon in it either.
pub open spec fn plain(s: Seq<char>) -> bool {
    solid(s) && forall|i: int| 0 <= i < s.len() ==> #[trigger] s[i] != ':'
}

/// What a weight's text is read as: one, where it passes for one and is left
/// out.
pub open spec fn written<W: Num>(w: W) -> W {
    if range::alike(w, W::decimal_spec(1, 0)) {
        W::decimal_spec(1, 0)
    } else {
        range::read_weight::<W>(range::weight_text(w), Seq::empty())->Ok_0
    }
}

/// Whether a weight's text can be read.
pub open spec fn legible<W: Num>(w: W) -> bool {
    range::alike(w, W::decimal_spec(1, 0)) || {
        &&& plain(range::weight_text(w))
        &&& range::read_weight::<W>(range::weight_text(w), Seq::empty()) is Ok
    }
}

/// Whether all weights that are written can be read.
pub open spec fn all_legible<W: Num>(weights: Seq<W>) -> bool {
    &&& weights.len() == NUM_COMBOS
    &&& forall|i: int|
        0 <= i < weights.len() && range::positive(#[trigger] weights[i]) ==> legible(weights[i])
}

/// How two cards make up a class.
pub open spec fn suitedness_of(a: int, b: int) -> Suitedness {
    if a / 4 == b / 4 {
        Suitedness::Pair
    } else if a % 4 == b % 4 {
        Suitedness::Suited
    } else {
        Suitedness::Offsuit
    }
}

/// The combos of the class that a combo belongs to.
pub open spec fn class_with(i: int) -> Seq<Combo> {
    let (a, b) = cards::combo_cards(i);
    range::class_combos(a as int / 4, b as int / 4, suitedness_of(a as int, b as int))
}

/// The weights that a range's text is read as: classes whose combos pass for
/// alike have the weight of their first combo, and weights have the places
/// that are written.
pub open spec fn read_as<W: Num>(weights: Seq<W>) -> Seq<W> {
    Seq::new(
        NUM_COMBOS as nat,
        |i: int|
            if range::uniform(weights, class_with(i)) {
                written(range::combo_weight(weights, class_with(i)[0]))
            } else if range::positive(weights[i]) {
                written(weights[i])
            } else {
                W::decimal_spec(0, 0)
            },
    )
}

/// Whether the combos of a class are read as they are written.
pub open spec fn class_goal<W: Num>(weights: Seq<W>, goal: Seq<W>, combos: Seq<Combo>) -> bool {
    forall|j: int|
        0 <= j < combos.len() ==> range::combo_weight(goal, #[trigger] combos[j]) == if range::uniform(
            weights,
            combos,
        ) {
            written(range::combo_weight(weights, combos[0]))
        } else if range::positive(range::combo_weight(weights, combos[j])) {
            written(range::combo_weight(weights, combos[j]))
        } else {
            W::decimal_spec(0, 0)
        }
}

// ---------------------------------------------------------------------------
// Texts
// ---------------------------------------------------------------------------

proof fn lemma_trimmed(s: Seq<char>)
    requires
        solid(s),
    ensures
        text::trimmed(s) == s,
{
}

proof fn lemma_first_of(s: Seq<char>, c: char)
    requires
        forall|i: int| 0 <= i < s.len() ==> #[trigger] s[i] != c,
    ensures
        text::first_of(s, c) == s.len(),
    decreases s.len(),
{
    if s.len() > 0 {
        lemma_first_of(s.drop_first(), c);
    }
}

proof fn lemma_last_of(s: Seq<char>, c: char)
    requires
        forall|i: int| 0 <= i < s.len() ==> #[trigger] s[i] != c,
    ensures
        text::last_of(s, c) == -1,
    decreases s.len(),
{
    if s.len() > 0 {
        lemma_last_of(s.drop_last(), c);
    }
}

proof fn lemma_last_colon(name: Seq<char>, tail: Seq<char>)
    requires
        forall|i: int| 0 <= i < tail.len() ==> #[trigger] tail[i] != ':',
    ensures
        text::last_of(name + seq![':'] + tail, ':') == name.len(),
    decreases tail.len(),
{
    let s = name + seq![':'] + tail;
    if tail.len() > 0 {
        assert(s.drop_last() =~= name + seq![':'] + tail.drop_last());
        assert(s.last() == tail.last());
        lemma_last_colon(name, tail.drop_last());
    } else {
        assert(s.last() == ':');
    }
}

proof fn lemma_token_end(s: Seq<char>, more: Seq<char>)
    ensures
        0 <= range::token_end(s) <= s.len(),
        range::token_end(s) < s.len() ==> range::token_end(s + more) == range::token_end(s),
        range::token_end(s) == s.len() ==> range::token_end(s + more) == s.len()
            + range::token_end(more),
    decreases s.len(),
{
    if s.len() == 0 {
        assert(s + more =~= more);
    } else if !range::separates(s[0]) {
        lemma_token_end(s.drop_first(), more);
        assert((s + more).drop_first() =~= s.drop_first() + more);
    }
}

proof fn lemma_solid_end(s: Seq<char>)
    requires
        solid(s),
    ensures
        range::token_end(s) == s.len(),
    decreases s.len(),
{
    if s.len() > 0 {
        lemma_solid_end(s.drop_first());
    }
}

// ---------------------------------------------------------------------------
// Reading part by part
// ---------------------------------------------------------------------------

/// The weights after each part in turn.
pub open spec fn put<W: Num>(w: Seq<W>, parts: Seq<Seq<char>>) -> Read<Seq<W>>
    decreases parts.len(),
{
    if parts.len() == 0 {
        Ok(w)
    } else {
        match put(w, parts.drop_last()) {
            Err(e) => Err(e),
            Ok(x) => range::token_applied(x, parts.last()),
        }
    }
}

proof fn lemma_one_token<W: Num>(w: Seq<W>, p: Seq<char>)
    requires
        solid(p),
    ensures
        range::tokens_applied(w, p) == range::token_applied(w, p),
{
    lemma_solid_end(p);
    assert(p.take(p.len() as int) =~= p);
}

proof fn lemma_one_more_token<W: Num>(w: Seq<W>, s: Seq<char>, p: Seq<char>)
    requires
        solid(p),
    ensures
        range::tokens_applied(w, s + seq![','] + p) == match range::tokens_applied(w, s) {
            Err(e) => Err(e),
            Ok(x) => range::token_applied(x, p),
        },
    decreases s.len(),
{
    let comma = seq![','];
    let all = s + comma + p;
    let end = range::token_end(s);
    assert(all =~= s + (comma + p));
    lemma_token_end(s, comma + p);
    assert((comma + p)[0] == ',');
    if end < s.len() {
        assert(all.take(end) =~= s.take(end));
        assert(all.skip(end + 1) =~= s.skip(end + 1) + comma + p);
        match range::token_applied(w, s.take(end)) {
            Err(_) => {},
            Ok(next) => {
                lemma_one_more_token(next, s.skip(end + 1), p);
            },
        }
    } else {
        assert(range::token_end(comma + p) == 0);
        assert(all.take(end) =~= s);
        assert(s.take(end) =~= s);
        assert(all.skip(end + 1) =~= p);
        match range::token_applied(w, s) {
            Err(_) => {},
            Ok(next) => {
                lemma_one_token(next, p);
            },
        }
    }
}

proof fn lemma_joined<W: Num>(w: Seq<W>, parts: Seq<Seq<char>>)
    requires
        forall|i: int| 0 <= i < parts.len() ==> solid(#[trigger] parts[i]),
    ensures
        range::tokens_applied(w, range::joined(parts)) == put(w, parts),
    decreases parts.len(),
{
    let none = Seq::<char>::empty();
    if parts.len() == 0 {
        lemma_one_token(w, none);
        assert(text::trimmed(none) =~= none);
    } else if parts.len() == 1 {
        lemma_one_token(w, parts[0]);
        assert(parts.drop_last() =~= Seq::empty());
        assert(put(w, parts.drop_last()) == Read::<Seq<W>>::Ok(w));
    } else {
        lemma_joined(w, parts.drop_last());
        lemma_one_more_token(w, range::joined(parts.drop_last()), parts.last());
    }
}

proof fn lemma_put_more<W: Num>(w: Seq<W>, a: Seq<Seq<char>>, b: Seq<Seq<char>>)
    ensures
        put(w, a + b) == match put(w, a) {
            Err(e) => Err(e),
            Ok(x) => put(x, b),
        },
    decreases b.len(),
{
    if b.len() == 0 {
        assert(a + b =~= a);
    } else {
        assert((a + b).drop_last() =~= a + b.drop_last());
        lemma_put_more(w, a, b.drop_last());
    }
}

/// A name with its weight sets the combos that it names to the weight.
proof fn lemma_token<W: Num>(w: Seq<W>, name: Seq<char>, x: W, combos: Seq<Combo>)
    requires
        plain(name),
        name.len() > 0,
        range::item_combos(name) == Read::<Seq<Combo>>::Ok(combos),
        legible(x),
    ensures
        solid(range::tagged(name, x)),
        range::token_applied(w, range::tagged(name, x)) == Read::<Seq<W>>::Ok(
            range::weighted(w, combos, written(x)),
        ),
{
    let token = range::tagged(name, x);
    if range::alike(x, W::decimal_spec(1, 0)) {
        lemma_trimmed(token);
        lemma_last_of(token, ':');
    } else {
        let tail = range::weight_text(x);
        assert(token == name + seq![':'] + tail);
        assert forall|i: int| 0 <= i < token.len() implies !range::separates(#[trigger] token[i])
            && !text::white_space(token[i]) by {
            if i < name.len() {
                assert(token[i] == name[i]);
            } else if i > name.len() {
                assert(token[i] == tail[i - name.len() - 1]);
            }
        }
        lemma_trimmed(token);
        lemma_last_colon(name, tail);
        assert(token.skip(name.len() as int + 1) =~= tail);
        assert(token.take(name.len() as int) =~= name);
        lemma_trimmed(tail);
    }
}

// ---------------------------------------------------------------------------
// Names
// ---------------------------------------------------------------------------

proof fn lemma_names(r: int)
    requires
        0 <= r < 13,
    ensures
        cards::rank_named(cards::rank_name(r)) == Some(r as u8),
        plain(seq![cards::rank_name(r)]),
        cards::rank_name(r) != '-',
        cards::rank_name(r) != '+',
{
}

proof fn lemma_combo_item(c: Combo)
    requires
        c.0 < 52,
        c.1 < 52,
        c.0 != c.1,
    ensures
        plain(range::combo_name(c)),
        range::combo_name(c).len() > 0,
        range::item_combos(range::combo_name(c)) == Read::<Seq<Combo>>::Ok(seq![c]),
{
    let name = range::combo_name(c);
    lemma_names(c.0 as int / 4);
    lemma_names(c.1 as int / 4);
    cards::law_card_text_roundtrip(c.0);
    cards::law_card_text_roundtrip(c.1);
    assert(name =~= seq![
        cards::rank_name(c.0 as int / 4),
        cards::suit_name(c.0 as int % 4),
        cards::rank_name(c.1 as int / 4),
        cards::suit_name(c.1 as int % 4),
    ]);
    assert(plain(name)) by {
        assert forall|i: int| 0 <= i < name.len() implies !range::separates(#[trigger] name[i])
            && !text::white_space(name[i]) && name[i] != ':' by {
            assert(seq![cards::rank_name(c.0 as int / 4)][0] == name[0]);
            assert(seq![cards::rank_name(c.1 as int / 4)][0] == name[2]);
        }
    }
    lemma_trimmed(name);
}

proof fn lemma_class_item(hi: int, lo: int, s: Suitedness)
    requires
        0 <= lo <= hi < 13,
        (s == Suitedness::Pair) == (hi == lo),
    ensures
        plain(range::class_name(hi, lo, s)),
        range::class_name(hi, lo, s).len() > 0,
        range::item_combos(range::class_name(hi, lo, s)) == Read::<Seq<Combo>>::Ok(
            range::class_combos(hi, lo, s),
        ),
{
    let name = range::class_name(hi, lo, s);
    lemma_names(hi);
    lemma_names(lo);
    assert forall|i: int| 0 <= i < name.len() implies !range::separates(#[trigger] name[i])
        && !text::white_space(name[i]) && name[i] != ':' && name[i] != '-' && name[i] != '+' by {
        assert(seq![cards::rank_name(hi)][0] == name[0]);
        assert(seq![cards::rank_name(lo)][0] == name[1]);
    }
    lemma_trimmed(name);
    lemma_first_of(name, '-');
}

// ---------------------------------------------------------------------------
// Weights
// ---------------------------------------------------------------------------

/// Whether a weight has been read as it is wherever it has been read at all.
pub open spec fn under_way<W: Num>(w: Seq<W>, weights: Seq<W>) -> bool {
    &&& w.len() == weights.len()
    &&& forall|i: int|
        0 <= i < weights.len() ==> #[trigger] w[i] == weights[i] || w[i] == W::decimal_spec(0, 0)
}

/// Whether what was read as it is still is.
pub open spec fn keeps<W: Num>(was: Seq<W>, now: Seq<W>, weights: Seq<W>) -> bool {
    forall|i: int|
        0 <= i < weights.len() && was[i] == weights[i] ==> #[trigger] now[i] == weights[i]
}

/// Whether the first `n` of some combos have been read.
pub open spec fn read_to<W>(w: Seq<W>, weights: Seq<W>, combos: Seq<Combo>, n: int) -> bool {
    forall|j: int|
        0 <= j < n ==> range::combo_weight(w, #[trigger] combos[j]) == range::combo_weight(
            weights,
            combos[j],
        )
}

proof fn lemma_combo_number(c: Combo)
    requires
        c.0 < 52,
        c.1 < 52,
        c.0 != c.1,
    ensures
        0 <= cards::combo_number(c.0 as int, c.1 as int) < NUM_COMBOS,
{
    let (a, b) = if c.0 > c.1 {
        (c.0 as int, c.1 as int)
    } else {
        (c.1 as int, c.0 as int)
    };
    assert(a * (a - 1) / 2 + b < 1326) by (nonlinear_arith)
        requires
            0 <= b < a < 52,
    ;
    assert(a * (a - 1) >= 0) by (nonlinear_arith)
        requires
            0 <= b < a,
    ;
}

proof fn lemma_weighted<W: Num>(w: Seq<W>, combos: Seq<Combo>, x: W, weights: Seq<W>)
    requires
        weights.len() == NUM_COMBOS,
        under_way(w, weights),
        range::real_combos(combos),
        forall|j: int|
            0 <= j < combos.len() ==> range::combo_weight(weights, #[trigger] combos[j]) == x,
    ensures
        under_way(range::weighted(w, combos, x), weights),
        keeps(w, range::weighted(w, combos, x), weights),
        read_to(range::weighted(w, combos, x), weights, combos, combos.len() as int),
    decreases combos.len(),
{
    if combos.len() > 0 {
        let rest = combos.drop_last();
        let c = combos.last();
        lemma_weighted(w, rest, x, weights);
        lemma_combo_number(c);
        let before = range::weighted(w, rest, x);
        let now = range::weighted(w, combos, x);
        let at = cards::combo_number(c.0 as int, c.1 as int);
        assert(range::combo_weight(weights, combos[combos.len() - 1]) == x);
        assert(now == before.update(at, x));
        assert forall|j: int| 0 <= j < combos.len() implies range::combo_weight(
            now,
            #[trigger] combos[j],
        ) == range::combo_weight(weights, combos[j]) by {
            lemma_combo_number(combos[j]);
            if j < rest.len() {
                assert(rest[j] == combos[j]);
            }
        }
    }
}

proof fn lemma_combo_part<W: Num>(w: Seq<W>, goal: Seq<W>, c: Combo, x: W)
    requires
        goal.len() == NUM_COMBOS,
        under_way(w, goal),
        c.0 < 52,
        c.1 < 52,
        c.0 != c.1,
        legible(x),
        range::combo_weight(goal, c) == written(x),
    ensures
        ({
            let token = range::tagged(range::combo_name(c), x);
            let now = range::token_applied(w, token);
            &&& solid(token)
            &&& now is Ok
            &&& under_way(now->Ok_0, goal)
            &&& keeps(w, now->Ok_0, goal)
            &&& range::combo_weight(now->Ok_0, c) == range::combo_weight(goal, c)
        }),
{
    let one = seq![c];
    lemma_combo_item(c);
    lemma_token(w, range::combo_name(c), x, one);
    lemma_weighted(w, one, written(x), goal);
    assert(one[0] == c);
}

proof fn lemma_combo_parts<W: Num>(
    w: Seq<W>,
    weights: Seq<W>,
    goal: Seq<W>,
    combos: Seq<Combo>,
    n: int,
)
    requires
        all_legible(weights),
        goal.len() == NUM_COMBOS,
        under_way(w, goal),
        range::real_combos(combos),
        class_goal(weights, goal, combos),
        !range::uniform(weights, combos),
        0 <= n <= combos.len(),
    ensures
        forall|i: int|
            0 <= i < range::combo_parts(weights, combos, n).len() ==> solid(
                #[trigger] range::combo_parts(weights, combos, n)[i],
            ),
        put(w, range::combo_parts(weights, combos, n)) is Ok,
        under_way(put(w, range::combo_parts(weights, combos, n))->Ok_0, goal),
        keeps(w, put(w, range::combo_parts(weights, combos, n))->Ok_0, goal),
        read_to(put(w, range::combo_parts(weights, combos, n))->Ok_0, goal, combos, n),
    decreases n,
{
    if n > 0 {
        lemma_combo_parts(w, weights, goal, combos, n - 1);
        let rest = range::combo_parts(weights, combos, n - 1);
        let parts = range::combo_parts(weights, combos, n);
        let before = put(w, rest)->Ok_0;
        let c = combos[n - 1];
        lemma_combo_number(c);
        if range::positive(range::combo_weight(weights, c)) {
            lemma_combo_part(before, goal, c, range::combo_weight(weights, c));
            assert(parts.drop_last() =~= rest);
            let now = put(w, parts)->Ok_0;
            assert forall|j: int| 0 <= j < n implies range::combo_weight(now, #[trigger] combos[j])
                == range::combo_weight(goal, combos[j]) by {
                lemma_combo_number(combos[j]);
                if j < n - 1 {
                    assert(range::combo_weight(before, combos[j]) == range::combo_weight(
                        goal,
                        combos[j],
                    ));
                }
            }
        } else {
            assert(parts == rest);
        }
    }
}

/// What is under way once a class has been read: all of it, and what was read
/// before.
pub open spec fn class_put<W: Num>(
    w: Seq<W>,
    weights: Seq<W>,
    parts: Seq<Seq<char>>,
    combos: Seq<Combo>,
) -> bool {
    &&& forall|i: int| 0 <= i < parts.len() ==> solid(#[trigger] parts[i])
    &&& put(w, parts) is Ok
    &&& under_way(put(w, parts)->Ok_0, weights)
    &&& keeps(w, put(w, parts)->Ok_0, weights)
    &&& read_to(put(w, parts)->Ok_0, weights, combos, combos.len() as int)
}

proof fn lemma_named_class<W: Num>(
    w: Seq<W>,
    weights: Seq<W>,
    goal: Seq<W>,
    name: Seq<char>,
    combos: Seq<Combo>,
)
    requires
        all_legible(weights),
        goal.len() == NUM_COMBOS,
        under_way(w, goal),
        plain(name),
        name.len() > 0,
        range::item_combos(name) == Read::<Seq<Combo>>::Ok(combos),
        range::real_combos(combos),
        combos.len() > 0,
        range::uniform(weights, combos),
        class_goal(weights, goal, combos),
    ensures
        class_put(
            w,
            goal,
            seq![range::tagged(name, range::combo_weight(weights, combos[0]))],
            combos,
        ),
{
    let x = range::combo_weight(weights, combos[0]);
    let parts = seq![range::tagged(name, x)];
    lemma_combo_number(combos[0]);
    lemma_token(w, name, x, combos);
    assert(parts.drop_last() =~= Seq::empty());
    assert(put(w, parts.drop_last()) == Read::<Seq<W>>::Ok(w));
    lemma_weighted(w, combos, written(x), goal);
}

proof fn lemma_class_parts<W: Num>(
    w: Seq<W>,
    weights: Seq<W>,
    goal: Seq<W>,
    hi: int,
    lo: int,
    s: Suitedness,
)
    requires
        all_legible(weights),
        goal.len() == NUM_COMBOS,
        under_way(w, goal),
        class_goal(weights, goal, range::class_combos(hi, lo, s)),
        0 <= lo <= hi < 13,
    ensures
        class_put(
            w,
            goal,
            range::class_parts(weights, hi, lo, s),
            range::class_combos(hi, lo, s),
        ),
{
    let combos = range::class_combos(hi, lo, s);
    range::lemma_class_real(hi, lo, s);
    if combos.len() > 0 && range::uniform(weights, combos) {
        lemma_class_item(hi, lo, s);
        lemma_named_class(w, weights, goal, range::class_name(hi, lo, s), combos);
    } else if combos.len() > 0 {
        lemma_combo_parts(w, weights, goal, combos, combos.len() as int);
    }
}

/// The combos of the class that comes at place `c` of a text.
pub open spec fn class_at(c: int) -> Seq<Combo> {
    range::class_combos(12 - c / 39, 12 - (c / 3) % 13, range::suitedness_at(c))
}

/// Whether a class comes at place `c` of a text: the higher rank is first.
pub open spec fn is_place(c: int) -> bool {
    12 - (c / 3) % 13 <= 12 - c / 39
}

proof fn lemma_class_kept<W: Num>(before: Seq<W>, now: Seq<W>, weights: Seq<W>, c: int)
    requires
        weights.len() == NUM_COMBOS,
        keeps(before, now, weights),
        0 <= c < 507,
        read_to(before, weights, class_at(c), class_at(c).len() as int),
    ensures
        read_to(now, weights, class_at(c), class_at(c).len() as int),
{
    let combos = class_at(c);
    range::lemma_class_real(12 - c / 39, 12 - (c / 3) % 13, range::suitedness_at(c));
    assert forall|j: int| 0 <= j < combos.len() implies range::combo_weight(
        now,
        #[trigger] combos[j],
    ) == range::combo_weight(weights, combos[j]) by {
        assert(range::combo_weight(before, combos[j]) == range::combo_weight(weights, combos[j]));
        lemma_combo_number(combos[j]);
    }
}

/// Whether the first `k` classes have been read.
pub open spec fn classes_read<W: Num>(w: Seq<W>, weights: Seq<W>, k: int) -> bool {
    forall|c: int|
        0 <= c < k && is_place(c) ==> read_to(
            w,
            weights,
            #[trigger] class_at(c),
            class_at(c).len() as int,
        )
}

proof fn lemma_all_parts<W: Num>(weights: Seq<W>, k: int)
    requires
        all_legible(weights),
        0 <= k <= 507,
    ensures
        forall|i: int|
            0 <= i < range::all_parts(weights, k).len() ==> solid(
                #[trigger] range::all_parts(weights, k)[i],
            ),
        put(range::empty_weights::<W>(), range::all_parts(weights, k)) is Ok,
        under_way(
            put(range::empty_weights::<W>(), range::all_parts(weights, k))->Ok_0,
            read_as(weights),
        ),
        classes_read(
            put(range::empty_weights::<W>(), range::all_parts(weights, k))->Ok_0,
            read_as(weights),
            k,
        ),
    decreases k,
{
    let none = range::empty_weights::<W>();
    let goal = read_as(weights);
    if k > 0 {
        lemma_all_parts(weights, k - 1);
        let hi = 12 - (k - 1) / 39;
        let lo = 12 - ((k - 1) / 3) % 13;
        let s = range::suitedness_at(k - 1);
        let rest = range::all_parts(weights, k - 1);
        let before = put(none, rest)->Ok_0;
        if lo <= hi {
            let more = range::class_parts(weights, hi, lo, s);
            lemma_class_goal(weights, hi, lo, s);
            lemma_class_parts(before, weights, goal, hi, lo, s);
            lemma_put_more(none, rest, more);
            let now = put(before, more)->Ok_0;
            assert(range::all_parts(weights, k) == rest + more);
            assert forall|c: int| 0 <= c < k && is_place(c) implies read_to(
                now,
                goal,
                #[trigger] class_at(c),
                class_at(c).len() as int,
            ) by {
                if c < k - 1 {
                    lemma_class_kept(before, now, goal, c);
                } else {
                    assert(class_at(c) == range::class_combos(hi, lo, s));
                }
            }
            assert forall|i: int| 0 <= i < (rest + more).len() implies solid(
                #[trigger] (rest + more)[i],
            ) by {
                if i >= rest.len() {
                    assert((rest + more)[i] == more[i - rest.len()]);
                }
            }
        } else {
            assert(range::all_parts(weights, k) == rest);
            assert(!is_place(k - 1));
        }
    }
}

/// The combos of a class know their class, and stand in order.
proof fn lemma_class_of_member(hi: int, lo: int, s: Suitedness, j: int)
    requires
        0 <= lo <= hi < 13,
        0 <= j < range::class_combos(hi, lo, s).len(),
    ensures
        ({
            let c = range::class_combos(hi, lo, s)[j];
            &&& c.1 < c.0 < 52
            &&& c.0 as int / 4 == hi
            &&& c.1 as int / 4 == lo
            &&& c.0 as int % 4 == range::suit_pairs(s)[j].0
            &&& c.1 as int % 4 == range::suit_pairs(s)[j].1
            &&& suitedness_of(c.0 as int, c.1 as int) == s
        }),
{
    let c = range::class_combos(hi, lo, s)[j];
    let x = range::suit_pairs(s)[j].0;
    let y = range::suit_pairs(s)[j].1;
    assert(0 <= x < 4 && 0 <= y < 4 && (s == Suitedness::Pair ==> y < x) && (s
        == Suitedness::Suited ==> x == y) && (s == Suitedness::Offsuit ==> x != y));
    assert(c.0 as int == hi * 4 + x && c.1 as int == lo * 4 + y);
}

proof fn lemma_member_number(hi: int, lo: int, s: Suitedness, j: int)
    requires
        0 <= lo <= hi < 13,
        0 <= j < range::class_combos(hi, lo, s).len(),
    ensures
        ({
            let c = range::class_combos(hi, lo, s)[j];
            let i = cards::combo_number(c.0 as int, c.1 as int);
            &&& 0 <= i < NUM_COMBOS
            &&& cards::combo_cards(i) == c
            &&& class_with(i) == range::class_combos(hi, lo, s)
        }),
{
    let c = range::class_combos(hi, lo, s)[j];
    let i = cards::combo_number(c.0 as int, c.1 as int);
    lemma_class_of_member(hi, lo, s, j);
    lemma_combo_number(c);
    cards::law_combo_cards(i);
    let (a, b) = cards::combo_cards(i);
    cards::law_combo_number_is_injective(a as int, b as int, c.0 as int, c.1 as int);
}

proof fn lemma_class_goal<W: Num>(weights: Seq<W>, hi: int, lo: int, s: Suitedness)
    requires
        weights.len() == NUM_COMBOS,
        0 <= lo <= hi < 13,
    ensures
        class_goal(weights, read_as(weights), range::class_combos(hi, lo, s)),
{
    let combos = range::class_combos(hi, lo, s);
    let goal = read_as(weights);
    assert forall|j: int| 0 <= j < combos.len() implies range::combo_weight(
        goal,
        #[trigger] combos[j],
    ) == if range::uniform(weights, combos) {
        written(range::combo_weight(weights, combos[0]))
    } else if range::positive(range::combo_weight(weights, combos[j])) {
        written(range::combo_weight(weights, combos[j]))
    } else {
        W::decimal_spec(0, 0)
    } by {
        lemma_member_number(hi, lo, s, j);
    }
}

proof fn lemma_offsuit(x: int, y: int, j: int)
    requires
        0 <= x < 4,
        0 <= y < 4,
        x != y,
        j == if y < x {
            x * 3 + y
        } else {
            x * 3 + y - 1
        },
    ensures
        0 <= j < 12,
        range::suit_pairs(Suitedness::Offsuit).len() == 12,
        range::suit_pairs(Suitedness::Offsuit)[j] == (x, y),
{
    if x == 0 {
        assert(j == y - 1);
    } else if x == 1 {
        assert(j == if y == 0 {
            3
        } else {
            y + 2
        });
    } else if x == 2 {
        assert(j == if y < 2 {
            6 + y
        } else {
            8
        });
    } else {
        assert(j == 9 + y);
    }
}

/// Every combo is one of its class.
proof fn lemma_in_class(a: int, b: int) -> (r: (int, int))
    requires
        0 <= b < a < 52,
    ensures
        ({
            let (c, j) = r;
            &&& 0 <= c < 507
            &&& is_place(c)
            &&& 0 <= j < class_at(c).len()
            &&& class_at(c)[j] == (a as u8, b as u8)
        }),
{
    let hi = a / 4;
    let lo = b / 4;
    let x = a % 4;
    let y = b % 4;
    let kind = if hi == lo {
        0int
    } else if x == y {
        1
    } else {
        2
    };
    let c = (12 - hi) * 39 + (12 - lo) * 3 + kind;
    assert(c / 39 == 12 - hi && c / 3 == (12 - hi) * 13 + (12 - lo) && c % 3 == kind);
    assert(((12 - hi) * 13 + (12 - lo)) % 13 == 12 - lo);
    let j = if kind == 0 {
        if x == 1 {
            0
        } else if x == 2 {
            1 + y
        } else {
            3 + y
        }
    } else if kind == 1 {
        x
    } else if y < x {
        x * 3 + y
    } else {
        x * 3 + y - 1
    };
    let pairs = range::suit_pairs(range::suitedness_at(c));
    if kind == 0 {
        assert(y < x);
        assert(range::suitedness_at(c) == Suitedness::Pair);
        assert(pairs[j] == (x, y));
    } else if kind == 1 {
        assert(range::suitedness_at(c) == Suitedness::Suited);
        assert(pairs[j] == (x, y));
    } else {
        assert(range::suitedness_at(c) == Suitedness::Offsuit);
        lemma_offsuit(x, y, j);
        assert(pairs[j] == (x, y));
    }
    (c, j)
}

/// Law: what the compact text of a range is read as.
pub proof fn law_compact_text_is_read<W: Num>(weights: Seq<W>)
    requires
        all_legible(weights),
    ensures
        range::tokens_applied(
            range::empty_weights::<W>(),
            range::joined(range::all_parts(weights, 507)),
        ) == Read::<Seq<W>>::Ok(read_as(weights)),
{
    let none = range::empty_weights::<W>();
    let parts = range::all_parts(weights, 507);
    let goal = read_as(weights);
    lemma_all_parts(weights, 507);
    lemma_joined(none, parts);
    let now = put(none, parts)->Ok_0;
    assert forall|i: int| 0 <= i < NUM_COMBOS implies now[i] == goal[i] by {
        cards::law_combo_cards(i);
        let (a, b) = cards::combo_cards(i);
        let (c, j) = lemma_in_class(a as int, b as int);
        let combos = class_at(c);
        assert(range::combo_weight(now, combos[j]) == range::combo_weight(goal, combos[j]));
    }
    assert(now =~= goal);
}

/// Whether a range's text tells all of it: its weights come back from their
/// texts, those left out are zero, and combos of a class that pass for alike
/// are.
pub open spec fn told<W: Num>(weights: Seq<W>) -> bool {
    &&& weights.len() == NUM_COMBOS
    &&& forall|i: int|
        0 <= i < weights.len() ==> if range::positive(#[trigger] weights[i]) {
            legible(weights[i]) && written(weights[i]) == weights[i]
        } else {
            weights[i] == W::decimal_spec(0, 0)
        }
    &&& forall|i: int|
        0 <= i < weights.len() && range::uniform(weights, class_with(i)) ==> #[trigger] weights[i]
            == range::combo_weight(weights, class_with(i)[0])
}

/// Law: reading the compact text of a range gives back its very weights, where
/// the text tells all of it.
pub proof fn law_compact_text_reads_back<W: Num>(weights: Seq<W>)
    requires
        told(weights),
    ensures
        range::tokens_applied(
            range::empty_weights::<W>(),
            range::joined(range::all_parts(weights, 507)),
        ) == Read::<Seq<W>>::Ok(weights),
{
    law_compact_text_is_read(weights);
    assert forall|i: int| 0 <= i < NUM_COMBOS implies read_as(weights)[i] == weights[i] by {
        if range::uniform(weights, class_with(i)) {
            lemma_first_of_class(i);
            assert(weights[i] == range::combo_weight(weights, class_with(i)[0]));
            let c = class_with(i)[0];
            let k = cards::combo_number(c.0 as int, c.1 as int);
            assert(range::positive(weights[k]));
        }
    }
    assert(read_as(weights) =~= weights);
}

/// Every combo is one of the class with it.
proof fn lemma_first_of_class(i: int)
    requires
        0 <= i < NUM_COMBOS,
    ensures
        class_with(i).len() > 0,
        exists|j: int|
            0 <= j < class_with(i).len() && #[trigger] class_with(i)[j] == cards::combo_cards(i),
        0 <= cards::combo_number(
            class_with(i)[0].0 as int,
            class_with(i)[0].1 as int,
        ) < NUM_COMBOS,
{
    cards::law_combo_cards(i);
    let (a, b) = cards::combo_cards(i);
    let (c, j) = lemma_in_class(a as int, b as int);
    let hi = 12 - c / 39;
    let lo = 12 - (c / 3) % 13;
    let s = range::suitedness_at(c);
    lemma_member_number(hi, lo, s, j);
    assert(class_with(i) == class_at(c));
    assert(class_with(i)[j] == cards::combo_cards(i));
    lemma_member_number(hi, lo, s, 0);
}

// ---------------------------------------------------------------------------
// Exact weights
// ---------------------------------------------------------------------------

pub open spec fn digit(n: int) -> char {
    (48 + n) as char
}

pub(crate) proof fn lemma_one_digit_more(s: Seq<char>, v: int, d: int)
    requires
        nano::digits_value(s) == Some(v),
        0 <= d < 10,
    ensures
        nano::digits_value(s.push(digit(d))) == Some(10 * v + d),
{
    assert(s.push(digit(d)).drop_last() =~= s);
}

proof fn lemma_nine_digits(x: int, y: int, z: int)
    requires
        0 <= x < 10,
        0 <= y < 10,
        0 <= z < 10,
    ensures
        nano::digits_value(
            seq![digit(x), digit(y), digit(z), '0', '0', '0', '0', '0', '0'],
        ) == Some((100 * x + 10 * y + z) * 1_000_000),
{
    let none = Seq::<char>::empty();
    let a = none.push(digit(x));
    let b = a.push(digit(y));
    let c = b.push(digit(z));
    let d = c.push(digit(0));
    let e = d.push(digit(0));
    let f = e.push(digit(0));
    let g = f.push(digit(0));
    let h = g.push(digit(0));
    let k = 100 * x + 10 * y + z;
    lemma_one_digit_more(none, 0, x);
    lemma_one_digit_more(a, x, y);
    lemma_one_digit_more(b, 10 * x + y, z);
    lemma_one_digit_more(c, k, 0);
    lemma_one_digit_more(d, 10 * k, 0);
    lemma_one_digit_more(e, 100 * k, 0);
    lemma_one_digit_more(f, 1000 * k, 0);
    lemma_one_digit_more(g, 10_000 * k, 0);
    lemma_one_digit_more(h, 100_000 * k, 0);
    assert(h.push(digit(0)) =~= seq![
        digit(x),
        digit(y),
        digit(z),
        '0',
        '0',
        '0',
        '0',
        '0',
        '0',
    ]);
}

/// Digits have a value.
proof fn lemma_some_digits(s: Seq<char>)
    requires
        forall|i: int| 0 <= i < s.len() ==> nano::is_digit(#[trigger] s[i]),
    ensures
        nano::digits_value(s) is Some,
    decreases s.len(),
{
    if s.len() > 0 {
        lemma_some_digits(s.drop_last());
    }
}

/// Reading "0." and up to three digits gives thousandths.
proof fn lemma_read_places(places: Seq<char>, x: int, y: int, z: int)
    requires
        0 <= x < 10,
        0 <= y < 10,
        0 <= z < 10,
        1 <= places.len() <= 3,
        places[0] == digit(x),
        places.len() > 1 ==> places[1] == digit(y),
        places.len() <= 1 ==> y == 0,
        places.len() > 2 ==> places[2] == digit(z),
        places.len() <= 2 ==> z == 0,
    ensures
        nano::billionths(seq!['0', '.'] + places) == Some((100 * x + 10 * y + z) * 1_000_000),
{
    let t = seq!['0', '.'] + places;
    assert(t[0] == '0' && t[1] == '.');
    assert(text::first_of(t, '.') == 1) by {
        assert(t.drop_first()[0] == '.');
        assert(text::first_of(t.drop_first(), '.') == 0);
    }
    assert(t.take(1) =~= seq!['0']);
    assert(t.skip(2) =~= places);
    assert(nano::digits_value(seq!['0']) == Some(0int)) by {
        lemma_one_digit_more(Seq::empty(), 0, 0);
        assert(seq!['0'] =~= Seq::empty().push(digit(0)));
    }
    assert forall|i: int| 0 <= i < places.len() implies nano::is_digit(#[trigger] places[i]) by {}
    lemma_some_digits(places);
    lemma_nine_digits(x, y, z);
    assert(nano::nine_places(places) =~= seq![
        digit(x),
        digit(y),
        digit(z),
        '0',
        '0',
        '0',
        '0',
        '0',
        '0',
    ]);
}

proof fn lemma_three_places(count: int, k: int)
    requires
        0 <= count,
        k == (count + 500_000) / 1_000_000,
        0 < k < 1000,
    ensures
        nano::fixed_text(count, 3) == seq![
            '0',
            '.',
            digit(k / 100),
            digit(k / 10 % 10),
            digit(k % 10),
        ],
{
    reveal_with_fuel(nano::ten_to, 8);
    reveal_with_fuel(nano::padded_text, 4);
    assert(k % 1000 == k && k / 1000 == 0);
    assert(k / 10 / 10 == k / 100);
    assert(k / 100 % 10 == k / 100);
    assert(nano::padded_text(k, 3) =~= seq![digit(k / 100), digit(k / 10 % 10), digit(k % 10)]);
    assert(nano::digits_text(0) =~= seq!['0']);
    assert(nano::fixed_text(count, 3) =~= seq![
        '0',
        '.',
        digit(k / 100),
        digit(k / 10 % 10),
        digit(k % 10),
    ]);
}

proof fn lemma_whole_places(count: int, k: int, d: int)
    requires
        0 <= count,
        k == (count + 500_000) / 1_000_000,
        k == 1000 * d,
        0 <= d < 10,
    ensures
        nano::fixed_text(count, 3) == seq![digit(d), '.', '0', '0', '0'],
{
    reveal_with_fuel(nano::ten_to, 8);
    reveal_with_fuel(nano::padded_text, 4);
    assert(k % 1000 == 0 && k / 1000 == d);
    assert(nano::padded_text(0, 3) =~= seq!['0', '0', '0']);
    assert(nano::digits_text(d) =~= seq![digit(d)]);
    assert(nano::fixed_text(count, 3) =~= seq![digit(d), '.', '0', '0', '0']);
}

/// Reading a weight that has been written gives the nearest thousandth.
proof fn lemma_nano_written(w: Nano)
    requires
        0 <= w.count <= 1_000_000_000,
    ensures
        legible(w),
        !range::alike(w, Nano::decimal_spec(1, 0)) ==> written(w).count == ((w.count + 500_000)
            / 1_000_000) * 1_000_000,
        range::alike(w, Nano::decimal_spec(1, 0)) ==> written(w).count == 1_000_000_000
            && 1_000_000_000 - w.count < 100_000,
{
    let one = Nano::decimal_spec(1, 0);
    reveal_with_fuel(nano::ten_to, 10);
    assert(one.count == 1_000_000_000);
    assert(nano::ten_to(4) == 10_000);
    assert(nano::cut_div(1_000_000_000, 10_000) == 100_000);
    assert(Nano::decimal_spec(1, 4).count == 100_000);
    assert(Nano::decimal_spec(0, 0).count == 0);
    assert(Nano::decimal_spec(100, 0).count == 100_000_000_000);
    if !range::alike(w, one) {
        let k = (w.count as int + 500_000) / 1_000_000;
        assert(0 <= k <= 1000);
        let t = range::weight_text(w);
        lemma_weight_text(w, k);
        assert(nano::clamp_count(k * 1_000_000) == k * 1_000_000);
    }
}

proof fn lemma_weight_text(w: Nano, k: int)
    requires
        0 <= w.count <= 1_000_000_000,
        k == (w.count as int + 500_000) / 1_000_000,
    ensures
        plain(range::weight_text(w)),
        nano::billionths(range::weight_text(w)) == Some(k * 1_000_000),
{
    assert(0 <= k <= 1000);
    let x = k / 100;
    let y = k / 10 % 10;
    let z = k % 10;
    let all = w.fixed_spec(3);
    if 0 < k < 1000 {
        assert(k == 100 * x + 10 * y + z);
        lemma_three_places(w.count as int, k);
        assert(all == seq!['0', '.', digit(x), digit(y), digit(z)]);
        let places = if z != 0 {
            seq![digit(x), digit(y), digit(z)]
        } else if y != 0 {
            seq![digit(x), digit(y)]
        } else {
            seq![digit(x)]
        };
        let t = seq!['0', '.'] + places;
        assert(text::stripped(all, '0') == t) by {
            reveal_with_fuel(text::stripped, 4);
            assert(all.drop_last() =~= seq!['0', '.', digit(x), digit(y)]);
            assert(all.drop_last().drop_last() =~= seq!['0', '.', digit(x)]);
            assert(t =~= if z != 0 {
                all
            } else if y != 0 {
                all.drop_last()
            } else {
                all.drop_last().drop_last()
            });
        }
        assert(text::stripped(t, '.') == t) by {
            assert(t.last() == places.last());
        }
        assert(range::weight_text(w) == t);
        assert(plain(t)) by {
            assert forall|i: int| 0 <= i < t.len() implies !range::separates(#[trigger] t[i])
                && !text::white_space(t[i]) && t[i] != ':' by {
                if i >= 2 {
                    assert(t[i] == places[i - 2]);
                }
            }
        }
        lemma_read_places(places, x, y, z);
    } else {
        let d = if k == 0 {
            0int
        } else {
            1int
        };
        lemma_whole_places(w.count as int, k, d);
        assert(all == seq![digit(d), '.', '0', '0', '0']);
        let t = seq![digit(d)];
        assert(range::weight_text(w) == t) by {
            reveal_with_fuel(text::stripped, 5);
            assert(all.drop_last() =~= seq![digit(d), '.', '0', '0']);
            assert(all.drop_last().drop_last() =~= seq![digit(d), '.', '0']);
            assert(all.drop_last().drop_last().drop_last() =~= seq![digit(d), '.']);
            assert(seq![digit(d), '.'].drop_last() =~= t);
            assert(text::stripped(all, '0') == seq![digit(d), '.']);
            assert(text::stripped(seq![digit(d), '.'], '.') == t);
        }
        assert(plain(t));
        assert(t[0] == digit(d));
        assert(text::first_of(t, '.') == 1) by {
            assert(t.drop_first() =~= Seq::empty());
            assert(text::first_of(t.drop_first(), '.') == 0);
        }
        assert(t.take(1) =~= t);
        lemma_one_digit_more(Seq::empty(), 0, d);
        assert(t =~= Seq::empty().push(digit(d)));
        let zeros = nano::nine_places(Seq::empty());
        lemma_nine_digits(0, 0, 0);
        assert(zeros =~= seq![digit(0), digit(0), digit(0), '0', '0', '0', '0', '0', '0']);
    }
}

/// Law: for exact weights from zero to one, the compact text of a range is
/// read back to within a thousandth.
pub proof fn law_compact_text_reads_near(weights: Seq<Nano>, i: int)
    requires
        weights.len() == NUM_COMBOS,
        forall|k: int|
            0 <= k < weights.len() ==> 0 <= (#[trigger] weights[k]).count <= 1_000_000_000,
        0 <= i < NUM_COMBOS,
    ensures
        range::tokens_applied(
            range::empty_weights::<Nano>(),
            range::joined(range::all_parts(weights, 507)),
        ) == Read::<Seq<Nano>>::Ok(read_as(weights)),
        -1_000_000 < read_as(weights)[i].count - weights[i].count < 1_000_000,
{
    assert forall|k: int|
        0 <= k < weights.len() && range::positive(#[trigger] weights[k]) implies legible(
        weights[k],
    ) by {
        lemma_nano_written(weights[k]);
    }
    law_compact_text_is_read(weights);
    reveal_with_fuel(nano::ten_to, 10);
    assert(Nano::decimal_spec(0, 0).count == 0);
    assert(nano::cut_div(1_000_000_000, 10_000) == 100_000);
    assert(Nano::decimal_spec(1, 4).count == 100_000);
    lemma_nano_written(weights[i]);
    if range::uniform(weights, class_with(i)) {
        lemma_first_of_class(i);
        cards::law_combo_cards(i);
        let combos = class_with(i);
        let first = range::combo_weight(weights, combos[0]);
        lemma_nano_written(first);
        let j = choose|j: int| 0 <= j < combos.len() && combos[j] == cards::combo_cards(i);
        assert(range::combo_weight(weights, combos[j]) == weights[i]);
        assert(range::alike(weights[i], first));
    }
}

// ---------------------------------------------------------------------------
// Classes
// ---------------------------------------------------------------------------

proof fn lemma_suit_pairs_differ(s: Suitedness, j: int, k: int)
    requires
        0 <= j < range::suit_pairs(s).len(),
        0 <= k < range::suit_pairs(s).len(),
        range::suit_pairs(s)[j] == range::suit_pairs(s)[k],
    ensures
        j == k,
{
    let x = range::suit_pairs(s)[j].0;
    let y = range::suit_pairs(s)[j].1;
    match s {
        Suitedness::Pair => {
            assert(j == if x == 1 {
                0
            } else if x == 2 {
                1 + y
            } else {
                3 + y
            });
        },
        Suitedness::Suited => {
            assert(j == x);
        },
        Suitedness::Offsuit => {
            lemma_offsuit_place(j);
            lemma_offsuit_place(k);
        },
    }
}

proof fn lemma_offsuit_place(j: int)
    requires
        0 <= j < 12,
    ensures
        ({
            let (x, y) = range::suit_pairs(Suitedness::Offsuit)[j];
            j == if y < x {
                x * 3 + y
            } else {
                x * 3 + y - 1
            }
        }),
{
    let pairs = range::suit_pairs(Suitedness::Offsuit);
    assert(j == 0 || j == 1 || j == 2 || j == 3 || j == 4 || j == 5 || j == 6 || j == 7 || j == 8
        || j == 9 || j == 10 || j == 11);
}

/// Law: every combo is listed by exactly one class, in exactly one place.
pub proof fn law_classes_split_the_combos(i: int)
    requires
        0 <= i < NUM_COMBOS,
    ensures
        exists|hi: int, lo: int, s: Suitedness, j: int| lists(hi, lo, s, j, i),
        forall|hi: int, lo: int, s: Suitedness, j: int, hi2: int, lo2: int, s2: Suitedness, k: int|
            lists(hi, lo, s, j, i) && lists(hi2, lo2, s2, k, i) ==> hi == hi2 && lo == lo2 && s
                == s2 && j == k,
{
    cards::law_combo_cards(i);
    let (a, b) = cards::combo_cards(i);
    let (c, j) = lemma_in_class(a as int, b as int);
    assert(lists(12 - c / 39, 12 - (c / 3) % 13, range::suitedness_at(c), j, i));
    assert forall|
        hi: int,
        lo: int,
        s: Suitedness,
        j: int,
        hi2: int,
        lo2: int,
        s2: Suitedness,
        k: int,
    | lists(hi, lo, s, j, i) && lists(hi2, lo2, s2, k, i) implies hi == hi2 && lo == lo2 && s == s2
        && j == k by {
        lemma_member_number(hi, lo, s, j);
        lemma_member_number(hi2, lo2, s2, k);
        lemma_class_of_member(hi, lo, s, j);
        lemma_class_of_member(hi2, lo2, s2, k);
        lemma_suit_pairs_differ(s, j, k);
    }
}

/// Whether combo `i` stands at place `j` of a class.
pub open spec fn lists(hi: int, lo: int, s: Suitedness, j: int, i: int) -> bool {
    &&& 0 <= lo <= hi < 13
    &&& 0 <= j < range::class_combos(hi, lo, s).len()
    &&& cards::combo_number(
        range::class_combos(hi, lo, s)[j].0 as int,
        range::class_combos(hi, lo, s)[j].1 as int,
    ) == i
}

pub open spec fn one_if(b: bool) -> int {
    if b {
        1
    } else {
        0
    }
}

/// How many classes of two ranks have combos.
pub open spec fn classes_of(hi: int, lo: int) -> int {
    one_if(range::class_combos(hi, lo, Suitedness::Pair).len() > 0) + one_if(
        range::class_combos(hi, lo, Suitedness::Suited).len() > 0,
    ) + one_if(range::class_combos(hi, lo, Suitedness::Offsuit).len() > 0)
}

/// How many classes with the higher rank `hi` and a lower rank below `lo` have
/// combos.
pub open spec fn classes_under(hi: int, lo: int) -> int
    decreases lo,
{
    if lo <= 0 {
        0
    } else {
        classes_under(hi, lo - 1) + classes_of(hi, lo - 1)
    }
}

/// How many classes with a higher rank below `hi` have combos.
pub open spec fn classes_below(hi: int) -> int
    decreases hi,
{
    if hi <= 0 {
        0
    } else {
        classes_below(hi - 1) + classes_under(hi - 1, hi)
    }
}

proof fn lemma_classes_under(hi: int, lo: int)
    requires
        0 <= lo <= hi,
    ensures
        classes_under(hi, lo) == 2 * lo,
    decreases lo,
{
    if lo > 0 {
        lemma_classes_under(hi, lo - 1);
    }
}

proof fn lemma_classes_below(hi: int)
    requires
        0 <= hi,
    ensures
        classes_below(hi) == hi * hi,
    decreases hi,
{
    if hi > 0 {
        lemma_classes_below(hi - 1);
        lemma_classes_under(hi - 1, hi - 1);
        assert(classes_under(hi - 1, hi) == classes_under(hi - 1, hi - 1) + classes_of(
            hi - 1,
            hi - 1,
        ));
        assert(classes_of(hi - 1, hi - 1) == 1) by {
            assert(range::class_combos(hi - 1, hi - 1, Suitedness::Pair).len() == 6);
            assert(range::class_combos(hi - 1, hi - 1, Suitedness::Suited).len() == 0);
            assert(range::class_combos(hi - 1, hi - 1, Suitedness::Offsuit).len() == 0);
        }
        assert((hi - 1) * (hi - 1) + 2 * (hi - 1) + 1 == hi * hi) by (nonlinear_arith);
        assert(classes_below(hi) == classes_below(hi - 1) + classes_under(hi - 1, hi));
    } else {
        assert(hi * hi == 0) by (nonlinear_arith)
            requires
                hi == 0,
        ;
    }
}

/// Law: 169 classes have combos.
pub proof fn law_there_are_169_classes()
    ensures
        classes_below(13) == 169,
{
    lemma_classes_below(13);
}

// ---------------------------------------------------------------------------
// Spans
// ---------------------------------------------------------------------------

proof fn lemma_front_stays(s: Seq<char>, more: Seq<char>)
    requires
        more.len() > 0,
        !text::white_space(more[0]),
    ensures
        text::trimmed_front(s + more) == text::trimmed_front(s) + more,
    decreases s.len(),
{
    if s.len() == 0 {
        assert(s + more =~= more);
        assert(text::trimmed_front(s) + more =~= more);
    } else {
        assert((s + more)[0] == s[0]);
        if text::white_space(s[0]) {
            assert((s + more).drop_first() =~= s.drop_first() + more);
            lemma_front_stays(s.drop_first(), more);
        }
    }
}

proof fn lemma_back_stays(more: Seq<char>, s: Seq<char>)
    requires
        more.len() > 0,
        !text::white_space(more.last()),
    ensures
        text::trimmed_back(more + s) == more + text::trimmed_back(s),
    decreases s.len(),
{
    if s.len() == 0 {
        assert(more + s =~= more);
        assert(more + text::trimmed_back(s) =~= more);
    } else {
        assert((more + s).last() == s.last());
        if text::white_space(s.last()) {
            assert((more + s).drop_last() =~= more + s.drop_last());
            lemma_back_stays(more, s.drop_last());
        }
    }
}

proof fn lemma_front_twice(s: Seq<char>)
    ensures
        text::trimmed_front(text::trimmed_front(s)) == text::trimmed_front(s),
    decreases s.len(),
{
    if s.len() > 0 && text::white_space(s[0]) {
        lemma_front_twice(s.drop_first());
    }
}

proof fn lemma_back_twice(s: Seq<char>)
    ensures
        text::trimmed_back(text::trimmed_back(s)) == text::trimmed_back(s),
    decreases s.len(),
{
    if s.len() > 0 && text::white_space(s.last()) {
        lemma_back_twice(s.drop_last());
    }
}

/// White space may be taken from either end first.
proof fn lemma_ends_commute(s: Seq<char>)
    ensures
        text::trimmed_front(text::trimmed_back(s)) == text::trimmed_back(text::trimmed_front(s)),
    decreases s.len(),
{
    if s.len() > 0 && text::white_space(s.last()) {
        let rest = s.drop_last();
        lemma_ends_commute(rest);
        lemma_front_of_more(rest, s.last());
        assert(rest.push(s.last()) =~= s);
        if text::trimmed_front(rest).len() == 0 {
            assert(text::trimmed_front(s) =~= Seq::empty());
        } else {
            assert(text::trimmed_front(s) =~= text::trimmed_front(rest).push(s.last()));
            assert(text::trimmed_front(s).drop_last() =~= text::trimmed_front(rest));
        }
    } else if s.len() > 0 {
        lemma_front_of_more(s.drop_last(), s.last());
        assert(s.drop_last().push(s.last()) =~= s);
        assert(text::trimmed_front(s).len() > 0 && text::trimmed_front(s).last() == s.last());
    }
}

proof fn lemma_front_of_more(s: Seq<char>, c: char)
    ensures
        text::trimmed_front(s.push(c)) == if text::trimmed_front(s).len() == 0
            && text::white_space(c) {
            Seq::<char>::empty()
        } else {
            text::trimmed_front(s).push(c)
        },
    decreases s.len(),
{
    let all = s.push(c);
    if s.len() == 0 {
        assert(all[0] == c);
        assert(all.drop_first() =~= Seq::empty());
        assert(text::trimmed_front(s) =~= Seq::empty());
        if !text::white_space(c) {
            assert(all =~= text::trimmed_front(s).push(c));
        }
    } else {
        assert(all[0] == s[0]);
        if text::white_space(s[0]) {
            assert(all.drop_first() =~= s.drop_first().push(c));
            lemma_front_of_more(s.drop_first(), c);
        }
    }
}

/// What stands on either side of a dash.
proof fn lemma_span_sides(a: Seq<char>, b: Seq<char>)
    requires
        forall|i: int| 0 <= i < a.len() ==> #[trigger] a[i] != '-',
        forall|i: int| 0 <= i < b.len() ==> #[trigger] b[i] != '-',
    ensures
        ({
            let item = text::trimmed(a + seq!['-'] + b);
            let dash = text::first_of(item, '-');
            &&& !range::is_combo_text(item)
            &&& dash < item.len()
            &&& text::trimmed(item.take(dash)) == text::trimmed(a)
            &&& text::trimmed(item.skip(dash + 1)) == text::trimmed(b)
        }),
{
    let mark = seq!['-'];
    let front = text::trimmed_front(a);
    let back = text::trimmed_back(b);
    let all = a + mark + b;
    assert(all =~= a + (mark + b));
    lemma_front_stays(a, mark + b);
    assert(front + (mark + b) =~= (front + mark) + b);
    lemma_back_stays(front + mark, b);
    let item = (front + mark) + back;
    assert(text::trimmed(all) == item);
    lemma_front_chars(a);
    lemma_first_dash(front, back);
    let dash = front.len() as int;
    assert(item[dash] == '-');
    assert(item.take(dash) =~= front);
    assert(item.skip(dash + 1) =~= back);
    lemma_front_twice(a);
    lemma_ends_commute(b);
    lemma_back_twice(b);
    if range::is_combo_text(item) {
        assert(item[0] != '-' && item[1] != '-' && item[2] != '-' && item[3] != '-');
    }
    // the left side has nothing to lose in front, the right side nothing behind
    assert(text::trimmed(front) == text::trimmed(a));
    assert(text::trimmed(back) == text::trimmed_back(text::trimmed_back(text::trimmed_front(b)))) by {
        lemma_ends_commute(b);
    }
    lemma_back_twice(text::trimmed_front(b));
}

proof fn lemma_front_chars(a: Seq<char>)
    requires
        forall|i: int| 0 <= i < a.len() ==> #[trigger] a[i] != '-',
    ensures
        forall|i: int|
            0 <= i < text::trimmed_front(a).len() ==> #[trigger] text::trimmed_front(a)[i] != '-',
    decreases a.len(),
{
    if a.len() > 0 && text::white_space(a[0]) {
        let rest = a.drop_first();
        assert forall|i: int| 0 <= i < rest.len() implies #[trigger] rest[i] != '-' by {
            assert(rest[i] == a[i + 1]);
        }
        lemma_front_chars(rest);
        assert(text::trimmed_front(a) == text::trimmed_front(rest));
    } else {
        assert(text::trimmed_front(a) == a);
    }
}

proof fn lemma_first_dash(front: Seq<char>, back: Seq<char>)
    requires
        forall|i: int| 0 <= i < front.len() ==> #[trigger] front[i] != '-',
    ensures
        text::first_of(front + seq!['-'] + back, '-') == front.len(),
    decreases front.len(),
{
    let all = front + seq!['-'] + back;
    if front.len() > 0 {
        assert(all[0] == front[0]);
        assert(all.drop_first() =~= front.drop_first() + seq!['-'] + back);
        lemma_first_dash(front.drop_first(), back);
    } else {
        assert(all[0] == '-');
    }
}

/// Law: the order of a span's two ends does not matter. Both ways of writing
/// it are read or both are refused, and they stand for the same combos.
pub proof fn law_span_ends_may_swap(a: Seq<char>, b: Seq<char>)
    requires
        forall|i: int| 0 <= i < a.len() ==> #[trigger] a[i] != '-',
        forall|i: int| 0 <= i < b.len() ==> #[trigger] b[i] != '-',
    ensures
        ({
            let one = range::item_combos(a + seq!['-'] + b);
            let other = range::item_combos(b + seq!['-'] + a);
            &&& one is Ok <==> other is Ok
            &&& one is Ok ==> one == other
        }),
{
    lemma_span_sides(a, b);
    lemma_span_sides(b, a);
    match (range::class_named(text::trimmed(a)), range::class_named(text::trimmed(b))) {
        (Some(x), Some(y)) => {
            assert(range::least(x.0, y.0) == range::least(y.0, x.0));
            assert(range::most(x.0, y.0) == range::most(y.0, x.0));
            assert(range::least(x.1, y.1) == range::least(y.1, x.1));
            assert(range::most(x.1, y.1) == range::most(y.1, x.1));
            lemma_class_ranks(text::trimmed(a));
            lemma_class_ranks(text::trimmed(b));
        },
        _ => {},
    }
}

proof fn lemma_class_ranks(s: Seq<char>)
    ensures
        range::class_named(s) matches Some(c) ==> c.1 <= c.0 < 13,
{
}

// ---------------------------------------------------------------------------
// Texts put together
// ---------------------------------------------------------------------------

/// Whether one of the tokens of a text names a combo.
pub open spec fn covers<W: Num>(s: Seq<char>, i: int) -> bool
    decreases s.len(),
{
    let end = range::token_end(s);
    ||| token_covers::<W>(s.take(end), i)
    ||| 0 <= end < s.len() && covers::<W>(s.skip(end + 1), i)
}

/// Whether a token names a combo, with whatever weight.
pub open spec fn token_covers<W: Num>(raw: Seq<char>, i: int) -> bool {
    let token = text::trimmed(raw);
    token.len() > 0 && match range::split_token::<W>(token) {
        Err(_) => false,
        Ok((item, _)) => match range::item_combos(item) {
            Err(_) => false,
            Ok(combos) => numbered(combos, i),
        },
    }
}

/// Whether a combo with this number is in a list.
pub open spec fn numbered(combos: Seq<Combo>, i: int) -> bool {
    exists|j: int|
        0 <= j < combos.len() && cards::combo_number(
            (#[trigger] combos[j]).0 as int,
            combos[j].1 as int,
        ) == i
}

proof fn lemma_weighted_at<W>(w: Seq<W>, v: Seq<W>, combos: Seq<Combo>, x: W, i: int)
    requires
        w.len() == v.len(),
        0 <= i < w.len(),
        forall|j: int|
            0 <= j < combos.len() ==> 0 <= cards::combo_number(
                (#[trigger] combos[j]).0 as int,
                combos[j].1 as int,
            ) < w.len(),
    ensures
        range::weighted(w, combos, x).len() == w.len(),
        range::weighted(v, combos, x).len() == w.len(),
        numbered(combos, i) ==> range::weighted(w, combos, x)[i] == range::weighted(
            v,
            combos,
            x,
        )[i],
        !numbered(combos, i) ==> range::weighted(w, combos, x)[i] == w[i],
    decreases combos.len(),
{
    if combos.len() > 0 {
        let rest = combos.drop_last();
        assert forall|j: int| 0 <= j < rest.len() implies 0 <= cards::combo_number(
            (#[trigger] rest[j]).0 as int,
            rest[j].1 as int,
        ) < w.len() by {
            assert(rest[j] == combos[j]);
        }
        lemma_weighted_at(w, v, rest, x, i);
        let c = combos[combos.len() - 1];
        let at = cards::combo_number(c.0 as int, c.1 as int);
        assert(numbered(combos, i) <==> numbered(rest, i) || at == i) by {
            if numbered(combos, i) {
                let j = choose|j: int|
                    0 <= j < combos.len() && cards::combo_number(
                        (#[trigger] combos[j]).0 as int,
                        combos[j].1 as int,
                    ) == i;
                if j < rest.len() {
                    assert(rest[j] == combos[j]);
                }
            }
            if numbered(rest, i) {
                let j = choose|j: int|
                    0 <= j < rest.len() && cards::combo_number(
                        (#[trigger] rest[j]).0 as int,
                        rest[j].1 as int,
                    ) == i;
                assert(combos[j] == rest[j]);
            }
        }
    }
}

/// An item stands for combos of two different cards.
proof fn lemma_item_real(s: Seq<char>)
    ensures
        range::item_combos(s) matches Ok(combos) ==> range::real_combos(combos),
{
    let item = text::trimmed(s);
    let dash = text::first_of(item, '-');
    if range::is_combo_text(item) {
    } else if dash < item.len() {
        let left = text::trimmed(item.take(dash));
        let right = text::trimmed(item.skip(dash + 1));
        lemma_class_ranks(left);
        lemma_class_ranks(right);
        match (range::class_named(left), range::class_named(right)) {
            (Some(a), Some(b)) => {
                lemma_run_real(Run::Pairs, range::least(a.0, b.0), range::most(a.0, b.0) + 1, a.2);
                lemma_run_real(
                    Run::Under { hi: a.0 },
                    range::least(a.1, b.1),
                    range::most(a.1, b.1) + 1,
                    a.2,
                );
                if a.0 - a.1 == b.0 - b.1 {
                    lemma_run_real(
                        Run::Gap { gap: (a.0 - a.1) as u8 },
                        range::least(a.0, b.0),
                        range::most(a.0, b.0) + 1,
                        a.2,
                    );
                }
            },
            _ => {},
        }
    } else if item.len() > 0 && item.last() == '+' {
        let head = text::trimmed(item.drop_last());
        lemma_class_ranks(head);
        match range::class_named(head) {
            Some((hi, lo, marker)) => {
                lemma_run_real(Run::Pairs, hi as int, 13, marker);
                lemma_run_real(Run::Under { hi }, lo as int, hi as int, marker);
            },
            None => {},
        }
    } else {
        lemma_class_ranks(item);
        match range::class_named(item) {
            Some((hi, lo, marker)) => {
                range::lemma_marked_real(hi as int, lo as int, marker);
            },
            None => {},
        }
    }
}

proof fn lemma_run_real(run: Run, from: int, to: int, marker: Option<char>)
    requires
        0 <= from,
        to <= 13,
        match run {
            Run::Pairs => true,
            Run::Under { hi } => hi < 13,
            Run::Gap { gap } => gap <= from,
        },
    ensures
        range::run_combos(run, from, to, marker) matches Ok(combos) ==> range::real_combos(combos),
    decreases to - from,
{
    if from < to {
        lemma_run_real(run, from, to - 1, marker);
        match run {
            Run::Pairs => {
                range::lemma_marked_real(to - 1, to - 1, marker);
            },
            Run::Under { hi } => {
                range::lemma_marked_real(hi as int, to - 1, marker);
            },
            Run::Gap { gap } => {
                range::lemma_marked_real(to - 1, to - 1 - gap, marker);
            },
        }
    }
}

proof fn lemma_token_at<W: Num>(w: Seq<W>, v: Seq<W>, raw: Seq<char>, i: int)
    requires
        w.len() == NUM_COMBOS,
        v.len() == NUM_COMBOS,
        0 <= i < NUM_COMBOS,
        range::token_applied(w, raw) is Ok,
    ensures
        range::token_applied(v, raw) is Ok,
        range::token_applied(w, raw)->Ok_0.len() == NUM_COMBOS,
        range::token_applied(v, raw)->Ok_0.len() == NUM_COMBOS,
        token_covers::<W>(raw, i) ==> range::token_applied(w, raw)->Ok_0[i]
            == range::token_applied(v, raw)->Ok_0[i],
        !token_covers::<W>(raw, i) ==> range::token_applied(w, raw)->Ok_0[i] == w[i],
        !token_covers::<W>(raw, i) ==> range::token_applied(v, raw)->Ok_0[i] == v[i],
{
    let token = text::trimmed(raw);
    if token.len() > 0 {
        let (item, x) = range::split_token::<W>(token)->Ok_0;
        lemma_item_real(item);
        let combos = range::item_combos(item)->Ok_0;
        assert forall|j: int| 0 <= j < combos.len() implies 0 <= cards::combo_number(
            (#[trigger] combos[j]).0 as int,
            combos[j].1 as int,
        ) < w.len() by {
            lemma_combo_number(combos[j]);
        }
        lemma_weighted_at(w, v, combos, x, i);
        lemma_weighted_at(v, w, combos, x, i);
    }
}

/// A text sets the combos that it names, whatever was there, and no others.
proof fn lemma_tokens_at<W: Num>(w: Seq<W>, v: Seq<W>, s: Seq<char>, i: int)
    requires
        w.len() == NUM_COMBOS,
        v.len() == NUM_COMBOS,
        0 <= i < NUM_COMBOS,
        range::tokens_applied(w, s) is Ok,
    ensures
        range::tokens_applied(v, s) is Ok,
        range::tokens_applied(v, s)->Ok_0.len() == NUM_COMBOS,
        covers::<W>(s, i) ==> range::tokens_applied(v, s)->Ok_0[i] == range::tokens_applied(
            w,
            s,
        )->Ok_0[i],
        !covers::<W>(s, i) ==> range::tokens_applied(v, s)->Ok_0[i] == v[i],
        v[i] == w[i] ==> range::tokens_applied(v, s)->Ok_0[i] == range::tokens_applied(w, s)->Ok_0[
            i],
    decreases s.len(),
{
    let end = range::token_end(s);
    lemma_token_end(s, Seq::empty());
    lemma_token_at(w, v, s.take(end), i);
    if end < s.len() {
        let w2 = range::token_applied(w, s.take(end))->Ok_0;
        let v2 = range::token_applied(v, s.take(end))->Ok_0;
        lemma_tokens_at(w2, v2, s.skip(end + 1), i);
    }
}

proof fn lemma_texts_joined<W: Num>(w: Seq<W>, s: Seq<char>, sep: char, t: Seq<char>)
    requires
        range::separates(sep),
    ensures
        range::tokens_applied(w, s + seq![sep] + t) == match range::tokens_applied(w, s) {
            Err(e) => Err(e),
            Ok(x) => range::tokens_applied(x, t),
        },
    decreases s.len(),
{
    let mark = seq![sep];
    let all = s + mark + t;
    let end = range::token_end(s);
    assert(all =~= s + (mark + t));
    lemma_token_end(s, mark + t);
    assert((mark + t)[0] == sep);
    if end < s.len() {
        assert(all.take(end) =~= s.take(end));
        assert(all.skip(end + 1) =~= s.skip(end + 1) + mark + t);
        match range::token_applied(w, s.take(end)) {
            Err(_) => {},
            Ok(next) => {
                lemma_texts_joined(next, s.skip(end + 1), sep, t);
            },
        }
    } else {
        assert(range::token_end(mark + t) == 0);
        assert(all.take(end) =~= s);
        assert(s.take(end) =~= s);
        assert(all.skip(end + 1) =~= t);
    }
}

/// Law: two range texts with a separator between them are read as the second
/// laid over the first: where a token of the second names a combo, its weight
/// counts, and elsewhere the first's.
pub proof fn law_later_text_overwrites<W: Num>(a: Seq<char>, sep: char, b: Seq<char>, i: int)
    requires
        range::separates(sep),
        range::tokens_applied(range::empty_weights::<W>(), a) is Ok,
        range::tokens_applied(range::empty_weights::<W>(), b) is Ok,
        0 <= i < NUM_COMBOS,
    ensures
        ({
            let none = range::empty_weights::<W>();
            let both = range::tokens_applied(none, a + seq![sep] + b);
            &&& both is Ok
            &&& both->Ok_0[i] == if covers::<W>(b, i) {
                range::tokens_applied(none, b)->Ok_0[i]
            } else {
                range::tokens_applied(none, a)->Ok_0[i]
            }
        }),
{
    let none = range::empty_weights::<W>();
    lemma_texts_joined(none, a, sep, b);
    lemma_tokens_at(none, none, a, i);
    let first = range::tokens_applied(none, a)->Ok_0;
    lemma_tokens_at(none, first, b, i);
}

} // verus!
