//! Writing bet sizes and requests, and reading them back.

use crate::game::SpotConfig;
use crate::nano;
use crate::nano::{Nano, BILLION};
use crate::num::Num;
use crate::range_laws;
use crate::request;
use crate::request::{SizesRequest, SpotRequest};
use crate::sizing;
use crate::sizing::Read;
use crate::text;
use crate::tree;
use crate::tree::{BetSize, StreetSizing};
use vstd::prelude::*;

verus! {

/// Whether a text is made of digits and points, and of something.
pub open spec fn numeral(t: Seq<char>) -> bool {
    &&& t.len() > 0
    &&& forall|i: int| 0 <= i < t.len() ==> nano::is_digit(#[trigger] t[i]) || t[i] == '.'
}

/// Whether a number comes back from its text.
pub open spec fn comes_back<N: Num>(x: N) -> bool {
    numeral(x.shown_spec()) && N::parse_spec(x.shown_spec()) == Some(x)
}

/// Whether a size is one that can be configured, and its number comes back.
pub open spec fn size_comes_back<N: Num>(size: BetSize<N>) -> bool {
    match size {
        BetSize::PotPct(p) => comes_back(p) && !p.at_most_spec(N::decimal_spec(0, 0)),
        BetSize::PrevMult(m) => comes_back(m) && !m.at_most_spec(N::decimal_spec(1, 0)),
        BetSize::AllIn => true,
    }
}

/// Whether a text ends no size, has no white space and no capitals in it.
pub open spec fn solid(s: Seq<char>) -> bool {
    forall|i: int|
        0 <= i < s.len() ==> !sizing::separates(#[trigger] s[i]) && !text::white_space(s[i])
            && text::lower(s[i]) == s[i]
}

proof fn lemma_size<N: Num>(size: BetSize<N>)
    requires
        size_comes_back(size),
    ensures
        solid(sizing::size_text(size)),
        sizing::size_text(size).len() > 0,
        sizing::size_named::<N>(sizing::size_text(size)) == Read::<BetSize<N>>::Ok(size),
{
    let t = sizing::size_text(size);
    match size {
        BetSize::PotPct(p) => {
            assert(t[0] != 'a');
            assert(t.last() != 'x') by {
                assert(nano::is_digit(t[t.len() - 1]) || t[t.len() - 1] == '.');
            }
        },
        BetSize::PrevMult(m) => {
            let head = m.shown_spec();
            assert(t.drop_last() =~= head);
            assert(t[0] == head[0]);
            assert(t[0] != 'a');
            assert forall|i: int| 0 <= i < t.len() implies !sizing::separates(#[trigger] t[i])
                && !text::white_space(t[i]) && text::lower(t[i]) == t[i] by {
                if i < head.len() {
                    assert(t[i] == head[i]);
                }
            }
        },
        BetSize::AllIn => {},
    }
}

proof fn lemma_trimmed(s: Seq<char>)
    requires
        solid(s),
    ensures
        sizing::lowered(text::trimmed(s)) == s,
{
    assert(text::trimmed(s) == s);
    assert(sizing::lowered(s) =~= s);
}

proof fn lemma_size_end(s: Seq<char>, more: Seq<char>)
    ensures
        0 <= sizing::size_end(s) <= s.len(),
        sizing::size_end(s) < s.len() ==> sizing::size_end(s + more) == sizing::size_end(s),
        sizing::size_end(s) == s.len() ==> sizing::size_end(s + more) == s.len()
            + sizing::size_end(more),
    decreases s.len(),
{
    if s.len() == 0 {
        assert(s + more =~= more);
    } else if !sizing::separates(s[0]) {
        lemma_size_end(s.drop_first(), more);
        assert((s + more).drop_first() =~= s.drop_first() + more);
    }
}

proof fn lemma_solid_end(s: Seq<char>)
    requires
        solid(s),
    ensures
        sizing::size_end(s) == s.len(),
    decreases s.len(),
{
    if s.len() > 0 {
        lemma_solid_end(s.drop_first());
    }
}

proof fn lemma_one_size<N: Num>(read: Seq<BetSize<N>>, size: BetSize<N>)
    requires
        size_comes_back(size),
    ensures
        sizing::sizes_named(read, sizing::size_text(size)) == Read::<Seq<BetSize<N>>>::Ok(
            read.push(size),
        ),
{
    let t = sizing::size_text(size);
    lemma_size(size);
    lemma_solid_end(t);
    assert(t.take(t.len() as int) =~= t);
    lemma_trimmed(t);
}

proof fn lemma_one_more_size<N: Num>(read: Seq<BetSize<N>>, s: Seq<char>, size: BetSize<N>)
    requires
        size_comes_back(size),
    ensures
        sizing::sizes_named(read, s + seq![' '] + sizing::size_text(size))
            == match sizing::sizes_named(read, s) {
            Err(e) => Err(e),
            Ok(all) => Ok(all.push(size)),
        },
    decreases s.len(),
{
    let mark = seq![' '];
    let t = sizing::size_text(size);
    let all = s + mark + t;
    let end = sizing::size_end(s);
    assert(all =~= s + (mark + t));
    lemma_size_end(s, mark + t);
    assert((mark + t)[0] == ' ');
    let tok = sizing::lowered(text::trimmed(s.take(end)));
    let next: Read<Seq<BetSize<N>>> = if tok.len() == 0 {
        Ok(read)
    } else {
        match sizing::size_named(tok) {
            Err(e) => Err(e),
            Ok(x) => Ok(read.push(x)),
        }
    };
    if end < s.len() {
        assert(all.take(end) =~= s.take(end));
        assert(all.skip(end + 1) =~= s.skip(end + 1) + mark + t);
        match next {
            Err(_) => {},
            Ok(more) => {
                lemma_one_more_size(more, s.skip(end + 1), size);
            },
        }
    } else {
        assert(sizing::size_end(mark + t) == 0);
        assert(all.take(end) =~= s);
        assert(s.take(end) =~= s);
        assert(all.skip(end + 1) =~= t);
        match next {
            Err(_) => {},
            Ok(more) => {
                lemma_one_size(more, size);
            },
        }
    }
}

/// Law: reading sizes that have been written gives them back: the same sizes,
/// in the same order, with the same values. No sizes are the empty text.
pub proof fn law_sizes_read_back<N: Num>(sizes: Seq<BetSize<N>>)
    requires
        forall|i: int| 0 <= i < sizes.len() ==> size_comes_back(#[trigger] sizes[i]),
    ensures
        sizing::sizes_named(Seq::<BetSize<N>>::empty(), sizing::sizes_text(sizes)) == Read::<
            Seq<BetSize<N>>,
        >::Ok(sizes),
        sizes.len() == 0 ==> sizing::sizes_text(sizes).len() == 0,
    decreases sizes.len(),
{
    let none = Seq::<BetSize<N>>::empty();
    if sizes.len() == 0 {
        let t = Seq::<char>::empty();
        assert(t.take(0) =~= t);
        assert(text::trimmed(t) =~= t);
        assert(sizing::lowered(t) =~= t);
        assert(sizes =~= none);
    } else if sizes.len() == 1 {
        lemma_one_size(none, sizes[0]);
        assert(none.push(sizes[0]) =~= sizes);
    } else {
        law_sizes_read_back(sizes.drop_last());
        lemma_one_more_size(none, sizing::sizes_text(sizes.drop_last()), sizes.last());
        assert(sizes.drop_last().push(sizes.last()) =~= sizes);
    }
}

// ---------------------------------------------------------------------------
// Exact numbers
// ---------------------------------------------------------------------------

proof fn lemma_digits_text(n: int)
    requires
        0 <= n,
    ensures
        nano::digits_value(nano::digits_text(n)) == Some(n),
        nano::digits_text(n).len() > 0,
        forall|i: int|
            0 <= i < nano::digits_text(n).len() ==> nano::is_digit(
                #[trigger] nano::digits_text(n)[i],
            ),
    decreases n,
{
    if n < 10 {
        let none = Seq::<char>::empty();
        range_laws::lemma_one_digit_more(none, 0, n);
        assert(none.push(range_laws::digit(n)) =~= nano::digits_text(n));
    } else {
        lemma_digits_text(n / 10);
        range_laws::lemma_one_digit_more(nano::digits_text(n / 10), n / 10, n % 10);
    }
}

proof fn lemma_padded_text(n: int, k: nat)
    requires
        0 <= n < nano::ten_to(k),
    ensures
        nano::digits_value(nano::padded_text(n, k)) == Some(n),
        nano::padded_text(n, k).len() == k,
        forall|i: int|
            0 <= i < k ==> nano::is_digit(#[trigger] nano::padded_text(n, k)[i]),
    decreases k,
{
    if k > 0 {
        lemma_padded_text(n / 10, (k - 1) as nat);
        range_laws::lemma_one_digit_more(
            nano::padded_text(n / 10, (k - 1) as nat),
            n / 10,
            n % 10,
        );
    }
}

/// Taking zeros off the end of the places.
proof fn lemma_stripped_places(whole: Seq<char>, places: Seq<char>)
    ensures
        text::stripped(whole + seq!['.'] + places, '0') == whole + seq!['.'] + text::stripped(
            places,
            '0',
        ),
        text::stripped(places, '0').len() <= places.len(),
        forall|i: int|
            0 <= i < text::stripped(places, '0').len() ==> #[trigger] text::stripped(places, '0')[i]
                == places[i],
        forall|i: int| text::stripped(places, '0').len() <= i < places.len() ==> places[i] == '0',
        text::stripped(places, '0').len() > 0 ==> text::stripped(places, '0').last() != '0',
    decreases places.len(),
{
    let all = whole + seq!['.'] + places;
    if places.len() == 0 {
        assert(all =~= whole + seq!['.']);
        assert(all.last() == '.');
        assert(text::stripped(places, '0') =~= places);
    } else {
        assert(all.last() == places.last());
        if places.last() == '0' {
            assert(all.drop_last() =~= whole + seq!['.'] + places.drop_last());
            lemma_stripped_places(whole, places.drop_last());
            let less = text::stripped(places.drop_last(), '0');
            assert forall|i: int| less.len() <= i < places.len() implies places[i] == '0' by {
                if i < places.len() - 1 {
                    assert(places.drop_last()[i] == '0');
                }
            }
        }
    }
}

proof fn lemma_first_point(whole: Seq<char>, more: Seq<char>)
    requires
        forall|i: int| 0 <= i < whole.len() ==> nano::is_digit(#[trigger] whole[i]),
        more.len() > 0 ==> more[0] == '.',
    ensures
        text::first_of(whole + more, '.') == whole.len(),
    decreases whole.len(),
{
    let all = whole + more;
    if whole.len() > 0 {
        assert(all[0] == whole[0]);
        assert(all.drop_first() =~= whole.drop_first() + more);
        lemma_first_point(whole.drop_first(), more);
    } else {
        assert(all =~= more);
    }
}

proof fn lemma_some_digits(s: Seq<char>)
    requires
        forall|i: int| 0 <= i < s.len() ==> nano::is_digit(#[trigger] s[i]),
    ensures
        nano::digits_value(s) is Some,
    decreases s.len(),
{
    if s.len() > 0 {
        lemma_some_digits(s.drop_last());
    }
}

/// Law: every positive exact number comes back from its text.
pub proof fn law_exact_numbers_come_back(x: Nano)
    requires
        x.count > 0,
    ensures
        comes_back(x),
{
    reveal_with_fuel(nano::ten_to, 10);
    let n = x.count as int;
    let q = n / 1_000_000_000;
    let r = n % 1_000_000_000;
    let whole = nano::digits_text(q);
    let places = nano::padded_text(r, 9);
    assert(nano::ten_to(9) == 1_000_000_000 && nano::ten_to(0) == 1);
    lemma_digits_text(q);
    lemma_padded_text(r, 9);
    let all = whole + seq!['.'] + places;
    assert(nano::fixed_text(n, 9) =~= all) by {
        assert((n + 1int / 2) / 1 == n);
    }
    lemma_stripped_places(whole, places);
    let few = text::stripped(places, '0');
    let half = whole + seq!['.'] + few;
    let t = x.shown_spec();
    assert(nano::nine_places(few) =~= places);
    lemma_some_digits(few);
    assert(q * 1_000_000_000 + r == n);
    if few.len() > 0 {
        assert(half.last() == few.last());
        assert(nano::is_digit(few.last()));
        assert(t == half);
        let more = seq!['.'] + few;
        assert(half =~= whole + more);
        lemma_first_point(whole, more);
        assert(t.take(whole.len() as int) =~= whole);
        assert(t.skip(whole.len() as int + 1) =~= few);
        assert(t[0] == whole[0]);
        assert forall|i: int| 0 <= i < t.len() implies nano::is_digit(#[trigger] t[i]) || t[i]
            == '.' by {
            if i < whole.len() {
                assert(t[i] == whole[i]);
            } else if i > whole.len() {
                assert(t[i] == few[i - whole.len() - 1]);
            }
        }
    } else {
        assert(half =~= whole.push('.'));
        assert(half.drop_last() =~= whole);
        assert(nano::is_digit(whole.last()));
        assert(text::stripped(whole, '.') == whole);
        assert(t == whole);
        lemma_first_point(whole, Seq::empty());
        assert(whole + Seq::empty() =~= whole);
        assert(t.take(whole.len() as int) =~= whole);
        assert(few =~= Seq::empty());
    }
}

// ---------------------------------------------------------------------------
// Requests
// ---------------------------------------------------------------------------

/// Whether all sizes of a street come back.
pub open spec fn street_comes_back(s: StreetSizing<Nano>) -> bool {
    &&& forall|i: int| 0 <= i < s.bet@.len() ==> size_comes_back(#[trigger] s.bet@[i])
    &&& forall|i: int| 0 <= i < s.raise@.len() ==> size_comes_back(#[trigger] s.raise@[i])
    &&& forall|i: int| 0 <= i < s.donk@.len() ==> size_comes_back(#[trigger] s.donk@[i])
}

/// A percentage of a number is the number again.
proof fn lemma_percent_and_back(x: Nano)
    requires
        -i64::MAX <= 100 * x.count <= i64::MAX,
    ensures
        x.times_spec(Nano::decimal_spec(100, 0)).over_spec(Nano::decimal_spec(100, 0)) == x,
{
    let b = BILLION as int;
    assert(nano::ten_to(0) == 1);
    let hundred = Nano::decimal_spec(100, 0);
    assert(hundred.count == 100 * b);
    let c = x.count as int;
    let a = if c < 0 {
        -c
    } else {
        c
    };
    let up = x.times_spec(hundred);
    let u = c * (100 * b);
    assert(if c < 0 {
        u < 0 && -u == (100 * a) * b
    } else {
        u == (100 * a) * b && u >= 0
    }) by (nonlinear_arith)
        requires
            u == c * (100 * b),
            a == if c < 0 {
                -c
            } else {
                c
            },
            0 < b,
    ;
    vstd::arithmetic::div_mod::lemma_div_by_multiple(100 * a, b);
    assert(up.count == 100 * c);
    let y = (100 * c) * b;
    assert(if c < 0 {
        y < 0 && -y == a * (100 * b)
    } else {
        y == a * (100 * b) && y >= 0
    }) by (nonlinear_arith)
        requires
            y == (100 * c) * b,
            a == if c < 0 {
                -c
            } else {
                c
            },
            0 < b,
    ;
    vstd::arithmetic::div_mod::lemma_div_by_multiple(a, 100 * b);
    assert(up.over_spec(hundred).count == c);
}

proof fn lemma_street_back(s: StreetSizing<Nano>, w: SizesRequest, t: StreetSizing<Nano>)
    requires
        street_comes_back(s),
        request::street_written(s, w),
        request::street_reads(w, t),
    ensures
        tree::same_sizing(s, t),
{
    law_sizes_read_back(s.bet@);
    law_sizes_read_back(s.raise@);
    law_sizes_read_back(s.donk@);
}

/// Law: a configuration that is written as a request and read again says the
/// same.
pub proof fn law_requests_come_back(
    config: SpotConfig<Nano>,
    r: SpotRequest<Nano>,
    again: SpotConfig<Nano>,
)
    requires
        request::spot_written(config, r),
        r.stands_for(again),
        -i64::MAX <= 100 * config.tree.rake_pct.count <= i64::MAX,
        -i64::MAX <= 100 * config.tree.allin_threshold.count <= i64::MAX,
        forall|i: int| 0 <= i < 3 ==> street_comes_back(#[trigger] config.tree.oop[i]),
        forall|i: int| 0 <= i < 3 ==> street_comes_back(#[trigger] config.tree.ip[i]),
    ensures
        again.board@ == config.board@,
        again.range_oop@ == config.range_oop@,
        again.range_ip@ == config.range_ip@,
        tree::same_config(config.tree, again.tree),
{
    lemma_percent_and_back(config.tree.rake_pct);
    lemma_percent_and_back(config.tree.allin_threshold);
    assert forall|i: int| 0 <= i < 3 implies tree::same_sizing(
        #[trigger] config.tree.oop[i],
        again.tree.oop[i],
    ) by {
        assert(request::street_written(config.tree.oop[i], r.oop@[i]));
        assert(request::street_reads(r.oop@[i], again.tree.oop[i]));
        lemma_street_back(config.tree.oop[i], r.oop@[i], again.tree.oop[i]);
    }
    assert forall|i: int| 0 <= i < 3 implies tree::same_sizing(
        #[trigger] config.tree.ip[i],
        again.tree.ip[i],
    ) by {
        assert(request::street_written(config.tree.ip[i], r.ip@[i]));
        assert(request::street_reads(r.ip@[i], again.tree.ip[i]));
        lemma_street_back(config.tree.ip[i], r.ip@[i], again.tree.ip[i]);
    }
}

} // verus!
