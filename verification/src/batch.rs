//! Solving one spot on many boards: which boards, and what is told of each.

use crate::inspect::HandView;
use crate::num::{Num, Single};
use crate::text;
use crate::text::{is_white_space, part};
use vstd::prelude::*;

verus! {

/// What separates boards in a file.
pub open spec fn separates(c: char) -> bool {
    text::white_space(c) || c == ','
}

/// The boards of a file: what stands between separators, where that is not
/// nothing.
pub open spec fn boards_in(s: Seq<char>) -> Seq<Seq<char>> {
    boards_from(s, 0, 0)
}

/// The boards from `at` on, the one being read having started at `start`.
pub open spec fn boards_from(s: Seq<char>, start: int, at: int) -> Seq<Seq<char>>
    decreases s.len() - at,
{
    if at < start || at >= s.len() {
        if start < at {
            seq![s.subrange(start, at)]
        } else {
            Seq::empty()
        }
    } else if separates(s[at]) {
        if start < at {
            seq![s.subrange(start, at)] + boards_from(s, at + 1, at + 1)
        } else {
            boards_from(s, at + 1, at + 1)
        }
    } else {
        boards_from(s, start, at + 1)
    }
}

/// Lists of characters as mathematical values.
pub open spec fn words(v: Seq<Vec<char>>) -> Seq<Seq<char>> {
    Seq::new(v.len(), |i: int| v[i]@)
}

/// [`boards_in`], computed.
pub fn parse_boards(s: &[char]) -> (r: Vec<Vec<char>>)
    ensures
        words(r@) == boards_in(s@),
{
    let mut out: Vec<Vec<char>> = Vec::new();
    let mut start: usize = 0;
    let mut at: usize = 0;
    assert(words(out@) + boards_from(s@, 0, 0) =~= boards_in(s@));
    while at < s.len()
        invariant
            start <= at <= s@.len(),
            words(out@) + boards_from(s@, start as int, at as int) == boards_in(s@),
        decreases s@.len() - at,
    {
        if is_white_space(s[at]) || s[at] == ',' {
            if start < at {
                let ghost before = words(out@);
                let word = part(s, start, at);
                out.push(word);
                assert(words(out@) =~= before.push(word@));
                assert(words(out@) + boards_from(s@, at + 1, at + 1) =~= before + boards_from(
                    s@,
                    start as int,
                    at as int,
                ));
            }
            start = at + 1;
        }
        at = at + 1;
    }
    if start < at {
        let ghost before = words(out@);
        let word = part(s, start, at);
        out.push(word);
        assert(words(out@) =~= before.push(word@));
        assert(words(out@) =~= before + boards_from(s@, start as int, at as int));
    } else {
        assert(words(out@) =~= words(out@) + boards_from(s@, start as int, at as int));
    }
    out
}

/// The boards of a command line: what stands between commas.
pub open spec fn split_at_commas(s: Seq<char>) -> Seq<Seq<char>>
    decreases s.len(),
{
    let end = text::first_of(s, ',');
    if 0 <= end < s.len() {
        seq![s.take(end)] + split_at_commas(s.skip(end + 1))
    } else {
        seq![s]
    }
}

/// [`split_at_commas`], computed.
pub fn split_commas(s: &[char]) -> (r: Vec<Vec<char>>)
    ensures
        words(r@) == split_at_commas(s@),
{
    let mut out: Vec<Vec<char>> = Vec::new();
    let mut from: usize = 0;
    assert(s@.skip(0) =~= s@);
    assert(words(out@) + split_at_commas(s@.skip(0)) =~= split_at_commas(s@));
    loop
        invariant
            from <= s@.len(),
            words(out@) + split_at_commas(s@.skip(from as int)) == split_at_commas(s@),
        decreases s@.len() - from,
    {
        let ghost rest = s@.skip(from as int);
        let mut end: usize = from;
        while end < s.len() && s[end] != ','
            invariant
                from <= end <= s@.len(),
                rest == s@.skip(from as int),
                text::first_of(rest, ',') == end - from + text::first_of(s@.skip(end as int), ','),
            decreases s@.len() - end,
        {
            assert(s@.skip(end as int).drop_first() =~= s@.skip(end + 1));
            end = end + 1;
        }
        assert(text::first_of(rest, ',') == end - from);
        let ghost before = words(out@);
        let word = part(s, from, end);
        assert(word@ =~= rest.take(end - from));
        out.push(word);
        assert(words(out@) =~= before.push(word@));
        if end >= s.len() {
            assert(rest.take(end - from) =~= rest);
            assert(words(out@) =~= before + split_at_commas(rest));
            return out;
        }
        assert(rest.skip(end - from + 1) =~= s@.skip(end + 1));
        assert(words(out@) + split_at_commas(s@.skip(end + 1)) =~= before + split_at_commas(rest));
        from = end + 1;
    }
}

/// The expected values of the first `k` hands, weighted by reach, and the
/// weights.
pub open spec fn ev_sums<S: Single>(hands: Seq<HandView<S>>, k: int) -> (S::Wide, S::Wide)
    decreases k,
{
    if k <= 0 {
        (S::Wide::decimal_spec(0, 0), S::Wide::decimal_spec(0, 0))
    } else {
        let (ev, weight) = ev_sums(hands, k - 1);
        let h = hands[k - 1];
        match h.ev {
            Some(v) => (
                ev.plus_spec(v.widened_spec().times_spec(h.reach.widened_spec())),
                weight.plus_spec(h.reach.widened_spec()),
            ),
            None => (ev, weight),
        }
    }
}

/// What a range expects, by the reach of its hands.
pub open spec fn range_ev<S: Single>(hands: Seq<HandView<S>>) -> S::Wide {
    let (ev, weight) = ev_sums(hands, hands.len() as int);
    ev.over_spec(weight)
}

/// [`range_ev`], computed.
pub fn avg_ev<S: Single>(hands: &Vec<HandView<S>>) -> (r: S::Wide)
    ensures
        r == range_ev(hands@),
{
    let mut ev = S::Wide::decimal(0, 0);
    let mut weight = S::Wide::decimal(0, 0);
    let mut i: usize = 0;
    while i < hands.len()
        invariant
            i <= hands@.len(),
            (ev, weight) == ev_sums(hands@, i as int),
        decreases hands@.len() - i,
    {
        let h = &hands[i];
        match h.ev {
            Some(v) => {
                ev = ev.plus(v.widened().times(h.reach.widened()));
                weight = weight.plus(h.reach.widened());
            },
            None => {},
        }
        i = i + 1;
    }
    ev.over(weight)
}

} // verus!
