//! How much memory there is, and what fits into it.

use crate::cards;
use crate::cards::{card_mask, cards_mask, combo_from_index, parse_cards, NUM_COMBOS};
use crate::game::SpotConfig;
use crate::num;
use crate::num::{larger, smaller, Num, Single};
use crate::range;
use crate::range::Range;
use crate::store::Storage;
use crate::text;
use crate::text::{chars_of, is_white_space, part, string_of};
use vstd::prelude::*;

verus! {

// ---------------------------------------------------------------------------
// Reading the system's tables
// ---------------------------------------------------------------------------

/// The first line of a text that starts with `tag`.
pub open spec fn tagged_line(s: Seq<char>, tag: Seq<char>) -> Option<Seq<char>>
    decreases s.len(),
{
    let end = text::first_of(s, '\n');
    let line = s.take(end);
    if s.len() == 0 {
        None
    } else if tag.len() <= line.len() && line.take(tag.len() as int) == tag {
        Some(line)
    } else if 0 <= end < s.len() {
        tagged_line(s.skip(end + 1), tag)
    } else {
        None
    }
}

/// The length of the word that a text starts with.
pub open spec fn word_len(s: Seq<char>) -> int
    decreases s.len(),
{
    if s.len() == 0 || text::white_space(s[0]) {
        0
    } else {
        1 + word_len(s.drop_first())
    }
}

/// The second word of a line, where it has one.
pub open spec fn second_word(line: Seq<char>) -> Option<Seq<char>> {
    let first = text::trimmed_front(line);
    let rest = text::trimmed_front(first.skip(word_len(first)));
    if rest.len() == 0 {
        None
    } else {
        Some(rest.take(word_len(rest)))
    }
}

/// The number that stands behind a tag in a table of the system, taken from
/// kilobytes to megabytes.
pub open spec fn megabytes_at<N: Num>(table: Seq<char>, tag: Seq<char>) -> Option<N> {
    match tagged_line(table, tag) {
        None => None,
        Some(line) => match second_word(line) {
            None => None,
            Some(word) => match N::parse_spec(word) {
                None => None,
                Some(kb) => Some(kb.over_spec(N::decimal_spec(1024, 0))),
            },
        },
    }
}

fn line_starts(v: &Vec<char>, from: usize, end: usize, tag: &Vec<char>) -> (r: bool)
    requires
        from <= end <= v@.len(),
    ensures
        r == (tag@.len() <= end - from && v@.subrange(from as int, end as int).take(
            tag@.len() as int,
        ) == tag@),
{
    if tag.len() > end - from {
        return false;
    }
    let mut i: usize = 0;
    let ghost line = v@.subrange(from as int, end as int);
    while i < tag.len()
        invariant
            i <= tag@.len() <= end - from,
            end <= v@.len(),
            line == v@.subrange(from as int, end as int),
            forall|k: int| 0 <= k < i ==> #[trigger] line[k] == tag@[k],
        decreases tag@.len() - i,
    {
        if v[from + i] != tag[i] {
            assert(line.take(tag@.len() as int)[i as int] != tag@[i as int]);
            return false;
        }
        i = i + 1;
    }
    assert(line.take(tag@.len() as int) =~= tag@);
    true
}

fn find_line(v: &Vec<char>, tag: &Vec<char>) -> (r: Option<Vec<char>>)
    ensures
        match r {
            Some(line) => tagged_line(v@, tag@) == Some(line@),
            None => tagged_line(v@, tag@) is None,
        },
{
    let mut from: usize = 0;
    assert(v@.skip(0) =~= v@);
    while from < v.len()
        invariant
            from <= v@.len(),
            tagged_line(v@, tag@) == tagged_line(v@.skip(from as int), tag@),
        decreases v@.len() - from,
    {
        let ghost rest = v@.skip(from as int);
        let mut end: usize = from;
        while end < v.len() && v[end] != '\n'
            invariant
                from <= end <= v@.len(),
                rest == v@.skip(from as int),
                text::first_of(rest, '\n') == end - from + text::first_of(
                    v@.skip(end as int),
                    '\n',
                ),
            decreases v@.len() - end,
        {
            assert(v@.skip(end as int).drop_first() =~= v@.skip(end + 1));
            end = end + 1;
        }
        assert(text::first_of(rest, '\n') == end - from);
        assert(rest.take(end - from) =~= v@.subrange(from as int, end as int));
        if line_starts(v, from, end, tag) {
            return Some(part(v, from, end));
        }
        if end >= v.len() {
            return None;
        }
        assert(rest.skip(end - from + 1) =~= v@.skip(end + 1));
        from = end + 1;
    }
    None
}

fn skip_space(v: &Vec<char>, from: usize) -> (r: usize)
    requires
        from <= v@.len(),
    ensures
        from <= r <= v@.len(),
        v@.skip(r as int) == text::trimmed_front(v@.skip(from as int)),
{
    let mut i: usize = from;
    while i < v.len() && is_white_space(v[i])
        invariant
            from <= i <= v@.len(),
            text::trimmed_front(v@.skip(from as int)) == text::trimmed_front(v@.skip(i as int)),
        decreases v@.len() - i,
    {
        assert(v@.skip(i as int).drop_first() =~= v@.skip(i + 1));
        i = i + 1;
    }
    i
}

fn skip_word(v: &Vec<char>, from: usize) -> (r: usize)
    requires
        from <= v@.len(),
    ensures
        from <= r <= v@.len(),
        r - from == word_len(v@.skip(from as int)),
{
    let mut i: usize = from;
    while i < v.len() && !is_white_space(v[i])
        invariant
            from <= i <= v@.len(),
            word_len(v@.skip(from as int)) == i - from + word_len(v@.skip(i as int)),
        decreases v@.len() - i,
    {
        assert(v@.skip(i as int).drop_first() =~= v@.skip(i + 1));
        i = i + 1;
    }
    i
}

/// [`megabytes_at`], computed: what `/proc` tells of the memory.
pub fn proc_megabytes<N: Num>(table: &str, tag: &str) -> (r: Option<N>)
    ensures
        r == megabytes_at::<N>(table@, tag@),
{
    let line = match find_line(&chars_of(table), &chars_of(tag)) {
        Some(line) => line,
        None => {
            return None;
        },
    };
    assert(line@.skip(0) =~= line@);
    let a = skip_space(&line, 0);
    let b = skip_word(&line, a);
    assert(line@.skip(a as int).skip(b - a) =~= line@.skip(b as int));
    let c = skip_space(&line, b);
    if c >= line.len() {
        return None;
    }
    let d = skip_word(&line, c);
    let word = part(&line, c, d);
    assert(word@ =~= line@.skip(c as int).take(d - c));
    let shown = string_of(&word);
    match N::parse(shown.as_str()) {
        None => None,
        Some(kb) => Some(kb.over(N::decimal(1024, 0))),
    }
}

// ---------------------------------------------------------------------------
// Limits
// ---------------------------------------------------------------------------

/// The memory for solver arenas in megabytes: what the user set, else four
/// fifths of what is available, and never more than 48 GB.
pub fn mem_cap_mb<N: Num>(manual: Option<N>, available: Option<N>) -> (r: N)
    ensures
        r == match (manual, available) {
            (Some(v), _) => v,
            (None, Some(a)) => num::smaller_of(
                a.times_spec(N::decimal_spec(8, 1)),
                N::decimal_spec(48_000, 0),
            ),
            (None, None) => N::decimal_spec(48_000, 0),
        },
{
    let most = N::decimal(48_000, 0);
    match manual {
        Some(v) => v,
        None => match available {
            Some(a) => smaller(a.times(N::decimal(8, 1)), most),
            None => most,
        },
    }
}

/// What the memory cap gains when the current arena goes: nothing where the
/// user set the cap, else four fifths of it.
pub fn old_arena_credit_mb<N: Num>(manual: bool, old: Option<N>) -> (r: N)
    ensures
        r == if manual {
            N::decimal_spec(0, 0)
        } else {
            N::decimal_spec(8, 1).times_spec(
                match old {
                    Some(mb) => mb,
                    None => N::decimal_spec(0, 0),
                },
            )
        },
{
    if manual {
        return N::decimal(0, 0);
    }
    let mb = match old {
        Some(mb) => mb,
        None => N::decimal(0, 0),
    };
    N::decimal(8, 1).times(mb)
}

/// The memory for preflop arenas in megabytes: what the user set, else two
/// fifths of what is available, else two gigabytes.
pub fn limit_arena_mb<N: Num>(manual: Option<N>, available: Option<N>) -> (r: N)
    ensures
        r == match (manual, available) {
            (Some(v), _) => v,
            (None, Some(a)) => a.times_spec(N::decimal_spec(40, 2)),
            (None, None) => N::decimal_spec(2000, 0),
        },
{
    match manual {
        Some(v) => v,
        None => match available {
            Some(a) => a.times(N::decimal(40, 2)),
            None => N::decimal(2000, 0),
        },
    }
}

/// The most nodes of a preflop tree: what the user set, else 830 for each
/// megabyte.
pub fn limit_nodes<N: Num>(manual: Option<u64>, arena_mb: N) -> (r: u64)
    ensures
        match manual {
            Some(v) => r == v,
            None => {
                let nodes = arena_mb.times_spec(N::decimal_spec(830, 0)).floored_spec();
                r == if nodes < 0 {
                    0
                } else if nodes > u64::MAX {
                    u64::MAX as int
                } else {
                    nodes as int
                }
            },
        },
{
    match manual {
        Some(v) => v,
        None => {
            let nodes: i128 = arena_mb.times(N::decimal(830, 0)).floored();
            if nodes < 0 {
                0
            } else if nodes > u64::MAX as i128 {
                u64::MAX
            } else {
                nodes as u64
            }
        },
    }
}

/// A number of bytes in megabytes.
pub open spec fn in_megabytes<N: Num>(bytes: int) -> N {
    N::decimal_spec(bytes as i64, 0).over_spec(N::decimal_spec(1_000_000, 0))
}

/// [`in_megabytes`], computed.
pub fn megabytes<N: Num>(bytes: u64) -> (r: N)
    requires
        bytes <= i64::MAX,
    ensures
        r == in_megabytes::<N>(bytes as int),
{
    N::decimal(bytes as i64, 0).over(N::decimal(1_000_000, 0))
}

/// Whether a spot's arenas fit.
pub fn arena_fits<N: Num>(arena_mb: N, cap_mb: N) -> (r: bool)
    ensures
        r == !cap_mb.below_spec(arena_mb),
{
    !cap_mb.below(arena_mb)
}

/// What loading a save needs at its peak, in megabytes: the arenas, and the
/// larger player's numbers while they are decoded.
pub open spec fn load_peak<N: Num>(arena_mb: N, entries: [u64; 2]) -> N {
    let most = if entries[0] < entries[1] {
        entries[1]
    } else {
        entries[0]
    };
    arena_mb.plus_spec(
        N::decimal_spec(most as i64, 0).times_spec(N::decimal_spec(4, 0)).over_spec(
            N::decimal_spec(1_000_000, 0),
        ),
    )
}

/// [`load_peak`], computed.
pub fn load_peak_mb<N: Num>(arena_mb: N, entries: [u64; 2]) -> (r: N)
    requires
        entries[0] <= i64::MAX,
        entries[1] <= i64::MAX,
    ensures
        r == load_peak(arena_mb, entries),
{
    let most: u64 = if entries[0] < entries[1] {
        entries[1]
    } else {
        entries[0]
    };
    arena_mb.plus(
        N::decimal(most as i64, 0).times(N::decimal(4, 0)).over(N::decimal(1_000_000, 0)),
    )
}

// ---------------------------------------------------------------------------
// How many nodes are worth building
// ---------------------------------------------------------------------------

/// Whether a combo is in a range and free of the board's cards.
pub open spec fn playable<S: Num>(weights: Seq<S>, board: u64, i: int) -> bool {
    let (a, b) = cards::combo_cards(i);
    S::decimal_spec(0, 0).below_spec(weights[i]) && (cards::mask_spec(a) | cards::mask_spec(b))
        & board == 0
}

/// How many of the first `k` combos are.
pub open spec fn playable_below<S: Num>(weights: Seq<S>, board: u64, k: int) -> int
    decreases k,
{
    if k <= 0 {
        0
    } else {
        playable_below(weights, board, k - 1) + if playable(weights, board, k - 1) {
            1int
        } else {
            0
        }
    }
}

/// How many combos of a range text are playable, where it can be read.
pub open spec fn range_size<S: Num>(text: Seq<char>, board: u64) -> Option<int> {
    match range::tokens_applied(range::empty_weights::<S>(), text) {
        Ok(weights) => Some(playable_below(weights, board, 1326)),
        Err(_) => None,
    }
}

/// The cards of a board text as a set; none where it cannot be read.
pub open spec fn board_set(text: Seq<char>) -> u64 {
    match cards::text_cards(text) {
        Ok(v) => cards::mask_of(v),
        Err(_) => 0,
    }
}

/// The size of the smaller range, at least one.
pub open spec fn smaller_range(oop: Option<int>, ip: Option<int>) -> int {
    let least = match (oop, ip) {
        (Some(a), Some(b)) => if b < a {
            b
        } else {
            a
        },
        (Some(a), None) => a,
        (None, Some(b)) => b,
        (None, None) => 1,
    };
    if least < 1 {
        1
    } else {
        least
    }
}

/// The least memory a node costs on average, in bytes, with `hands` hands:
/// one node in four is a decision between two actions.
pub open spec fn node_cost<N: Num>(hands: int, storage: Storage) -> N {
    let compact = storage is Compressed;
    N::decimal_spec(25, 2).times_spec(N::decimal_spec(2, 0)).times_spec(
        N::decimal_spec(hands as i64, 0),
    ).times_spec(
        N::decimal_spec(
            if compact {
                4
            } else {
                8
            },
            0,
        ),
    ).plus_spec(
        N::decimal_spec(
            if compact {
                16
            } else {
                0
            },
            0,
        ),
    )
}

/// The smallest whole number that is not smaller, where it is not negative.
pub open spec fn rounded_up<N: Num>(x: N) -> int {
    let below = x.negated_spec().floored_spec();
    if below >= 0 {
        0
    } else {
        -below
    }
}

/// How many nodes a tree may have for its spot to have a chance to fit: four
/// times what the memory cap pays for at the least cost per node, and never
/// fewer than a thousand.
pub open spec fn nodes_worth<S: Single>(
    cap_mb: S::Wide,
    config: SpotConfig<S::Wide>,
    storage: Storage,
) -> int {
    let board = board_set(config.board@);
    let hands = smaller_range(
        range_size::<S>(config.range_oop@, board),
        range_size::<S>(config.range_ip@, board),
    );
    let bytes = num::larger_of(S::Wide::decimal_spec(0, 0), cap_mb).times_spec(
        S::Wide::decimal_spec(1_000_000, 0),
    ).times_spec(S::Wide::decimal_spec(4, 0));
    let nodes = rounded_up(bytes.over_spec(node_cost::<S::Wide>(hands, storage)));
    if nodes < 1000 {
        1000
    } else {
        nodes
    }
}

fn count_playable<S: Num>(weights: &Vec<S>, board: u64) -> (r: usize)
    requires
        weights@.len() == NUM_COMBOS,
    ensures
        r == playable_below(weights@, board, 1326),
        r <= 1326,
{
    let zero = S::decimal(0, 0);
    let mut count: usize = 0;
    let mut i: usize = 0;
    while i < NUM_COMBOS
        invariant
            i <= 1326,
            weights@.len() == 1326,
            zero == S::decimal_spec(0, 0),
            count <= i,
            count == playable_below(weights@, board, i as int),
        decreases 1326 - i,
    {
        let (a, b) = combo_from_index(i);
        let mask: u64 = card_mask(a) | card_mask(b);
        if zero.below(weights[i]) && mask & board == 0 {
            count = count + 1;
        }
        i = i + 1;
    }
    count
}

fn size_of_range<S: Num>(text: &str, board: u64) -> (r: Option<usize>)
    ensures
        match r {
            Some(n) => range_size::<S>(text@, board) == Some(n as int) && n <= 1326,
            None => range_size::<S>(text@, board) is None,
        },
{
    match Range::<S>::parse(text) {
        Ok(range) => Some(count_playable(&range.weights, board)),
        Err(_) => None,
    }
}

/// [`nodes_worth`], computed, within the range of counts.
pub fn node_budget<S: Single>(
    cap_mb: S::Wide,
    config: &SpotConfig<S::Wide>,
    storage: Storage,
) -> (r: usize)
    ensures
        r == if nodes_worth::<S>(cap_mb, *config, storage) > usize::MAX {
            usize::MAX as int
        } else {
            nodes_worth::<S>(cap_mb, *config, storage)
        },
{
    let board: u64 = match parse_cards(config.board.as_str()) {
        Ok(v) => cards_mask(v.as_slice()),
        Err(_) => 0,
    };
    let oop = size_of_range::<S>(config.range_oop.as_str(), board);
    let ip = size_of_range::<S>(config.range_ip.as_str(), board);
    let least: usize = match (oop, ip) {
        (Some(a), Some(b)) => if b < a {
            b
        } else {
            a
        },
        (Some(a), None) => a,
        (None, Some(b)) => b,
        (None, None) => 1,
    };
    let hands: usize = if least < 1 {
        1
    } else {
        least
    };
    let (entry, scale): (i64, i64) = match storage {
        Storage::F32 => (8, 0),
        Storage::Compressed => (4, 16),
    };
    let cost = S::Wide::decimal(25, 2).times(S::Wide::decimal(2, 0)).times(
        S::Wide::decimal(hands as i64, 0),
    ).times(S::Wide::decimal(entry, 0)).plus(S::Wide::decimal(scale, 0));
    let bytes = larger(S::Wide::decimal(0, 0), cap_mb).times(
        S::Wide::decimal(1_000_000, 0),
    ).times(S::Wide::decimal(4, 0));
    let below: i128 = bytes.over(cost).negated().floored();
    if below > -1000 {
        return 1000;
    }
    if below < -(usize::MAX as i128) {
        usize::MAX
    } else {
        (-below) as usize
    }
}

} // verus!
