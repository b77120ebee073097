//! What to tell the user when something cannot be done.

use crate::cards;
use crate::cards::{card_to_string, CardError};
use crate::framing::SaveError;
use crate::game::{SpotError, SpotFault};
use crate::num::{Num, Single};
use crate::path::{QueryError, QueryFault};
use crate::preflop_build;
use crate::preflop_build::{arena_megabytes, TreeEstimate, TreeLimits};
use crate::preflop_save::GameError;
use crate::preflop_view::PreflopQueryError;
use crate::rake::FreqError;
use crate::range::{RangeError, RangeFault};
use crate::request::{SizingError, SizingFault};
use crate::save::{LoadError, LockError};
use crate::sizing::{SizeError, SizeFault};
use crate::text::{chars_of, push_all, string_of};
use crate::tree::BuildError;
use vstd::prelude::*;

verus! {

/// The digit that stands for a number below ten.
pub open spec fn digit(n: nat) -> char {
    ('0' as u32 + n as u32) as char
}

/// A whole number in digits.
pub open spec fn count_text(n: nat) -> Seq<char>
    decreases n,
{
    if n < 10 {
        seq![digit(n)]
    } else {
        count_text(n / 10).push(digit(n % 10))
    }
}

fn to_digit(n: u128) -> (r: char)
    requires
        n < 10,
    ensures
        r == digit(n as nat),
{
    (48u8 + n as u8) as char
}

/// [`count_text`], computed.
pub fn write_count(n: u128) -> (r: Vec<char>)
    ensures
        r@ == count_text(n as nat),
    decreases n,
{
    if n < 10 {
        let mut out: Vec<char> = Vec::new();
        out.push(to_digit(n));
        assert(out@ =~= count_text(n as nat));
        out
    } else {
        let mut out = write_count(n / 10);
        out.push(to_digit(n % 10));
        out
    }
}

/// A whole number in digits, with its sign where it is negative.
pub open spec fn whole_text(n: int) -> Seq<char> {
    if n < 0 {
        seq!['-'] + count_text((-n) as nat)
    } else {
        count_text(n as nat)
    }
}

/// [`whole_text`], computed.
pub fn write_whole(n: i64) -> (r: Vec<char>)
    ensures
        r@ == whole_text(n as int),
{
    if n < 0 {
        let mut out: Vec<char> = Vec::new();
        out.push('-');
        push_all(&mut out, &write_count((-(n as i128)) as u128));
        assert(out@ =~= whole_text(n as int));
        out
    } else {
        write_count(n as u128)
    }
}

fn put(out: &mut Vec<char>, s: &str)
    ensures
        final(out)@ == old(out)@ + s@,
{
    push_all(out, &chars_of(s));
}

fn put_count(out: &mut Vec<char>, n: u64)
    ensures
        final(out)@ == old(out)@ + count_text(n as nat),
{
    push_all(out, &write_count(n as u128));
}

fn say(s: &str) -> (r: String)
    ensures
        r@ == s@,
{
    string_of(&chars_of(s))
}

/// A word before a text in quotation marks.
pub open spec fn quoted(words: Seq<char>, s: Seq<char>) -> Seq<char> {
    words + "\""@ + s + "\""@
}

fn quote(words: &str, s: &str) -> (r: String)
    ensures
        r@ == quoted(words@, s@),
{
    let mut out = chars_of(words);
    put(&mut out, "\"");
    put(&mut out, s);
    put(&mut out, "\"");
    string_of(&out)
}

/// What a player is called.
pub open spec fn player_text(p: int) -> Seq<char> {
    if p == 0 {
        "OOP"@
    } else {
        "IP"@
    }
}

fn player_name(p: u8) -> (r: &'static str)
    ensures
        r@ == player_text(p as int),
{
    if p == 0 {
        "OOP"
    } else {
        "IP"
    }
}

/// What a street is called.
pub open spec fn street_text(street: int) -> Seq<char> {
    if street == 0 {
        "flop"@
    } else if street == 1 {
        "turn"@
    } else {
        "river"@
    }
}

fn street_name(street: u8) -> (r: &'static str)
    ensures
        r@ == street_text(street as int),
{
    if street == 0 {
        "flop"
    } else if street == 1 {
        "turn"
    } else {
        "river"
    }
}

// ---------------------------------------------------------------------------
// Cards, ranges and sizes
// ---------------------------------------------------------------------------

pub open spec fn card_error_text(e: CardError) -> Seq<char> {
    match e {
        CardError::NotACard => "a card is a rank and a suit"@,
        CardError::Repeated { card } => if card < 52 {
            "duplicate card "@ + cards::card_text(card as int)
        } else {
            "duplicate card"@
        },
    }
}

impl CardError {
    /// What to tell the user.
    pub fn message(&self) -> (r: String)
        ensures
            r@ == card_error_text(*self),
    {
        match *self {
            CardError::NotACard => say("a card is a rank and a suit"),
            CardError::Repeated { card } => if card < 52 {
                let mut out = chars_of("duplicate card ");
                let name = card_to_string(card);
                put(&mut out, name.as_str());
                string_of(&out)
            } else {
                say("duplicate card")
            },
        }
    }
}

pub open spec fn range_error_text(fault: RangeFault, s: Seq<char>) -> Seq<char> {
    match fault {
        RangeFault::BadWeight => quoted("invalid weight in token "@, s),
        RangeFault::WeightOutOfRange => quoted("weight out of range in token "@, s),
        RangeFault::RepeatedCard => quoted("combo with duplicate card: "@, s),
        RangeFault::BadSpanStart => quoted("invalid range start: "@, s),
        RangeFault::BadSpanEnd => quoted("invalid range end: "@, s),
        RangeFault::MixedSuitedness => quoted("mismatched suitedness in range: "@, s),
        RangeFault::UnsupportedSpan => quoted("unsupported range shape: "@, s),
        RangeFault::BadItem => quoted("invalid item: "@, s),
        RangeFault::BadToken => quoted("invalid range token: "@, s),
        RangeFault::PairMarker => quoted("pairs cannot have a suitedness marker: "@, s),
        RangeFault::BadMarker => quoted("invalid suitedness marker "@, s),
    }
}

impl RangeError {
    /// What to tell the user.
    pub fn message(&self) -> (r: String)
        ensures
            r@ == range_error_text(self.fault, self.text@),
    {
        let s = self.text.as_str();
        match self.fault {
            RangeFault::BadWeight => quote("invalid weight in token ", s),
            RangeFault::WeightOutOfRange => quote("weight out of range in token ", s),
            RangeFault::RepeatedCard => quote("combo with duplicate card: ", s),
            RangeFault::BadSpanStart => quote("invalid range start: ", s),
            RangeFault::BadSpanEnd => quote("invalid range end: ", s),
            RangeFault::MixedSuitedness => quote("mismatched suitedness in range: ", s),
            RangeFault::UnsupportedSpan => quote("unsupported range shape: ", s),
            RangeFault::BadItem => quote("invalid item: ", s),
            RangeFault::BadToken => quote("invalid range token: ", s),
            RangeFault::PairMarker => quote("pairs cannot have a suitedness marker: ", s),
            RangeFault::BadMarker => quote("invalid suitedness marker ", s),
        }
    }
}

pub open spec fn size_error_text(fault: SizeFault, token: Seq<char>) -> Seq<char> {
    match fault {
        SizeFault::Invalid => quoted("invalid size token "@, token),
        SizeFault::MultipleTooSmall => quoted("raise multiple must be > 1: "@, token),
        SizeFault::NotPositive => quoted("bet size must be positive: "@, token),
    }
}

impl SizeError {
    /// What to tell the user.
    pub fn message(&self) -> (r: String)
        ensures
            r@ == size_error_text(self.fault, self.token@),
    {
        let s = self.token.as_str();
        match self.fault {
            SizeFault::Invalid => quote("invalid size token ", s),
            SizeFault::MultipleTooSmall => quote("raise multiple must be > 1: ", s),
            SizeFault::NotPositive => quote("bet size must be positive: ", s),
        }
    }
}

pub open spec fn sizing_error_text(e: SizingFault) -> Seq<char> {
    match e {
        SizingFault::Streets => "need sizing for exactly 3 streets"@,
        SizingFault::Size(fault, token) => size_error_text(fault, token),
    }
}

impl SizingError {
    /// What to tell the user.
    pub fn message(&self) -> (r: String)
        ensures
            r@ == sizing_error_text(self@),
    {
        match self {
            SizingError::Streets => say("need sizing for exactly 3 streets"),
            SizingError::Size(e) => e.message(),
        }
    }
}

// ---------------------------------------------------------------------------
// Trees and spots
// ---------------------------------------------------------------------------

pub open spec fn build_error_text<N: Num>(e: BuildError<N>) -> Seq<char> {
    match e {
        BuildError::BoardLength => "board must have 3 to 5 cards"@,
        BuildError::Stakes => "pot and stacks must be positive"@,
        BuildError::RaiseOnly { street, player, donk, mult } => street_text(street as int) + " "@
            + player_text(player as int) + (if donk {
            " donk: '"@
        } else {
            " bet: '"@
        }) + mult.shown_spec() + "x' is a raise-only size — use % of pot or 'a'"@,
        BuildError::Budget { cap } => "tree too large: over the max_nodes budget of "@ + count_text(
            cap as nat,
        ) + "; reduce bet/raise sizes, max_raises, or effective stack"@,
        BuildError::ActionCount { count } => "invalid action count "@ + count_text(count as nat)
            + " during tree build"@,
        BuildError::IndexSpace => "tree too large for its node numbers"@,
    }
}

impl<N: Num> BuildError<N> {
    /// What to tell the user.
    pub fn message(&self) -> (r: String)
        ensures
            r@ == build_error_text(*self),
    {
        match *self {
            BuildError::BoardLength => say("board must have 3 to 5 cards"),
            BuildError::Stakes => say("pot and stacks must be positive"),
            BuildError::RaiseOnly { street, player, donk, mult } => {
                let mut out = chars_of(street_name(street));
                put(&mut out, " ");
                put(&mut out, player_name(player));
                put(
                    &mut out,
                    if donk {
                        " donk: '"
                    } else {
                        " bet: '"
                    },
                );
                let shown = mult.shown();
                put(&mut out, shown.as_str());
                put(&mut out, "x' is a raise-only size — use % of pot or 'a'");
                string_of(&out)
            },
            BuildError::Budget { cap } => {
                let mut out = chars_of("tree too large: over the max_nodes budget of ");
                put_count(&mut out, cap as u64);
                put(&mut out, "; reduce bet/raise sizes, max_raises, or effective stack");
                string_of(&out)
            },
            BuildError::ActionCount { count } => {
                let mut out = chars_of("invalid action count ");
                put_count(&mut out, count as u64);
                put(&mut out, " during tree build");
                string_of(&out)
            },
            BuildError::IndexSpace => say("tree too large for its node numbers"),
        }
    }
}

pub open spec fn spot_error_text<N: Num>(e: SpotFault<N>) -> Seq<char> {
    match e {
        SpotFault::RakeIsPercent { pct } =>
            "rake_pct is a FRACTION of the pot (0.05 = 5%), got "@ + pct.shown_spec()
            + " — did you pass a percent?"@,
        SpotFault::RakeNegative { pct } => "rake_pct must be >= 0, got "@ + pct.shown_spec(),
        SpotFault::CapNegative { cap } => "rake_cap must be >= 0, got "@ + cap.shown_spec(),
        SpotFault::Board { error } => card_error_text(error),
        SpotFault::BoardLength => "board must have 3 to 5 cards"@,
        SpotFault::Range { fault, text } => range_error_text(fault, text),
        SpotFault::NoCombos { player } => player_text(player as int)
            + " range has no combos left after board card removal"@,
        SpotFault::Tree { error } => build_error_text(error),
    }
}

impl<N: Num> SpotError<N> {
    /// What to tell the user.
    pub fn message(&self) -> (r: String)
        ensures
            r@ == spot_error_text(self.fault()),
    {
        match self {
            SpotError::RakeIsPercent { pct } => {
                let mut out = chars_of("rake_pct is a FRACTION of the pot (0.05 = 5%), got ");
                let shown = pct.shown();
                put(&mut out, shown.as_str());
                put(&mut out, " — did you pass a percent?");
                string_of(&out)
            },
            SpotError::RakeNegative { pct } => {
                let mut out = chars_of("rake_pct must be >= 0, got ");
                let shown = pct.shown();
                put(&mut out, shown.as_str());
                string_of(&out)
            },
            SpotError::CapNegative { cap } => {
                let mut out = chars_of("rake_cap must be >= 0, got ");
                let shown = cap.shown();
                put(&mut out, shown.as_str());
                string_of(&out)
            },
            SpotError::Board { error } => error.message(),
            SpotError::BoardLength => say("board must have 3 to 5 cards"),
            SpotError::Range { error } => error.message(),
            SpotError::NoCombos { player } => {
                let mut out = chars_of(player_name(*player));
                put(&mut out, " range has no combos left after board card removal");
                string_of(&out)
            },
            SpotError::Tree { error } => error.message(),
        }
    }
}

// ---------------------------------------------------------------------------
// Queries and locks
// ---------------------------------------------------------------------------

pub open spec fn freq_error_text(e: FreqError) -> Seq<char> {
    match e {
        FreqError::Count { expected, got } => "expected "@ + count_text(expected as nat)
            + " action frequencies, got "@ + count_text(got as nat),
        FreqError::Invalid => "frequencies must be finite and >= 0"@,
        FreqError::AllZero => "at least one frequency must be positive"@,
    }
}

impl FreqError {
    /// What to tell the user.
    pub fn message(&self) -> (r: String)
        ensures
            r@ == freq_error_text(*self),
    {
        match *self {
            FreqError::Count { expected, got } => {
                let mut out = chars_of("expected ");
                put_count(&mut out, expected as u64);
                put(&mut out, " action frequencies, got ");
                put_count(&mut out, got as u64);
                string_of(&out)
            },
            FreqError::Invalid => say("frequencies must be finite and >= 0"),
            FreqError::AllZero => say("at least one frequency must be positive"),
        }
    }
}

pub open spec fn query_error_text(e: QueryFault) -> Seq<char> {
    match e {
        QueryFault::ActionIndex { index } => "action index "@ + count_text(index as nat)
            + " out of range"@,
        QueryFault::Card { error } => card_error_text(error),
        QueryFault::CardUnavailable { card } => "card "@ + card + " not available here"@,
        QueryFault::StepMismatch => "path step does not match node type"@,
        QueryFault::Freqs { error } => freq_error_text(error),
        QueryFault::NotADecision => "only action nodes can be locked"@,
        QueryFault::NotACombo { combo } => quoted("expected a 2-card combo, got "@, combo),
        QueryFault::NotInRange { combo, player } => combo + " is not in "@ + player_text(
            player as int,
        ) + "'s range here"@,
        QueryFault::Exploiter => "exploiter must be 0 (OOP) or 1 (IP)"@,
        QueryFault::NotAChance => "runouts report requires a chance (card) node"@,
        QueryFault::Villain => "villain must be 0 (OOP) or 1 (IP)"@,
        QueryFault::Unsolved =>
            "solve the spot first — the profile distorts the solved strategy"@,
        QueryFault::EmptyRange => "villain range is empty"@,
    }
}

impl QueryError {
    /// What to tell the user.
    pub fn message(&self) -> (r: String)
        ensures
            r@ == query_error_text(self.fault()),
    {
        match self {
            QueryError::ActionIndex { index } => {
                let mut out = chars_of("action index ");
                put_count(&mut out, *index as u64);
                put(&mut out, " out of range");
                string_of(&out)
            },
            QueryError::Card { error } => error.message(),
            QueryError::CardUnavailable { card } => {
                let mut out = chars_of("card ");
                put(&mut out, card.as_str());
                put(&mut out, " not available here");
                string_of(&out)
            },
            QueryError::StepMismatch => say("path step does not match node type"),
            QueryError::Freqs { error } => error.message(),
            QueryError::NotADecision => say("only action nodes can be locked"),
            QueryError::NotACombo { combo } => quote(
                "expected a 2-card combo, got ",
                combo.as_str(),
            ),
            QueryError::NotInRange { combo, player } => {
                let mut out = chars_of(combo.as_str());
                put(&mut out, " is not in ");
                put(&mut out, player_name(*player));
                put(&mut out, "'s range here");
                string_of(&out)
            },
            QueryError::Exploiter => say("exploiter must be 0 (OOP) or 1 (IP)"),
            QueryError::NotAChance => say("runouts report requires a chance (card) node"),
            QueryError::Villain => say("villain must be 0 (OOP) or 1 (IP)"),
            QueryError::Unsolved => say(
                "solve the spot first — the profile distorts the solved strategy",
            ),
            QueryError::EmptyRange => say("villain range is empty"),
        }
    }
}

impl PreflopQueryError {
    pub open spec fn text(self) -> Seq<char> {
        match self {
            PreflopQueryError::BadPath => "bad path"@,
            PreflopQueryError::NotHeadsUp =>
                "export needs a flop node with exactly two live players"@,
        }
    }

    /// What to tell the user.
    pub fn message(&self) -> (r: &'static str)
        ensures
            r@ == self.text(),
    {
        match self {
            PreflopQueryError::BadPath => "bad path",
            PreflopQueryError::NotHeadsUp =>
                "export needs a flop node with exactly two live players",
        }
    }
}

// ---------------------------------------------------------------------------
// Saves
// ---------------------------------------------------------------------------

pub open spec fn lock_error_text<S: Num>(e: LockError<S>) -> Seq<char> {
    match e {
        LockError::OutOfRange { idx, nodes } => "lock at node "@ + count_text(idx as nat)
            + ": index out of range (tree has "@ + count_text(nodes as nat) + " nodes)"@,
        LockError::NotADecision { idx } => "lock at node "@ + count_text(idx as nat)
            + ": not an action node"@,
        LockError::Shape { idx, entries, actions, hands } => "lock at node "@ + count_text(
            idx as nat,
        ) + ": sigma has "@ + count_text(entries as nat) + " entries, expected "@ + count_text(
            actions as nat,
        ) + " actions x "@ + count_text(hands as nat) + " hands = "@ + count_text(
            (actions * hands) as nat,
        ),
        LockError::Frequency { idx, value } => "lock at node "@ + count_text(idx as nat)
            + ": invalid frequency "@ + value.shown_spec() + " (must be finite and >= 0)"@,
    }
}

impl<S: Num> LockError<S> {
    /// What to tell the user.
    pub fn message(&self) -> (r: String)
        ensures
            r@ == lock_error_text(*self),
    {
        let mut out = chars_of("lock at node ");
        match *self {
            LockError::OutOfRange { idx, nodes } => {
                put_count(&mut out, idx as u64);
                put(&mut out, ": index out of range (tree has ");
                put_count(&mut out, nodes as u64);
                put(&mut out, " nodes)");
            },
            LockError::NotADecision { idx } => {
                put_count(&mut out, idx as u64);
                put(&mut out, ": not an action node");
            },
            LockError::Shape { idx, entries, actions, hands } => {
                put_count(&mut out, idx as u64);
                put(&mut out, ": sigma has ");
                put_count(&mut out, entries as u64);
                put(&mut out, " entries, expected ");
                put_count(&mut out, actions as u64);
                put(&mut out, " actions x ");
                put_count(&mut out, hands as u64);
                put(&mut out, " hands = ");
                assert(0 <= actions * hands <= u64::MAX * u64::MAX) by (nonlinear_arith)
                    requires
                        0 <= actions <= u64::MAX,
                        0 <= hands <= u64::MAX,
                ;
                push_all(&mut out, &write_count(actions as u128 * hands as u128));
            },
            LockError::Frequency { idx, value } => {
                put_count(&mut out, idx as u64);
                put(&mut out, ": invalid frequency ");
                let shown = value.shown();
                put(&mut out, shown.as_str());
                put(&mut out, " (must be finite and >= 0)");
            },
        }
        string_of(&out)
    }
}

pub open spec fn save_error_text(e: SaveError) -> Seq<char> {
    match e {
        SaveError::Truncated => "file truncated"@,
        SaveError::NotASave => "not a solver save file"@,
        SaveError::ArenaSize { file, expected } => "arena size mismatch: file "@ + count_text(
            file as nat,
        ) + ", expected "@ + count_text(expected as nat) + " (tree config changed?)"@,
    }
}

impl SaveError {
    /// What to tell the user.
    pub fn message(&self) -> (r: String)
        ensures
            r@ == save_error_text(*self),
    {
        match *self {
            SaveError::Truncated => say("file truncated"),
            SaveError::NotASave => say("not a solver save file"),
            SaveError::ArenaSize { file, expected } => {
                let mut out = chars_of("arena size mismatch: file ");
                put_count(&mut out, file);
                put(&mut out, ", expected ");
                put_count(&mut out, expected);
                put(&mut out, " (tree config changed?)");
                string_of(&out)
            },
        }
    }
}

pub open spec fn load_error_text<S: Single>(e: LoadError<S>) -> Seq<char> {
    match e {
        LoadError::Spot { error } => spot_error_text(error.fault()),
        LoadError::Lock { error } => "bad lock section: "@ + lock_error_text(error),
        LoadError::TooLarge => "the arenas do not fit this machine"@,
        LoadError::File { error } => save_error_text(error),
    }
}

impl<S: Single> LoadError<S> {
    /// What to tell the user.
    pub fn message(&self) -> (r: String)
        ensures
            r@ == load_error_text(*self),
    {
        match self {
            LoadError::Spot { error } => error.message(),
            LoadError::Lock { error } => {
                let mut out = chars_of("bad lock section: ");
                let what = error.message();
                put(&mut out, what.as_str());
                string_of(&out)
            },
            LoadError::TooLarge => say("the arenas do not fit this machine"),
            LoadError::File { error } => error.message(),
        }
    }
}

/// What is said of a preflop tree that passes its limits.
pub open spec fn size_text<W: Num>(est: TreeEstimate, limits: TreeLimits<W>) -> Seq<char> {
    "preflop tree too large: "@ + (if est.truncated {
        ">"@
    } else {
        "~"@
    }) + count_text(est.nodes as nat) + " nodes / "@ + preflop_build::megabytes::<W>(
        est.arena_len as int,
    ).fixed_spec(0) + " MB of solver arenas (limits "@ + count_text(limits.nodes as nat)
        + " nodes, "@ + limits.arena_mb.fixed_spec(0)
        + " MB; env PREFLOP_MAX_NODES / PREFLOP_MAX_ARENA_MB to raise). Trim open sizes, raise multipliers, the raise cap, or limps."@
}

/// What to tell the user of a tree of the estimated size, where it passes its
/// limits.
pub fn size_refusal<W: Num>(est: &TreeEstimate, limits: &TreeLimits<W>) -> (r: Option<String>)
    requires
        est.arena_len <= i64::MAX,
    ensures
        r is Some <==> est.truncated || est.nodes > limits.nodes || limits.arena_mb.below_spec(
            preflop_build::megabytes::<W>(est.arena_len as int),
        ),
        r matches Some(text) ==> text@ == size_text(*est, *limits),
{
    let mb = arena_megabytes::<W>(est.arena_len);
    if !est.truncated && est.nodes <= limits.nodes && !limits.arena_mb.below(mb) {
        return None;
    }
    let mut out = chars_of("preflop tree too large: ");
    put(
        &mut out,
        if est.truncated {
            ">"
        } else {
            "~"
        },
    );
    put_count(&mut out, est.nodes);
    put(&mut out, " nodes / ");
    let need = mb.fixed(0);
    put(&mut out, need.as_str());
    put(&mut out, " MB of solver arenas (limits ");
    put_count(&mut out, limits.nodes);
    put(&mut out, " nodes, ");
    let cap = limits.arena_mb.fixed(0);
    put(&mut out, cap.as_str());
    put(
        &mut out,
        " MB; env PREFLOP_MAX_NODES / PREFLOP_MAX_ARENA_MB to raise). Trim open sizes, raise multipliers, the raise cap, or limps.",
    );
    Some(string_of(&out))
}

pub open spec fn game_error_text<S: Num>(e: GameError<S>) -> Seq<char> {
    match e {
        GameError::Game(error) => error.text(),
        GameError::SeatCount => "save is inconsistent (seat count mismatch)"@,
        GameError::Profile => "save is inconsistent (malformed seat profile)"@,
        GameError::Hero => "save is inconsistent (no such hero seat)"@,
        GameError::PreHero => "save is inconsistent (pre-hero flags mismatch)"@,
        GameError::Lock(error) => lock_error_text(error),
        GameError::File(error) => save_error_text(error),
    }
}

impl<S: Num> GameError<S> {
    /// What to tell the user.
    pub fn message(&self) -> (r: String)
        ensures
            r@ == game_error_text(*self),
    {
        match self {
            GameError::Game(error) => say(error.message()),
            GameError::SeatCount => say("save is inconsistent (seat count mismatch)"),
            GameError::Profile => say("save is inconsistent (malformed seat profile)"),
            GameError::Hero => say("save is inconsistent (no such hero seat)"),
            GameError::PreHero => say("save is inconsistent (pre-hero flags mismatch)"),
            GameError::Lock(error) => error.message(),
            GameError::File(error) => error.message(),
        }
    }
}

} // verus!
