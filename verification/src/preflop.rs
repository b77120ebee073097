//! A preflop game: seats, stakes and sizes, and what a game is refused for.

use crate::num;
use crate::num::{larger, Num};
use crate::strategy::copied;
use crate::text::{chars_of, string_of};
use vstd::prelude::*;

verus! {

/// A preflop game.
pub struct PreflopConfig<W> {
    /// The seats, in the order in which they act before the flop.
    pub positions: Vec<String>,
    /// The stack that every seat starts with, in big blinds.
    pub stack: W,
    /// The blind or straddle that each seat posts; it counts towards calls.
    pub posts: Vec<W>,
    /// The dead ante of each seat; it does not count towards calls.
    pub ante: W,
    /// Whether a seat may call before anyone has raised.
    pub limp: bool,
    /// The amounts that a first raise may go to.
    pub open_raises: Vec<W>,
    /// What a later raise may go to, as multiples of the bet it meets.
    pub raise_mults: Vec<W>,
    /// How many raises there may be in all.
    pub max_raises: u8,
    /// Whether going all-in is always among the raises.
    pub add_allin: bool,
    /// A raise to this fraction of the stack or more is all-in.
    pub allin_threshold: W,
    /// The rake in percent.
    pub rake_pct: W,
    /// The most rake a pot pays; zero for no cap.
    pub rake_cap: W,
    /// Whether a pot that ends before the flop pays no rake.
    pub no_flop_no_drop: bool,
    /// `raw` where equity is realized in full, else by position.
    pub realization: String,
    /// The seats that never raise.
    pub call_only_seats: Vec<usize>,
    /// First raises seat by seat; an empty list keeps the common one.
    pub open_raises_by_seat: Option<Vec<Vec<W>>>,
    /// Later raises seat by seat; an empty list keeps the common one.
    pub raise_mults_by_seat: Option<Vec<Vec<W>>>,
}

/// The raise cap of a game that names none.
pub fn default_max_raises() -> (r: u8)
    ensures
        r == 4,
{
    4
}

/// The all-in threshold of a game that names none.
pub fn default_allin_threshold<W: Num>() -> (r: W)
    ensures
        r == W::decimal_spec(85, 2),
{
    W::decimal(85, 2)
}

/// Whether a game that does not say pays no rake before the flop.
pub fn default_true() -> (r: bool)
    ensures
        r,
{
    true
}

/// How a game that does not say realizes equity.
pub fn default_realization() -> (r: String)
    ensures
        r@ == "static"@,
{
    string_of(&chars_of("static"))
}

// ---------------------------------------------------------------------------
// Which games there are
// ---------------------------------------------------------------------------

/// Why a game cannot be built.
#[derive(Debug, Clone, Copy, PartialEq, Eq, Structural)]
pub enum PreflopError {
    Positions,
    PostsAlign,
    Stack,
    Ante,
    Posts,
    RakePct,
    RakeCap,
    AllinThreshold,
    OpenRaises,
    RaiseMults,
    CallOnlySeats,
    OpenRaisesBySeat,
    RaiseMultsBySeat,
    SmallStack,
    NoOpening,
    /// More nodes, or more megabytes, than the limits allow.
    TooLarge,
}

impl PreflopError {
    pub open spec fn text(self) -> Seq<char> {
        match self {
            PreflopError::Positions => "2..9 positions required"@,
            PreflopError::PostsAlign => "posts must align with positions"@,
            PreflopError::Stack => "stack must be positive and finite"@,
            PreflopError::Ante => "ante must be non-negative and finite"@,
            PreflopError::Posts => "posts must be non-negative and finite"@,
            PreflopError::RakePct => "rake_pct must be in [0, 100)"@,
            PreflopError::RakeCap => "rake_cap must be non-negative and finite"@,
            PreflopError::AllinThreshold => "allin_threshold must be in (0, 1]"@,
            PreflopError::OpenRaises => "open_raises must be positive and within the stack"@,
            PreflopError::RaiseMults => "raise_mults must be positive and finite"@,
            PreflopError::CallOnlySeats => "call_only_seats names a seat that is not there"@,
            PreflopError::OpenRaisesBySeat =>
                "open_raises_by_seat must align with positions and hold valid sizes"@,
            PreflopError::RaiseMultsBySeat =>
                "raise_mults_by_seat must align with positions and hold valid multiples"@,
            PreflopError::SmallStack => "stack must exceed the biggest blind"@,
            PreflopError::NoOpening =>
                "no legal opening actions: enable limp, a raise size or all-in"@,
            PreflopError::TooLarge =>
                "preflop tree too large; reduce sizes/raise cap or limps"@,
        }
    }

    /// What to tell the user.
    pub fn message(&self) -> (r: &'static str)
        ensures
            r@ == self.text(),
    {
        match self {
            PreflopError::Positions => "2..9 positions required",
            PreflopError::PostsAlign => "posts must align with positions",
            PreflopError::Stack => "stack must be positive and finite",
            PreflopError::Ante => "ante must be non-negative and finite",
            PreflopError::Posts => "posts must be non-negative and finite",
            PreflopError::RakePct => "rake_pct must be in [0, 100)",
            PreflopError::RakeCap => "rake_cap must be non-negative and finite",
            PreflopError::AllinThreshold => "allin_threshold must be in (0, 1]",
            PreflopError::OpenRaises => "open_raises must be positive and within the stack",
            PreflopError::RaiseMults => "raise_mults must be positive and finite",
            PreflopError::CallOnlySeats => "call_only_seats names a seat that is not there",
            PreflopError::OpenRaisesBySeat =>
                "open_raises_by_seat must align with positions and hold valid sizes",
            PreflopError::RaiseMultsBySeat =>
                "raise_mults_by_seat must align with positions and hold valid multiples",
            PreflopError::SmallStack => "stack must exceed the biggest blind",
            PreflopError::NoOpening =>
                "no legal opening actions: enable limp, a raise size or all-in",
            PreflopError::TooLarge => "preflop tree too large; reduce sizes/raise cap or limps",
        }
    }
}

/// Whether a number is finite and not negative.
pub open spec fn sound<W: Num>(x: W) -> bool {
    x.finite_spec() && W::decimal_spec(0, 0).at_most_spec(x)
}

/// Whether a number is finite and positive.
pub open spec fn positive<W: Num>(x: W) -> bool {
    x.finite_spec() && W::decimal_spec(0, 0).below_spec(x)
}

fn is_sound<W: Num>(x: W) -> (r: bool)
    ensures
        r == sound(x),
{
    x.finite() && W::decimal(0, 0).at_most(x)
}

fn is_positive<W: Num>(x: W) -> (r: bool)
    ensures
        r == positive(x),
{
    x.finite() && W::decimal(0, 0).below(x)
}

/// Whether every size can be raised to.
pub open spec fn sizes_fit<W: Num>(sizes: Seq<W>, stack: W) -> bool {
    forall|i: int|
        0 <= i < sizes.len() ==> positive(#[trigger] sizes[i]) && sizes[i].at_most_spec(stack)
}

/// Whether every multiple makes sense.
pub open spec fn mults_fit<W: Num>(mults: Seq<W>) -> bool {
    forall|i: int| 0 <= i < mults.len() ==> positive(#[trigger] mults[i])
}

fn fit_sizes<W: Num>(sizes: &Vec<W>, stack: W) -> (r: bool)
    ensures
        r == sizes_fit(sizes@, stack),
{
    let mut i: usize = 0;
    while i < sizes.len()
        invariant
            i <= sizes@.len(),
            sizes_fit(sizes@.take(i as int), stack),
        decreases sizes@.len() - i,
    {
        if !(is_positive(sizes[i]) && sizes[i].at_most(stack)) {
            assert(!(positive(sizes@[i as int]) && sizes@[i as int].at_most_spec(stack)));
            return false;
        }
        assert(sizes@.take(i + 1).drop_last() =~= sizes@.take(i as int));
        assert forall|j: int| 0 <= j < i + 1 implies positive(#[trigger] sizes@.take(i + 1)[j])
            && sizes@.take(i + 1)[j].at_most_spec(stack) by {
            if j < i {
                assert(sizes@.take(i as int)[j] == sizes@.take(i + 1)[j]);
            }
        }
        i = i + 1;
    }
    assert(sizes@.take(sizes@.len() as int) =~= sizes@);
    true
}

fn fit_mults<W: Num>(mults: &Vec<W>) -> (r: bool)
    ensures
        r == mults_fit(mults@),
{
    let mut i: usize = 0;
    while i < mults.len()
        invariant
            i <= mults@.len(),
            forall|j: int| 0 <= j < i ==> positive(#[trigger] mults@[j]),
        decreases mults@.len() - i,
    {
        if !is_positive(mults[i]) {
            assert(!positive(mults@[i as int]));
            return false;
        }
        i = i + 1;
    }
    true
}

/// The largest post, or zero where none is larger.
pub open spec fn biggest<W: Num>(posts: Seq<W>) -> W
    decreases posts.len(),
{
    if posts.len() == 0 {
        W::decimal_spec(0, 0)
    } else {
        num::larger_of(biggest(posts.drop_last()), posts.last())
    }
}

/// [`biggest`], computed.
pub fn biggest_post<W: Num>(posts: &Vec<W>) -> (r: W)
    ensures
        r == biggest(posts@),
{
    let mut top = W::decimal(0, 0);
    let mut i: usize = 0;
    assert(posts@.take(0) =~= Seq::<W>::empty());
    while i < posts.len()
        invariant
            i <= posts@.len(),
            top == biggest(posts@.take(i as int)),
        decreases posts@.len() - i,
    {
        assert(posts@.take(i + 1).drop_last() =~= posts@.take(i as int));
        top = larger(top, posts[i]);
        i = i + 1;
    }
    assert(posts@.take(posts@.len() as int) =~= posts@);
    top
}

/// Whether one of the sizes is a raise over `bet`.
pub open spec fn some_over<W: Num>(sizes: Seq<W>, bet: W) -> bool {
    exists|i: int|
        0 <= i < sizes.len() && !(#[trigger] sizes[i]).at_most_spec(
            bet.plus_spec(W::decimal_spec(1, 9)),
        )
}

fn any_over<W: Num>(sizes: &Vec<W>, bet: W) -> (r: bool)
    ensures
        r == some_over(sizes@, bet),
{
    let bar = bet.plus(W::decimal(1, 9));
    let mut i: usize = 0;
    while i < sizes.len()
        invariant
            i <= sizes@.len(),
            bar == bet.plus_spec(W::decimal_spec(1, 9)),
            forall|j: int| 0 <= j < i ==> (#[trigger] sizes@[j]).at_most_spec(bar),
        decreases sizes@.len() - i,
    {
        if !sizes[i].at_most(bar) {
            assert(!sizes@[i as int].at_most_spec(bar));
            return true;
        }
        i = i + 1;
    }
    false
}

impl<W: Num> PreflopConfig<W> {
    /// The amounts a seat may open to.
    pub open spec fn opens(&self, seat: int) -> Seq<W> {
        match self.open_raises_by_seat {
            Some(lists) => if 0 <= seat < lists@.len() && lists@[seat]@.len() > 0 {
                lists@[seat]@
            } else {
                self.open_raises@
            },
            None => self.open_raises@,
        }
    }

    /// The multiples a seat may re-raise by.
    pub open spec fn mults(&self, seat: int) -> Seq<W> {
        match self.raise_mults_by_seat {
            Some(lists) => if 0 <= seat < lists@.len() && lists@[seat]@.len() > 0 {
                lists@[seat]@
            } else {
                self.raise_mults@
            },
            None => self.raise_mults@,
        }
    }

    /// Whether a seat never raises.
    pub open spec fn calls_only(&self, seat: int) -> bool {
        exists|i: int|
            0 <= i < self.call_only_seats@.len() && #[trigger] self.call_only_seats@[i] == seat
    }

    /// Whether some seat has an opening raise that is not dropped.
    pub open spec fn opening_raise(&self) -> bool {
        exists|seat: int|
            0 <= seat < self.positions@.len() && some_over(
                #[trigger] self.opens(seat),
                biggest(self.posts@),
            )
    }

    /// Whether the game's table is one that can be played.
    pub open spec fn playable(&self) -> bool {
        &&& 2 <= self.positions@.len() <= 9
        &&& self.posts@.len() == self.positions@.len()
        &&& forall|i: int|
            0 <= i < self.call_only_seats@.len() ==> #[trigger] self.call_only_seats@[i]
                < self.positions@.len()
    }

    /// The first thing that is wrong with a game, if anything is.
    pub open spec fn fault(&self) -> Option<PreflopError> {
        let n = self.positions@.len();
        if !(2 <= n <= 9) {
            Some(PreflopError::Positions)
        } else if self.posts@.len() != n {
            Some(PreflopError::PostsAlign)
        } else if !positive(self.stack) {
            Some(PreflopError::Stack)
        } else if !sound(self.ante) {
            Some(PreflopError::Ante)
        } else if exists|i: int| 0 <= i < n && !sound(#[trigger] self.posts@[i]) {
            Some(PreflopError::Posts)
        } else if !(sound(self.rake_pct) && self.rake_pct.below_spec(W::decimal_spec(100, 0))) {
            Some(PreflopError::RakePct)
        } else if !sound(self.rake_cap) {
            Some(PreflopError::RakeCap)
        } else if !(positive(self.allin_threshold) && self.allin_threshold.at_most_spec(
            W::decimal_spec(1, 0),
        )) {
            Some(PreflopError::AllinThreshold)
        } else if !sizes_fit(self.open_raises@, self.stack) {
            Some(PreflopError::OpenRaises)
        } else if !mults_fit(self.raise_mults@) {
            Some(PreflopError::RaiseMults)
        } else if exists|i: int|
            0 <= i < self.call_only_seats@.len() && #[trigger] self.call_only_seats@[i] >= n {
            Some(PreflopError::CallOnlySeats)
        } else if !lists_fit(self.open_raises_by_seat, n, Some(self.stack)) {
            Some(PreflopError::OpenRaisesBySeat)
        } else if !lists_fit(self.raise_mults_by_seat, n, None) {
            Some(PreflopError::RaiseMultsBySeat)
        } else if self.stack.at_most_spec(biggest(self.posts@)) {
            Some(PreflopError::SmallStack)
        } else if !self.opening_raise() && !self.limp && !self.add_allin {
            Some(PreflopError::NoOpening)
        } else {
            None
        }
    }

    /// Whether a seat never raises.
    pub(crate) fn is_call_only(&self, seat: usize) -> (r: bool)
        ensures
            r == self.calls_only(seat as int),
    {
        let mut i: usize = 0;
        while i < self.call_only_seats.len()
            invariant
                i <= self.call_only_seats@.len(),
                forall|j: int| 0 <= j < i ==> #[trigger] self.call_only_seats@[j] != seat,
            decreases self.call_only_seats@.len() - i,
        {
            if self.call_only_seats[i] == seat {
                assert(self.call_only_seats@[i as int] == seat);
                return true;
            }
            i = i + 1;
        }
        false
    }

    pub(crate) fn opens_of(&self, seat: usize) -> (r: &Vec<W>)
        ensures
            r@ == self.opens(seat as int),
    {
        match &self.open_raises_by_seat {
            Some(lists) => if seat < lists.len() && lists[seat].len() > 0 {
                &lists[seat]
            } else {
                &self.open_raises
            },
            None => &self.open_raises,
        }
    }

    pub(crate) fn mults_of(&self, seat: usize) -> (r: &Vec<W>)
        ensures
            r@ == self.mults(seat as int),
    {
        match &self.raise_mults_by_seat {
            Some(lists) => if seat < lists.len() && lists[seat].len() > 0 {
                &lists[seat]
            } else {
                &self.raise_mults
            },
            None => &self.raise_mults,
        }
    }

    fn has_opening(&self) -> (r: bool)
        ensures
            r == self.opening_raise(),
    {
        let bet = biggest_post(&self.posts);
        let mut seat: usize = 0;
        while seat < self.positions.len()
            invariant
                seat <= self.positions@.len(),
                bet == biggest(self.posts@),
                forall|j: int| 0 <= j < seat ==> !some_over(#[trigger] self.opens(j), bet),
            decreases self.positions@.len() - seat,
        {
            if any_over(self.opens_of(seat), bet) {
                assert(some_over(self.opens(seat as int), bet));
                return true;
            }
            seat = seat + 1;
        }
        false
    }
}

/// Whether lists seat by seat cover all `n` seats and hold proper sizes, or
/// proper multiples where no stack bounds them.
pub open spec fn lists_fit<W: Num>(lists: Option<Vec<Vec<W>>>, n: nat, stack: Option<W>) -> bool {
    match lists {
        Some(v) => v@.len() == n && forall|i: int|
            0 <= i < n ==> list_fits(#[trigger] v@[i]@, stack),
        None => true,
    }
}

pub open spec fn list_fits<W: Num>(list: Seq<W>, stack: Option<W>) -> bool {
    match stack {
        Some(top) => sizes_fit(list, top),
        None => mults_fit(list),
    }
}

fn fit_lists<W: Num>(lists: &Option<Vec<Vec<W>>>, n: usize, stack: Option<W>) -> (r: bool)
    ensures
        r == lists_fit(*lists, n as nat, stack),
{
    match lists {
        Some(v) => {
            if v.len() != n {
                return false;
            }
            let mut i: usize = 0;
            while i < n
                invariant
                    i <= n == v@.len(),
                    *lists == Some(*v),
                    forall|j: int| 0 <= j < i ==> list_fits(#[trigger] v@[j]@, stack),
                decreases n - i,
            {
                let good = match stack {
                    Some(top) => fit_sizes(&v[i], top),
                    None => fit_mults(&v[i]),
                };
                if !good {
                    assert(!list_fits(v@[i as int]@, stack));
                    return false;
                }
                i = i + 1;
            }
            true
        },
        None => true,
    }
}

/// The number of seats of a game, or what is wrong with it.
pub fn validate<W: Num>(cfg: &PreflopConfig<W>) -> (r: Result<usize, PreflopError>)
    ensures
        match r {
            Ok(n) => cfg.fault() is None && n == cfg.positions@.len(),
            Err(e) => cfg.fault() == Some(e),
        },
{
    let n: usize = cfg.positions.len();
    if n < 2 || n > 9 {
        return Err(PreflopError::Positions);
    }
    if cfg.posts.len() != n {
        return Err(PreflopError::PostsAlign);
    }
    if !is_positive(cfg.stack) {
        return Err(PreflopError::Stack);
    }
    if !is_sound(cfg.ante) {
        return Err(PreflopError::Ante);
    }
    let mut i: usize = 0;
    while i < n
        invariant
            i <= n,
            2 <= n <= 9,
            n == cfg.positions@.len(),
            n == cfg.posts@.len(),
            positive(cfg.stack),
            sound(cfg.ante),
            forall|j: int| 0 <= j < i ==> sound(#[trigger] cfg.posts@[j]),
        decreases n - i,
    {
        if !is_sound(cfg.posts[i]) {
            assert(!sound(cfg.posts@[i as int]));
            return Err(PreflopError::Posts);
        }
        i = i + 1;
    }
    if !(is_sound(cfg.rake_pct) && cfg.rake_pct.below(W::decimal(100, 0))) {
        return Err(PreflopError::RakePct);
    }
    if !is_sound(cfg.rake_cap) {
        return Err(PreflopError::RakeCap);
    }
    if !(is_positive(cfg.allin_threshold) && cfg.allin_threshold.at_most(W::decimal(1, 0))) {
        return Err(PreflopError::AllinThreshold);
    }
    if !fit_sizes(&cfg.open_raises, cfg.stack) {
        return Err(PreflopError::OpenRaises);
    }
    if !fit_mults(&cfg.raise_mults) {
        return Err(PreflopError::RaiseMults);
    }
    let mut k: usize = 0;
    let ghost before = cfg.fault();
    while k < cfg.call_only_seats.len()
        invariant
            k <= cfg.call_only_seats@.len(),
            n == cfg.positions@.len(),
            before == cfg.fault(),
            (exists|j: int|
                0 <= j < cfg.call_only_seats@.len() && #[trigger] cfg.call_only_seats@[j] >= n)
                ==> before == Some(PreflopError::CallOnlySeats),
            forall|j: int| 0 <= j < k ==> #[trigger] cfg.call_only_seats@[j] < n,
        decreases cfg.call_only_seats@.len() - k,
    {
        if cfg.call_only_seats[k] >= n {
            assert(cfg.call_only_seats@[k as int] >= n);
            return Err(PreflopError::CallOnlySeats);
        }
        k = k + 1;
    }
    if !fit_lists(&cfg.open_raises_by_seat, n, Some(cfg.stack)) {
        return Err(PreflopError::OpenRaisesBySeat);
    }
    if !fit_lists(&cfg.raise_mults_by_seat, n, None) {
        return Err(PreflopError::RaiseMultsBySeat);
    }
    if cfg.stack.at_most(biggest_post(&cfg.posts)) {
        return Err(PreflopError::SmallStack);
    }
    if !cfg.has_opening() && !cfg.limp && !cfg.add_allin {
        return Err(PreflopError::NoOpening);
    }
    Ok(n)
}

// ---------------------------------------------------------------------------
// Copies
// ---------------------------------------------------------------------------

/// Whether two lists name the same.
pub open spec fn same_names(a: Seq<String>, b: Seq<String>) -> bool {
    a.len() == b.len() && forall|i: int| 0 <= i < a.len() ==> (#[trigger] a[i])@ == b[i]@
}

/// Whether two tables of sizes say the same, seat by seat.
pub open spec fn same_lists<W>(a: Option<Vec<Vec<W>>>, b: Option<Vec<Vec<W>>>) -> bool {
    match (a, b) {
        (Some(u), Some(v)) => u@.len() == v@.len() && forall|i: int|
            0 <= i < u@.len() ==> (#[trigger] u@[i])@ == v@[i]@,
        (None, None) => true,
        _ => false,
    }
}

/// Whether two games say the same.
pub open spec fn same_game<W>(a: PreflopConfig<W>, b: PreflopConfig<W>) -> bool {
    &&& same_names(a.positions@, b.positions@)
    &&& a.stack == b.stack
    &&& a.posts@ == b.posts@
    &&& a.ante == b.ante
    &&& a.limp == b.limp
    &&& a.open_raises@ == b.open_raises@
    &&& a.raise_mults@ == b.raise_mults@
    &&& a.max_raises == b.max_raises
    &&& a.add_allin == b.add_allin
    &&& a.allin_threshold == b.allin_threshold
    &&& a.rake_pct == b.rake_pct
    &&& a.rake_cap == b.rake_cap
    &&& a.no_flop_no_drop == b.no_flop_no_drop
    &&& a.realization@ == b.realization@
    &&& a.call_only_seats@ == b.call_only_seats@
    &&& same_lists(a.open_raises_by_seat, b.open_raises_by_seat)
    &&& same_lists(a.raise_mults_by_seat, b.raise_mults_by_seat)
}

fn copy_names(names: &Vec<String>) -> (r: Vec<String>)
    ensures
        same_names(r@, names@),
{
    let mut out: Vec<String> = Vec::new();
    let mut i: usize = 0;
    while i < names.len()
        invariant
            i <= names@.len(),
            out@.len() == i,
            forall|k: int| 0 <= k < i ==> (#[trigger] out@[k])@ == names@[k]@,
        decreases names@.len() - i,
    {
        out.push(names[i].clone());
        i = i + 1;
    }
    out
}

fn copy_lists<W: Num>(lists: &Option<Vec<Vec<W>>>) -> (r: Option<Vec<Vec<W>>>)
    ensures
        same_lists(r, *lists),
{
    match lists {
        None => None,
        Some(v) => {
            let mut out: Vec<Vec<W>> = Vec::new();
            let mut i: usize = 0;
            while i < v.len()
                invariant
                    i <= v@.len(),
                    out@.len() == i,
                    forall|k: int| 0 <= k < i ==> (#[trigger] out@[k])@ == v@[k]@,
                decreases v@.len() - i,
            {
                out.push(copied(v[i].as_slice()));
                i = i + 1;
            }
            Some(out)
        },
    }
}

impl<W: Num> PreflopConfig<W> {
    /// A game that says the same.
    pub fn duplicate(&self) -> (r: Self)
        ensures
            same_game(r, *self),
    {
        PreflopConfig {
            positions: copy_names(&self.positions),
            stack: self.stack,
            posts: copied(self.posts.as_slice()),
            ante: self.ante,
            limp: self.limp,
            open_raises: copied(self.open_raises.as_slice()),
            raise_mults: copied(self.raise_mults.as_slice()),
            max_raises: self.max_raises,
            add_allin: self.add_allin,
            allin_threshold: self.allin_threshold,
            rake_pct: self.rake_pct,
            rake_cap: self.rake_cap,
            no_flop_no_drop: self.no_flop_no_drop,
            realization: self.realization.clone(),
            call_only_seats: copied(self.call_only_seats.as_slice()),
            open_raises_by_seat: copy_lists(&self.open_raises_by_seat),
            raise_mults_by_seat: copy_lists(&self.raise_mults_by_seat),
        }
    }
}

} // verus!
