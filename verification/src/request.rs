//! A spot as users type it in, and the configuration it stands for.

use crate::game::SpotConfig;
use crate::num::Num;
use crate::sizing;
use crate::sizing::{parse_sizes, sizes_to_string, SizeError, SizeFault};
use crate::tree::{BetSize, StreetSizing, TreeConfig};
use vstd::prelude::*;

verus! {

/// The bet sizes of one street, as text.
pub struct SizesRequest {
    pub bet: String,
    pub raise: String,
    pub donk: String,
}

/// A spot as it is typed in. Rake and all-in threshold are in percent.
pub struct SpotRequest<N> {
    pub board: String,
    pub range_oop: String,
    pub range_ip: String,
    pub starting_pot: N,
    pub effective_stack: N,
    pub rake_pct: N,
    pub rake_cap: N,
    pub allin_threshold: N,
    pub add_allin: bool,
    pub max_raises: u8,
    /// Flop, turn and river.
    pub oop: Vec<SizesRequest>,
    pub ip: Vec<SizesRequest>,
}

/// The all-in threshold of a spot that names none, in percent.
pub fn default_allin_threshold<N: Num>() -> (r: N)
    ensures
        r == N::decimal_spec(85, 0),
{
    N::decimal(85, 0)
}

/// The raise cap of a spot that names none.
pub fn default_max_raises() -> (r: u8)
    ensures
        r == 10,
{
    10
}

/// Why sizes cannot be read.
#[allow(inconsistent_fields)]
pub enum SizingError {
    /// There is not one entry per street.
    Streets,
    Size(SizeError),
}

/// A [`SizingError`] as a mathematical value.
pub ghost enum SizingFault {
    Streets,
    Size(SizeFault, Seq<char>),
}

impl View for SizingError {
    type V = SizingFault;

    open spec fn view(&self) -> SizingFault {
        match self {
            SizingError::Streets => SizingFault::Streets,
            SizingError::Size(e) => SizingFault::Size(e.fault, e.token@),
        }
    }
}

/// The sizes that a text lists.
pub open spec fn listed<N: Num>(text: Seq<char>) -> sizing::Read<Seq<BetSize<N>>> {
    sizing::sizes_named(Seq::<BetSize<N>>::empty(), text)
}

/// The first list of a street that cannot be read.
pub open spec fn street_fault<N: Num>(s: SizesRequest) -> Option<SizingFault> {
    if listed::<N>(s.bet@) is Err {
        let (fault, token) = listed::<N>(s.bet@)->Err_0;
        Some(SizingFault::Size(fault, token))
    } else if listed::<N>(s.raise@) is Err {
        let (fault, token) = listed::<N>(s.raise@)->Err_0;
        Some(SizingFault::Size(fault, token))
    } else if listed::<N>(s.donk@) is Err {
        let (fault, token) = listed::<N>(s.donk@)->Err_0;
        Some(SizingFault::Size(fault, token))
    } else {
        None
    }
}

/// Whether a street's sizes are those that its texts list.
pub open spec fn street_reads<N: Num>(s: SizesRequest, r: StreetSizing<N>) -> bool {
    &&& listed::<N>(s.bet@) == Ok::<Seq<BetSize<N>>, (SizeFault, Seq<char>)>(r.bet@)
    &&& listed::<N>(s.raise@) == Ok::<Seq<BetSize<N>>, (SizeFault, Seq<char>)>(r.raise@)
    &&& listed::<N>(s.donk@) == Ok::<Seq<BetSize<N>>, (SizeFault, Seq<char>)>(r.donk@)
}

/// What is wrong with the sizes of a player, if anything is.
pub open spec fn sizing_fault<N: Num>(streets: Seq<SizesRequest>) -> Option<SizingFault> {
    if streets.len() != 3 {
        Some(SizingFault::Streets)
    } else if street_fault::<N>(streets[0]) is Some {
        street_fault::<N>(streets[0])
    } else if street_fault::<N>(streets[1]) is Some {
        street_fault::<N>(streets[1])
    } else {
        street_fault::<N>(streets[2])
    }
}

fn convert_street<N: Num>(s: &SizesRequest) -> (r: Result<StreetSizing<N>, SizeError>)
    ensures
        match r {
            Ok(sizes) => street_fault::<N>(*s) is None && street_reads(*s, sizes),
            Err(e) => street_fault::<N>(*s) == Some(SizingFault::Size(e.fault, e.token@)),
        },
{
    let bet = match parse_sizes(s.bet.as_str()) {
        Ok(v) => v,
        Err(e) => {
            return Err(e);
        },
    };
    let raise = match parse_sizes(s.raise.as_str()) {
        Ok(v) => v,
        Err(e) => {
            return Err(e);
        },
    };
    let donk = match parse_sizes(s.donk.as_str()) {
        Ok(v) => v,
        Err(e) => {
            return Err(e);
        },
    };
    Ok(StreetSizing { bet, raise, donk })
}

/// A player's sizes, street by street.
pub fn convert_sizing<N: Num>(streets: &[SizesRequest]) -> (r: Result<
    [StreetSizing<N>; 3],
    SizingError,
>)
    ensures
        match r {
            Ok(sizes) => sizing_fault::<N>(streets@) is None && forall|i: int|
                0 <= i < 3 ==> street_reads(streets@[i], #[trigger] sizes[i]),
            Err(e) => sizing_fault::<N>(streets@) == Some(e@),
        },
{
    if streets.len() != 3 {
        return Err(SizingError::Streets);
    }
    let a = match convert_street(&streets[0]) {
        Ok(x) => x,
        Err(e) => {
            return Err(SizingError::Size(e));
        },
    };
    let b = match convert_street(&streets[1]) {
        Ok(x) => x,
        Err(e) => {
            return Err(SizingError::Size(e));
        },
    };
    let c = match convert_street(&streets[2]) {
        Ok(x) => x,
        Err(e) => {
            return Err(SizingError::Size(e));
        },
    };
    Ok([a, b, c])
}

impl<N: Num> SpotRequest<N> {
    /// Whether a configuration is the one that a request stands for.
    pub open spec fn stands_for(&self, c: SpotConfig<N>) -> bool {
        let hundred = N::decimal_spec(100, 0);
        &&& c.board@ == self.board@
        &&& c.range_oop@ == self.range_oop@
        &&& c.range_ip@ == self.range_ip@
        &&& c.tree.starting_pot == self.starting_pot
        &&& c.tree.effective_stack == self.effective_stack
        &&& c.tree.rake_pct == self.rake_pct.over_spec(hundred)
        &&& c.tree.rake_cap == self.rake_cap
        &&& c.tree.allin_threshold == self.allin_threshold.over_spec(hundred)
        &&& c.tree.add_allin == self.add_allin
        &&& c.tree.max_raises == self.max_raises
        &&& forall|i: int| 0 <= i < 3 ==> street_reads(self.oop@[i], #[trigger] c.tree.oop[i])
        &&& forall|i: int| 0 <= i < 3 ==> street_reads(self.ip@[i], #[trigger] c.tree.ip[i])
    }

    /// The configuration that a request stands for.
    pub fn to_spot_config(&self) -> (r: Result<SpotConfig<N>, SizingError>)
        ensures
            match r {
                Ok(c) => {
                    &&& sizing_fault::<N>(self.oop@) is None
                    &&& sizing_fault::<N>(self.ip@) is None
                    &&& self.stands_for(c)
                },
                Err(e) => Some(e@) == if sizing_fault::<N>(self.oop@) is Some {
                    sizing_fault::<N>(self.oop@)
                } else {
                    sizing_fault::<N>(self.ip@)
                },
            },
    {
        let oop = match convert_sizing(self.oop.as_slice()) {
            Ok(x) => x,
            Err(e) => {
                return Err(e);
            },
        };
        let ip = match convert_sizing(self.ip.as_slice()) {
            Ok(x) => x,
            Err(e) => {
                return Err(e);
            },
        };
        let hundred = N::decimal(100, 0);
        Ok(
            SpotConfig {
                board: self.board.clone(),
                range_oop: self.range_oop.clone(),
                range_ip: self.range_ip.clone(),
                tree: TreeConfig {
                    starting_pot: self.starting_pot,
                    effective_stack: self.effective_stack,
                    rake_pct: self.rake_pct.over(hundred),
                    rake_cap: self.rake_cap,
                    oop,
                    ip,
                    allin_threshold: self.allin_threshold.over(hundred),
                    add_allin: self.add_allin,
                    max_raises: self.max_raises,
                },
            },
        )
    }
}

/// Whether a street's texts write out its sizes.
pub open spec fn street_written<N: Num>(s: StreetSizing<N>, r: SizesRequest) -> bool {
    &&& r.bet@ == sizing::sizes_text(s.bet@)
    &&& r.raise@ == sizing::sizes_text(s.raise@)
    &&& r.donk@ == sizing::sizes_text(s.donk@)
}

fn write_street<N: Num>(s: &StreetSizing<N>) -> (r: SizesRequest)
    ensures
        street_written(*s, r),
{
    SizesRequest {
        bet: sizes_to_string(s.bet.as_slice()),
        raise: sizes_to_string(s.raise.as_slice()),
        donk: sizes_to_string(s.donk.as_slice()),
    }
}

fn write_sizing<N: Num>(s: &[StreetSizing<N>; 3]) -> (r: Vec<SizesRequest>)
    ensures
        r@.len() == 3,
        forall|i: int| 0 <= i < 3 ==> street_written(s[i], #[trigger] r@[i]),
{
    let mut out: Vec<SizesRequest> = Vec::new();
    out.push(write_street(&s[0]));
    out.push(write_street(&s[1]));
    out.push(write_street(&s[2]));
    out
}

/// Whether a request is the one that a configuration is written as.
pub open spec fn spot_written<N: Num>(config: SpotConfig<N>, r: SpotRequest<N>) -> bool {
    &&& r.board@ == config.board@
    &&& r.range_oop@ == config.range_oop@
    &&& r.range_ip@ == config.range_ip@
    &&& r.starting_pot == config.tree.starting_pot
    &&& r.effective_stack == config.tree.effective_stack
    &&& r.rake_pct == config.tree.rake_pct.times_spec(N::decimal_spec(100, 0))
    &&& r.rake_cap == config.tree.rake_cap
    &&& r.allin_threshold == config.tree.allin_threshold.times_spec(N::decimal_spec(100, 0))
    &&& r.add_allin == config.tree.add_allin
    &&& r.max_raises == config.tree.max_raises
    &&& r.oop@.len() == 3
    &&& r.ip@.len() == 3
    &&& forall|i: int| 0 <= i < 3 ==> street_written(config.tree.oop[i], #[trigger] r.oop@[i])
    &&& forall|i: int| 0 <= i < 3 ==> street_written(config.tree.ip[i], #[trigger] r.ip@[i])
}

/// The request that stands for a configuration.
pub fn spot_request_from_config<N: Num>(config: &SpotConfig<N>) -> (r: SpotRequest<N>)
    ensures
        spot_written(*config, r),
{
    let t = &config.tree;
    let hundred = N::decimal(100, 0);
    SpotRequest {
        board: config.board.clone(),
        range_oop: config.range_oop.clone(),
        range_ip: config.range_ip.clone(),
        starting_pot: t.starting_pot,
        effective_stack: t.effective_stack,
        rake_pct: t.rake_pct.times(hundred),
        rake_cap: t.rake_cap,
        allin_threshold: t.allin_threshold.times(hundred),
        add_allin: t.add_allin,
        max_raises: t.max_raises,
        oop: write_sizing(&t.oop),
        ip: write_sizing(&t.ip),
    }
}

} // verus!
