//! Vetting a save before it is loaded: everything that could make loading
//! fail, without the memory that loading takes.

use crate::budget;
use crate::budget::node_budget;
use crate::framing;
use crate::framing::{read_eight, SaveError};
use crate::game;
use crate::game::Spot;
use crate::num::{Num, Single};
use crate::save;
use crate::save::{validate_locks, LoadError, SaveHeader};
use crate::store::Storage;
use crate::tree::Strictness;
use vstd::prelude::*;

verus! {

/// Whether the sections from the `k`-th on stand where they should, the first
/// of them at `at`: each is preceded by its length, and the last ends within
/// the file.
pub open spec fn sections_fault(body: Seq<u8>, sizes: [u64; 2], k: int, at: int) -> Option<
    SaveError,
>
    decreases 4 - k,
{
    let size = sizes[k % 2];
    if k >= 4 {
        if at > body.len() {
            Some(SaveError::Truncated)
        } else {
            None
        }
    } else if at + 8 > body.len() {
        Some(SaveError::Truncated)
    } else if framing::le_value(body.subrange(at, at + 8)) != size {
        Some(
            SaveError::ArenaSize {
                file: framing::le_value(body.subrange(at, at + 8)) as u64,
                expected: size,
            },
        )
    } else {
        sections_fault(body, sizes, k + 1, at + 8 + 4 * size)
    }
}

/// [`sections_fault`], computed from the file's start.
pub fn vet_sections(body: &[u8], sizes: [u64; 2]) -> (r: Result<(), SaveError>)
    ensures
        match r {
            Ok(_) => sections_fault(body@, sizes, 0, 0) is None,
            Err(e) => sections_fault(body@, sizes, 0, 0) == Some(e),
        },
{
    let room: usize = body.len();
    let len: u128 = room as u128;
    let mut at: u128 = 0;
    let mut k: usize = 0;
    while k < 4
        invariant
            k <= 4,
            len == room == body@.len(),
            at <= k * 0x8_0000_0000_0000_0000,
            sections_fault(body@, sizes, 0, 0) == sections_fault(body@, sizes, k as int, at as int),
        decreases 4 - k,
    {
        let size: u64 = sizes[k % 2];
        if at + 8 > len {
            return Err(SaveError::Truncated);
        }
        let file: u64 = read_eight(body, at as usize);
        if file != size {
            return Err(SaveError::ArenaSize { file, expected: size });
        }
        at = at + 8 + 4 * size as u128;
        k = k + 1;
    }
    if at > len {
        return Err(SaveError::Truncated);
    }
    Ok(())
}

/// Law: a save is vetted as it is loaded: where the arenas can be read the
/// sections are in order, and where they cannot the vetting finds the same
/// fault.
pub proof fn law_vetting_agrees_with_loading(body: Seq<u8>, sizes: [u64; 2])
    ensures
        match save::arenas_read(body, sizes[0] as int, sizes[1] as int) {
            Ok(_) => sections_fault(body, sizes, 0, 0) is None,
            Err(e) => sections_fault(body, sizes, 0, 0) == Some(e),
        },
{
    reveal_with_fuel(sections_fault, 5);
    let d0 = sizes[0] as int;
    let d1 = sizes[1] as int;
    match framing::arena_read(body, 0, d0) {
        Err(_) => {},
        Ok((_, p)) => match framing::arena_read(body, p, d1) {
            Err(_) => {},
            Ok((_, q)) => match framing::arena_read(body, q, d0) {
                Err(_) => {},
                Ok((_, s)) => {},
            },
        },
    }
}

/// What vetting a save finds.
pub open spec fn vetted<S: Single>(
    header: SaveHeader<S>,
    body: Seq<u8>,
    nodes: usize,
    r: Result<Spot<S::Wide, S>, LoadError<S>>,
) -> bool {
    let fault = game::spot_fault::<S::Wide, S>(
        header.config,
        Some(nodes),
        Strictness::LenientLoad,
    );
    match r {
        Ok(spot) => {
            &&& fault is None
            &&& spot.wf()
            &&& spot.config == header.config
            &&& spot.describes(Some(nodes), Strictness::LenientLoad)
            &&& save::locks_fault(spot, header.locks@, 0) is None
            &&& sections_fault(body, spot.tree.data_size, 0, 0) is None
        },
        Err(LoadError::Spot { error }) => fault == Some(error.fault()),
        Err(LoadError::Lock { error }) => fault is None && exists|spot: Spot<S::Wide, S>|
            {
                &&& spot.config == header.config
                &&& spot.describes(Some(nodes), Strictness::LenientLoad)
                &&& #[trigger] save::locks_fault(spot, header.locks@, 0) == Some(error)
            },
        Err(LoadError::File { error }) => fault is None && exists|spot: Spot<S::Wide, S>|
            {
                &&& spot.config == header.config
                &&& spot.describes(Some(nodes), Strictness::LenientLoad)
                &&& #[trigger] save::locks_fault(spot, header.locks@, 0) is None
                &&& sections_fault(body, spot.tree.data_size, 0, 0) == Some(error)
            },
        Err(LoadError::TooLarge) => false,
    }
}

/// Rebuilds a save's spot within the node budget of the memory cap, and
/// checks its locks and its sections; `body` is what follows the header line.
pub fn peek_save<S: Single + Send + Sync>(
    header: SaveHeader<S>,
    body: &[u8],
    cap_mb: S::Wide,
    storage: Storage,
) -> (r: Result<Spot<S::Wide, S>, LoadError<S>>)
    ensures
        exists|nodes: usize|
            {
                &&& nodes == if budget::nodes_worth::<S>(cap_mb, header.config, storage)
                    > usize::MAX {
                    usize::MAX as int
                } else {
                    budget::nodes_worth::<S>(cap_mb, header.config, storage)
                }
                &&& #[trigger] vetted(header, body@, nodes, r)
            },
{
    let nodes = node_budget::<S>(cap_mb, &header.config, storage);
    let ghost h = header;
    let SaveHeader { config, iteration: _, locks, lock_labels: _ } = header;
    let spot: Spot<S::Wide, S> = match Spot::new_lenient_with_limit(config, Some(nodes)) {
        Ok(spot) => spot,
        Err(error) => {
            let r: Result<Spot<S::Wide, S>, LoadError<S>> = Err(LoadError::Spot { error });
            assert(vetted(h, body@, nodes, r));
            return r;
        },
    };
    match validate_locks(&spot, locks.as_slice()) {
        Ok(_) => {},
        Err(error) => {
            assert(save::locks_fault(spot, h.locks@, 0) == Some(error));
            let r: Result<Spot<S::Wide, S>, LoadError<S>> = Err(LoadError::Lock { error });
            assert(vetted(h, body@, nodes, r));
            return r;
        },
    }
    match vet_sections(body, spot.tree.data_size) {
        Ok(_) => {},
        Err(error) => {
            assert(save::locks_fault(spot, h.locks@, 0) is None);
            let r: Result<Spot<S::Wide, S>, LoadError<S>> = Err(LoadError::File { error });
            assert(vetted(h, body@, nodes, r));
            return r;
        },
    }
    let r: Result<Spot<S::Wide, S>, LoadError<S>> = Ok(spot);
    assert(vetted(h, body@, nodes, r));
    r
}

} // verus!
