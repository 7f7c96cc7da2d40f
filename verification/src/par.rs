//! Parallel per-tile translation passes.
//!
//! Both the extend and the move phase translate every live tile
//! independently, so the work is spread over rayon's thread pool, as the
//! engine's concurrency model allows for per-tile position updates.  The
//! closures only call the verified translation functions of `Tile`; what is
//! trusted is that rayon applies them to every slot exactly once.

use vstd::prelude::*;
use rayon::iter::IntoParallelRefMutIterator;
use rayon::iter::ParallelIterator;
use crate::lattice::CAP_MAX;
use crate::tile::Tile;

verus! {

/// One table slot after the extend phase's translation.
pub open spec fn shift_opt(o: Option<Tile>) -> Option<Tile> {
    match o {
        Some(t) => Some(t.shifted_spec()),
        None => None,
    }
}

/// One table slot after the move phase's translation.
pub open spec fn slide_opt(o: Option<Tile>) -> Option<Tile> {
    match o {
        Some(t) => Some(t.slid_spec()),
        None => None,
    }
}

/// Relies on rayon's `par_iter_mut().for_each(..)` over a `Vec`, which hands
/// the closure each slot exactly once; every live tile is shifted one cell
/// down and right by the verified `Tile::shifted`.
#[verifier::external_body]
pub(crate) fn par_shift_tiles(tiles: &mut Vec<Option<Tile>>)
    requires
        forall|k: int|
            0 <= k < old(tiles)@.len() && old(tiles)@[k] is Some ==> (#[trigger] old(
                tiles,
            )@[k])->Some_0.row < CAP_MAX && old(tiles)@[k]->Some_0.col < CAP_MAX,
    ensures
        final(tiles)@.len() == old(tiles)@.len(),
        forall|k: int|
            0 <= k < old(tiles)@.len() ==> #[trigger] final(tiles)@[k] == shift_opt(
                old(tiles)@[k],
            ),
{
    tiles.par_iter_mut().for_each(|slot| {
        if let Some(t) = slot {
            *t = t.shifted();
        }
    });
}

/// Relies on rayon's `par_iter_mut().for_each(..)` over a `Vec`, which hands
/// the closure each slot exactly once; every live tile moves one cell along
/// its direction by the verified `Tile::slid`.
#[verifier::external_body]
pub(crate) fn par_slide_tiles(tiles: &mut Vec<Option<Tile>>)
    requires
        forall|k: int|
            0 <= k < old(tiles)@.len() && old(tiles)@[k] is Some ==> (#[trigger] old(
                tiles,
            )@[k])->Some_0.slid_row() >= 0 && old(tiles)@[k]->Some_0.slid_col() >= 0 && old(
                tiles,
            )@[k]->Some_0.row < CAP_MAX && old(tiles)@[k]->Some_0.col < CAP_MAX,
    ensures
        final(tiles)@.len() == old(tiles)@.len(),
        forall|k: int|
            0 <= k < old(tiles)@.len() ==> #[trigger] final(tiles)@[k] == slide_opt(
                old(tiles)@[k],
            ),
{
    tiles.par_iter_mut().for_each(|slot| {
        if let Some(t) = slot {
            *t = t.slid();
        }
    });
}

} // verus!
