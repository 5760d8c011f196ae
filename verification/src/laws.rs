//! The grid's general laws, each stated over the model that the public
//! contracts use (`contents`, `config`, `read_spec`, `render_spec`) and
//! proved for every input: what a read returns after a write, on a
//! never-written coordinate, after a removal, and what clearing leaves.
//! Tightness of the bounding box is `canvas::lemma_bounds_tight`.

use vstd::prelude::*;

use crate::canvas::DebugCanvas;
use crate::canvas::lemma_bounds_tight;

verus! {

/// Empty render: a grid that holds no cells — a freshly constructed one in
/// particular — renders to a zero-length block.
pub proof fn lemma_empty_render(g: DebugCanvas)
    requires
        g.is_empty_spec(),
    ensures
        g.render_spec() == Seq::<char>::empty(),
{
}

/// Read after write: whatever grid a write of `v` at `coord` produces reads
/// back exactly `v` at `coord`.
pub proof fn lemma_read_after_write(
    before: DebugCanvas,
    after: DebugCanvas,
    coord: (i64, i64),
    v: char,
)
    requires
        after.contents() == before.contents().insert((coord.0 as int, coord.1 as int), v),
    ensures
        after.read_spec(coord) == v,
{
}

/// Unoccupied default: a coordinate that holds no cell reads as the
/// configured filler character.
pub proof fn lemma_unoccupied_default(g: DebugCanvas, coord: (i64, i64))
    requires
        !g.contents().dom().contains((coord.0 as int, coord.1 as int)),
    ensures
        g.read_spec(coord) == g.config().filler,
{
}

/// Remove restores the default: whatever grid a removal at `coord` produces
/// no longer holds a cell there — also when a write at `coord` came just
/// before — so `coord` reads as the filler and, the box being tight over the
/// occupied coordinates, no longer contributes an extremum: when cells
/// remain, every extremum is attained by some remaining coordinate.
pub proof fn lemma_remove_restores_default(
    before: DebugCanvas,
    after: DebugCanvas,
    coord: (i64, i64),
)
    requires
        after.contents() == before.contents().remove((coord.0 as int, coord.1 as int)),
        after.config() == before.config(),
        after.wf(),
    ensures
        !after.contents().dom().contains((coord.0 as int, coord.1 as int)),
        after.read_spec(coord) == after.config().filler,
        !after.is_empty_spec() ==> exists|k: (int, int)| #[trigger]
            after.contents().dom().contains(k) && k.0 == after.row_min(),
        !after.is_empty_spec() ==> exists|k: (int, int)| #[trigger]
            after.contents().dom().contains(k) && k.0 == after.row_max(),
        !after.is_empty_spec() ==> exists|k: (int, int)| #[trigger]
            after.contents().dom().contains(k) && k.1 == after.col_min(),
        !after.is_empty_spec() ==> exists|k: (int, int)| #[trigger]
            after.contents().dom().contains(k) && k.1 == after.col_max(),
{
    lemma_bounds_tight(after);
}

/// Idempotent clear: a grid whose contents are empty — the state `clear`
/// leaves behind, however often it is repeated — reads the filler at every
/// coordinate and has zero-by-zero dimensions.
pub proof fn lemma_clear_reads_filler(g: DebugCanvas, coord: (i64, i64))
    requires
        g.contents() == Map::<(int, int), char>::empty(),
    ensures
        g.is_empty_spec(),
        g.read_spec(coord) == g.config().filler,
        g.nrows() == 0,
        g.ncols() == 0,
        g.render_spec() == Seq::<char>::empty(),
{
    assert(g.contents().dom() =~= Set::<(int, int)>::empty());
}

} // verus!
