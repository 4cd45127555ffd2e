//! The merge engine. On a drop interaction it validates and, when every
//! check passes, atomically commits the transfer of all occupants of a
//! source (piece) grid into a destination (package) grid; on any violation
//! it rejects with no storage change at all.

use crate::grid::{
    count_occupied, lemma_count_all_empty, lemma_count_occupied_update, Grid, GridRegistry,
};
use crate::pattern::lemma_row_major_index_in_range;
use vstd::arithmetic::div_mod::{lemma_fundamental_div_mod, lemma_mod_bound};
use vstd::prelude::*;

verus! {

/// Why a merge did not commit. Every reject leaves both storages exactly as
/// they were.
#[derive(Clone, Copy, Debug, PartialEq, Eq, Structural)]
pub enum MergeError {
    /// The drop event's two identifiers did not resolve to two distinct
    /// live grids playing the piece and package roles.
    IdentityResolutionFailure,
    /// The drop point could not be mapped to a tile of both grids.
    UnresolvableDropPoint,
    /// Some translated source cell lands outside the destination bounds.
    OutOfBoundsMerge,
    /// An occupied source cell lands on an occupied destination cell that
    /// the destination pattern wants filled.
    OverlapRejected,
}

/// One occupant relocation performed by a committed merge. The application
/// applies each move to the occupant's own record (owning grid, position,
/// previous position) via `Occupant::reassign`.
#[derive(Clone, Copy, Debug, PartialEq, Eq)]
pub struct OccupantMove {
    pub occupant: u64,
    pub source: (u32, u32),
    pub dest: (u32, u32),
}

/// Horizontal shift that carries the source tile under the drop point onto
/// the destination tile under it.
pub open spec fn delta_x(st: (u32, u32), dt: (u32, u32)) -> int {
    dt.0 - st.0
}

/// Vertical shift between the two tiles under the drop point.
pub open spec fn delta_y(st: (u32, u32), dt: (u32, u32)) -> int {
    dt.1 - st.1
}

/// The check one source cell (x, y) undergoes during validation: its
/// translation must stay inside the destination, and an occupied source
/// cell must not land on an occupied destination cell that the destination
/// pattern marks as wanted.
pub open spec fn cell_check(src: Grid, dst: Grid, x: int, y: int, dx: int, dy: int) -> Option<
    MergeError,
> {
    if !dst.in_bounds(x + dx, y + dy) {
        Some(MergeError::OutOfBoundsMerge)
    } else if src.occ_at(x, y) is Some && dst.occ_at(x + dx, y + dy) is Some
        && dst.spec_pattern().unwrap().spec_at(x + dx, y + dy) {
        Some(MergeError::OverlapRejected)
    } else {
        None
    }
}

/// First violation among cells (0, y) .. (m - 1, y) of row y, left to right.
pub open spec fn row_violation(src: Grid, dst: Grid, y: int, dx: int, dy: int, m: int) -> Option<
    MergeError,
>
    decreases m,
{
    if m <= 0 {
        None
    } else {
        match row_violation(src, dst, y, dx, dy, m - 1) {
            Some(e) => Some(e),
            None => cell_check(src, dst, m - 1, y, dx, dy),
        }
    }
}

/// First violation among the first n full rows, top to bottom.
pub open spec fn rows_violation(src: Grid, dst: Grid, dx: int, dy: int, n: int) -> Option<
    MergeError,
>
    decreases n,
{
    if n <= 0 {
        None
    } else {
        match rows_violation(src, dst, dx, dy, n - 1) {
            Some(e) => Some(e),
            None => row_violation(src, dst, n - 1, dx, dy, src.spec_width() as int),
        }
    }
}

/// First violation over the source's full bounding rectangle, in row-major
/// order; `None` when the merge may commit.
pub open spec fn validation(src: Grid, dst: Grid, dx: int, dy: int) -> Option<MergeError> {
    rows_violation(src, dst, dx, dy, src.spec_height() as int)
}

/// The occupant of destination cell (qx, qy) after a committed merge:
/// a translated occupied source cell wins over whatever was there.
pub open spec fn merged_occ_at(olds: Grid, oldd: Grid, dx: int, dy: int, qx: int, qy: int) -> Option<
    u64,
> {
    if olds.in_bounds(qx - dx, qy - dy) && olds.occ_at(qx - dx, qy - dy) is Some {
        olds.occ_at(qx - dx, qy - dy)
    } else {
        oldd.occ_at(qx, qy)
    }
}

/// No occupied source cell lands on an already occupied destination cell.
/// Under this condition a committed merge moves every occupant onto an
/// empty cell, so the destination count grows by exactly the source count.
pub open spec fn collision_free(olds: Grid, oldd: Grid, dx: int, dy: int) -> bool {
    forall|x: int, y: int|
        olds.in_bounds(x, y) && #[trigger] olds.occ_at(x, y) is Some ==> oldd.occ_at(
            x + dx,
            y + dy,
        ) is None
}

/// Everything a committed merge guarantees about the two grids after the
/// commit and about the reported move list, relative to their states before.
pub open spec fn commit_describes(
    olds: Grid,
    oldd: Grid,
    st: (u32, u32),
    dt: (u32, u32),
    news: Grid,
    newd: Grid,
    moves: Seq<OccupantMove>,
) -> bool {
    let dx = delta_x(st, dt);
    let dy = delta_y(st, dt);
    &&& news.same_shape(olds)
    &&& news.wf()
    &&& forall|x: int, y: int|
        olds.in_bounds(x, y) ==> #[trigger] news.occ_at(x, y) is None
    &&& news.occupant_count() == 0
    &&& newd.same_shape(oldd)
    &&& newd.wf()
    &&& forall|qx: int, qy: int|
        oldd.in_bounds(qx, qy) ==> #[trigger] newd.occ_at(qx, qy) == merged_occ_at(
            olds,
            oldd,
            dx,
            dy,
            qx,
            qy,
        )
    &&& moves.len() == olds.occupant_count()
    &&& forall|k: int|
        0 <= k < moves.len() ==> {
            let m = #[trigger] moves[k];
            &&& olds.in_bounds(m.source.0 as int, m.source.1 as int)
            &&& olds.occ_at(m.source.0 as int, m.source.1 as int) == Some(m.occupant)
            &&& m.dest.0 == m.source.0 + dx
            &&& m.dest.1 == m.source.1 + dy
            &&& oldd.in_bounds(m.dest.0 as int, m.dest.1 as int)
        }
    &&& forall|x: int, y: int|
        olds.in_bounds(x, y) && #[trigger] olds.occ_at(x, y) is Some ==> exists|k: int|
            0 <= k < moves.len() && (#[trigger] moves[k].source) == (x as u32, y as u32)
    &&& forall|k1: int, k2: int|
        0 <= k1 < k2 < moves.len() ==> ((#[trigger] moves[k1]).source.1 < (
        #[trigger] moves[k2]).source.1 || (moves[k1].source.1 == moves[k2].source.1
            && moves[k1].source.0 < moves[k2].source.0))
    &&& (collision_free(olds, oldd, dx, dy) ==> newd.occupant_count() == oldd.occupant_count()
        + olds.occupant_count())
}

/// Some grid of the sequence carries this identifier.
pub open spec fn has_id(grids: Seq<Grid>, id: u64) -> bool {
    exists|i: int| 0 <= i < grids.len() && (#[trigger] grids[i]).spec_id() == id
}

/// The index of the grid carrying this identifier (unique in a well-formed
/// registry).
pub open spec fn idx_of(grids: Seq<Grid>, id: u64) -> int {
    choose|i: int| 0 <= i < grids.len() && (#[trigger] grids[i]).spec_id() == id
}

/// A drop event's two identifiers resolve: both name live grids, the two
/// grids are distinct, the source plays the piece role and the destination
/// the package role.
pub open spec fn resolves(grids: Seq<Grid>, source_id: u64, destination_id: u64) -> bool {
    &&& source_id != destination_id
    &&& has_id(grids, source_id)
    &&& has_id(grids, destination_id)
    &&& grids[idx_of(grids, source_id)].spec_role() is Piece
    &&& grids[idx_of(grids, destination_id)].spec_role() is Package
}

/// The drop point mapped onto a tile of this grid, inside its extent.
pub open spec fn tile_resolved(g: Grid, t: Option<(u32, u32)>) -> bool {
    t is Some && g.in_bounds(t.unwrap().0 as int, t.unwrap().1 as int)
}

/// The exact outcome of a drop: which error a merge reports, or that it
/// commits, as a function of the registry state and the two mapped tiles.
pub open spec fn drop_outcome(
    grids: Seq<Grid>,
    source_id: u64,
    destination_id: u64,
    src_tile: Option<(u32, u32)>,
    dst_tile: Option<(u32, u32)>,
) -> Result<(), MergeError> {
    if !resolves(grids, source_id, destination_id) {
        Err(MergeError::IdentityResolutionFailure)
    } else {
        let src = grids[idx_of(grids, source_id)];
        let dst = grids[idx_of(grids, destination_id)];
        if !(tile_resolved(src, src_tile) && tile_resolved(dst, dst_tile)) {
            Err(MergeError::UnresolvableDropPoint)
        } else {
            let st = src_tile.unwrap();
            let dt = dst_tile.unwrap();
            match validation(src, dst, delta_x(st, dt), delta_y(st, dt)) {
                Some(e) => Err(e),
                None => Ok(()),
            }
        }
    }
}

/// A row scan that has found a violation keeps it when extended.
proof fn lemma_row_violation_extend(
    src: Grid,
    dst: Grid,
    y: int,
    dx: int,
    dy: int,
    m1: int,
    m2: int,
)
    requires
        0 <= m1 <= m2,
        row_violation(src, dst, y, dx, dy, m1) is Some,
    ensures
        row_violation(src, dst, y, dx, dy, m2) == row_violation(src, dst, y, dx, dy, m1),
    decreases m2,
{
    if m2 > m1 {
        lemma_row_violation_extend(src, dst, y, dx, dy, m1, m2 - 1);
    }
}

/// A rectangle scan that has found a violation keeps it when extended.
proof fn lemma_rows_violation_extend(src: Grid, dst: Grid, dx: int, dy: int, n1: int, n2: int)
    requires
        0 <= n1 <= n2,
        rows_violation(src, dst, dx, dy, n1) is Some,
    ensures
        rows_violation(src, dst, dx, dy, n2) == rows_violation(src, dst, dx, dy, n1),
    decreases n2,
{
    if n2 > n1 {
        lemma_rows_violation_extend(src, dst, dx, dy, n1, n2 - 1);
    }
}

/// A clean row scan means every scanned cell passed its check.
proof fn lemma_row_violation_none(src: Grid, dst: Grid, y: int, dx: int, dy: int, m: int)
    requires
        row_violation(src, dst, y, dx, dy, m) is None,
    ensures
        forall|x: int| 0 <= x < m ==> #[trigger] cell_check(src, dst, x, y, dx, dy) is None,
    decreases m,
{
    if m > 0 {
        lemma_row_violation_none(src, dst, y, dx, dy, m - 1);
    }
}

/// A clean rectangle scan means every cell of the scanned rows passed.
proof fn lemma_rows_violation_none(src: Grid, dst: Grid, dx: int, dy: int, n: int)
    requires
        rows_violation(src, dst, dx, dy, n) is None,
    ensures
        forall|x: int, y: int|
            0 <= y < n && 0 <= x < src.spec_width() ==> #[trigger] cell_check(
                src,
                dst,
                x,
                y,
                dx,
                dy,
            ) is None,
    decreases n,
{
    if n > 0 {
        lemma_rows_violation_none(src, dst, dx, dy, n - 1);
        lemma_row_violation_none(src, dst, n - 1, dx, dy, src.spec_width() as int);
    }
}

/// Row-major flattening is injective on in-bounds coordinates.
proof fn lemma_row_major_injective(w: int, x1: int, y1: int, x2: int, y2: int)
    requires
        0 <= x1 < w,
        0 <= x2 < w,
        y1 * w + x1 == y2 * w + x2,
    ensures
        x1 == x2 && y1 == y2,
{
    assert(x1 == x2 && y1 == y2) by (nonlinear_arith)
        requires
            0 <= x1 < w,
            0 <= x2 < w,
            y1 * w + x1 == y2 * w + x2,
    ;
}

/// A grid whose every cell is empty holds no occupants.
proof fn lemma_grid_empty_count(g: Grid)
    requires
        g.wf(),
        forall|x: int, y: int| g.in_bounds(x, y) ==> #[trigger] g.occ_at(x, y) is None,
    ensures
        g.occupant_count() == 0,
{
    let w = g.spec_width() as int;
    let h = g.spec_height() as int;
    assert forall|i: int| 0 <= i < g.storage().len() implies g.storage()[i] is None by {
        assert(w * h > 0);
        assert(w > 0 && h > 0) by (nonlinear_arith)
            requires
                w * h > 0,
                w >= 0,
                h >= 0,
        ;
        lemma_fundamental_div_mod(i, w);
        lemma_mod_bound(i, w);
        let x = i % w;
        let y = i / w;
        assert(0 <= y < h) by (nonlinear_arith)
            requires
                i == w * y + x,
                0 <= x < w,
                0 <= i < w * h,
        ;
        assert(y * w + x == i) by (nonlinear_arith)
            requires
                i == w * y + x,
        ;
        assert(g.occ_at(x, y) is None);
        assert(g.storage()[y * w + x] is None);
    }
    lemma_count_all_empty(g.storage());
}

/// A cell already handled by the commit pass, which walks the source
/// rectangle in row-major order and currently stands at column x of row y.
pub open spec fn processed(px: int, py: int, x: int, y: int) -> bool {
    py < y || (py == y && px < x)
}

/// Validates and, when every check passes, commits the merge of the source
/// grid's occupants into the destination grid. The two mapped tiles define
/// the translation; validation covers the source's full bounding rectangle
/// and any single violation rejects the whole merge with both grids
/// untouched. On commit, every occupied source cell moves to its translated
/// destination cell and the returned list reports each move in row-major
/// source order.
pub fn merge_cells(src: &mut Grid, dst: &mut Grid, st: (u32, u32), dt: (u32, u32)) -> (r: Result<
    Vec<OccupantMove>,
    MergeError,
>)
    requires
        old(src).wf(),
        old(dst).wf(),
        old(dst).spec_pattern() is Some,
        old(src).in_bounds(st.0 as int, st.1 as int),
        old(dst).in_bounds(dt.0 as int, dt.1 as int),
    ensures
        match r {
            Err(e) => *final(src) == *old(src) && *final(dst) == *old(dst) && validation(
                *old(src),
                *old(dst),
                delta_x(st, dt),
                delta_y(st, dt),
            ) == Some(e),
            Ok(moves) => validation(*old(src), *old(dst), delta_x(st, dt), delta_y(st, dt))
                is None && commit_describes(
                *old(src),
                *old(dst),
                st,
                dt,
                *final(src),
                *final(dst),
                moves@,
            ),
        },
{
    let ghost olds = *old(src);
    let ghost oldd = *old(dst);
    let sw = src.width();
    let sh = src.height();
    let dw = dst.width();
    let dh = dst.height();
    let dx: i64 = (dt.0 as i64) - (st.0 as i64);
    let dy: i64 = (dt.1 as i64) - (st.1 as i64);
    let ghost gdx = delta_x(st, dt);
    let ghost gdy = delta_y(st, dt);

    // Validation pass: scan the full source rectangle; any violation
    // rejects before anything has been touched.
    let mut y: u32 = 0;
    while y < sh
        invariant
            y <= sh,
            olds == *old(src),
            oldd == *old(dst),
            *src == olds,
            *dst == oldd,
            olds.wf(),
            oldd.wf(),
            oldd.spec_pattern() is Some,
            sw == olds.spec_width(),
            sh == olds.spec_height(),
            dw == oldd.spec_width(),
            dh == oldd.spec_height(),
            dx == gdx,
            dy == gdy,
            gdx == delta_x(st, dt),
            gdy == delta_y(st, dt),
            rows_violation(olds, oldd, gdx, gdy, y as int) is None,
        decreases sh - y,
    {
        let mut x: u32 = 0;
        while x < sw
            invariant
                x <= sw,
                y < sh,
                olds == *old(src),
                oldd == *old(dst),
                *src == olds,
                *dst == oldd,
                olds.wf(),
                oldd.wf(),
                oldd.spec_pattern() is Some,
                sw == olds.spec_width(),
                sh == olds.spec_height(),
                dw == oldd.spec_width(),
                dh == oldd.spec_height(),
                dx == gdx,
                dy == gdy,
                gdx == delta_x(st, dt),
                gdy == delta_y(st, dt),
                rows_violation(olds, oldd, gdx, gdy, y as int) is None,
                row_violation(olds, oldd, y as int, gdx, gdy, x as int) is None,
            decreases sw - x,
        {
            let tx: i64 = (x as i64) + dx;
            let ty: i64 = (y as i64) + dy;
            if tx < 0 || tx >= (dw as i64) || ty < 0 || ty >= (dh as i64) {
                proof {
                    assert(cell_check(olds, oldd, x as int, y as int, gdx, gdy) == Some(
                        MergeError::OutOfBoundsMerge,
                    ));
                    assert(row_violation(olds, oldd, y as int, gdx, gdy, x + 1) == Some(
                        MergeError::OutOfBoundsMerge,
                    ));
                    lemma_row_violation_extend(olds, oldd, y as int, gdx, gdy, x + 1, sw as int);
                    assert(rows_violation(olds, oldd, gdx, gdy, y + 1) == Some(
                        MergeError::OutOfBoundsMerge,
                    ));
                    lemma_rows_violation_extend(olds, oldd, gdx, gdy, y + 1, sh as int);
                }
                return Err(MergeError::OutOfBoundsMerge);
            }
            let txu = tx as u32;
            let tyu = ty as u32;
            let source_occupied = src.get_occupant(x, y).is_some();
            let dest_occupied = dst.get_occupant(txu, tyu).is_some();
            let wanted = dst.pattern_at(txu, tyu);
            if source_occupied && dest_occupied && wanted {
                proof {
                    assert(cell_check(olds, oldd, x as int, y as int, gdx, gdy) == Some(
                        MergeError::OverlapRejected,
                    ));
                    assert(row_violation(olds, oldd, y as int, gdx, gdy, x + 1) == Some(
                        MergeError::OverlapRejected,
                    ));
                    lemma_row_violation_extend(olds, oldd, y as int, gdx, gdy, x + 1, sw as int);
                    assert(rows_violation(olds, oldd, gdx, gdy, y + 1) == Some(
                        MergeError::OverlapRejected,
                    ));
                    lemma_rows_violation_extend(olds, oldd, gdx, gdy, y + 1, sh as int);
                }
                return Err(MergeError::OverlapRejected);
            }
            proof {
                assert(cell_check(olds, oldd, x as int, y as int, gdx, gdy) is None);
                assert(row_violation(olds, oldd, y as int, gdx, gdy, x + 1) is None);
            }
            x += 1;
        }
        proof {
            assert(rows_violation(olds, oldd, gdx, gdy, y + 1) is None);
        }
        y += 1;
    }
    proof {
        assert(validation(olds, oldd, gdx, gdy) is None);
        lemma_rows_violation_none(olds, oldd, gdx, gdy, sh as int);
    }

    // Commit pass: move every occupied source cell to its translated
    // destination cell, in row-major order.
    let mut moves: Vec<OccupantMove> = Vec::new();
    let mut y: u32 = 0;
    while y < sh
        invariant
            y <= sh,
            olds.wf(),
            oldd.wf(),
            src.wf(),
            dst.wf(),
            src.same_shape(olds),
            dst.same_shape(oldd),
            sw == olds.spec_width(),
            sh == olds.spec_height(),
            dw == oldd.spec_width(),
            dh == oldd.spec_height(),
            dx == gdx,
            dy == gdy,
            gdx == delta_x(st, dt),
            gdy == delta_y(st, dt),
            olds == *old(src),
            oldd == *old(dst),
            validation(olds, oldd, gdx, gdy) is None,
            forall|x2: int, y2: int|
                0 <= y2 < sh && 0 <= x2 < sw ==> #[trigger] cell_check(
                    olds,
                    oldd,
                    x2,
                    y2,
                    gdx,
                    gdy,
                ) is None,
            forall|px: int, py: int|
                olds.in_bounds(px, py) ==> #[trigger] src.occ_at(px, py) == (if processed(
                    px,
                    py,
                    0,
                    y as int,
                ) {
                    None::<u64>
                } else {
                    olds.occ_at(px, py)
                }),
            forall|qx: int, qy: int|
                oldd.in_bounds(qx, qy) ==> #[trigger] dst.occ_at(qx, qy) == (if olds.in_bounds(
                    qx - gdx,
                    qy - gdy,
                ) && processed(qx - gdx, qy - gdy, 0, y as int) && olds.occ_at(
                    qx - gdx,
                    qy - gdy,
                ) is Some {
                    olds.occ_at(qx - gdx, qy - gdy)
                } else {
                    oldd.occ_at(qx, qy)
                }),
            count_occupied(src.storage()) + moves@.len() == count_occupied(olds.storage()),
            collision_free(olds, oldd, gdx, gdy) ==> count_occupied(dst.storage())
                == count_occupied(oldd.storage()) + moves@.len(),
            forall|k: int|
                0 <= k < moves@.len() ==> {
                    let m = #[trigger] moves@[k];
                    &&& olds.in_bounds(m.source.0 as int, m.source.1 as int)
                    &&& processed(m.source.0 as int, m.source.1 as int, 0, y as int)
                    &&& olds.occ_at(m.source.0 as int, m.source.1 as int) == Some(m.occupant)
                    &&& m.dest.0 == m.source.0 + gdx
                    &&& m.dest.1 == m.source.1 + gdy
                    &&& oldd.in_bounds(m.dest.0 as int, m.dest.1 as int)
                },
            forall|px: int, py: int|
                olds.in_bounds(px, py) && processed(px, py, 0, y as int) && #[trigger] olds.occ_at(
                    px,
                    py,
                ) is Some ==> exists|k: int|
                    0 <= k < moves@.len() && (#[trigger] moves@[k].source) == (
                    px as u32,
                    py as u32,
                ),
            forall|k1: int, k2: int|
                0 <= k1 < k2 < moves@.len() ==> ((#[trigger] moves@[k1]).source.1 < (
                #[trigger] moves@[k2]).source.1 || (moves@[k1].source.1 == moves@[k2].source.1
                    && moves@[k1].source.0 < moves@[k2].source.0)),
        decreases sh - y,
    {
        let mut x: u32 = 0;
        while x < sw
            invariant
                x <= sw,
                y < sh,
                olds.wf(),
                oldd.wf(),
                src.wf(),
                dst.wf(),
                src.same_shape(olds),
                dst.same_shape(oldd),
                sw == olds.spec_width(),
                sh == olds.spec_height(),
                dw == oldd.spec_width(),
                dh == oldd.spec_height(),
                dx == gdx,
                dy == gdy,
                gdx == delta_x(st, dt),
                gdy == delta_y(st, dt),
                olds == *old(src),
                oldd == *old(dst),
                validation(olds, oldd, gdx, gdy) is None,
                forall|x2: int, y2: int|
                    0 <= y2 < sh && 0 <= x2 < sw ==> #[trigger] cell_check(
                        olds,
                        oldd,
                        x2,
                        y2,
                        gdx,
                        gdy,
                    ) is None,
                forall|px: int, py: int|
                    olds.in_bounds(px, py) ==> #[trigger] src.occ_at(px, py) == (if processed(
                        px,
                        py,
                        x as int,
                        y as int,
                    ) {
                        None::<u64>
                    } else {
                        olds.occ_at(px, py)
                    }),
                forall|qx: int, qy: int|
                    oldd.in_bounds(qx, qy) ==> #[trigger] dst.occ_at(qx, qy) == (if olds.in_bounds(
                        qx - gdx,
                        qy - gdy,
                    ) && processed(qx - gdx, qy - gdy, x as int, y as int) && olds.occ_at(
                        qx - gdx,
                        qy - gdy,
                    ) is Some {
                        olds.occ_at(qx - gdx, qy - gdy)
                    } else {
                        oldd.occ_at(qx, qy)
                    }),
                count_occupied(src.storage()) + moves@.len() == count_occupied(olds.storage()),
                collision_free(olds, oldd, gdx, gdy) ==> count_occupied(dst.storage())
                    == count_occupied(oldd.storage()) + moves@.len(),
                forall|k: int|
                    0 <= k < moves@.len() ==> {
                        let m = #[trigger] moves@[k];
                        &&& olds.in_bounds(m.source.0 as int, m.source.1 as int)
                        &&& processed(m.source.0 as int, m.source.1 as int, x as int, y as int)
                        &&& olds.occ_at(m.source.0 as int, m.source.1 as int) == Some(m.occupant)
                        &&& m.dest.0 == m.source.0 + gdx
                        &&& m.dest.1 == m.source.1 + gdy
                        &&& oldd.in_bounds(m.dest.0 as int, m.dest.1 as int)
                    },
                forall|px: int, py: int|
                    olds.in_bounds(px, py) && processed(px, py, x as int, y as int)
                        && #[trigger] olds.occ_at(px, py) is Some ==> exists|k: int|
                        0 <= k < moves@.len() && (#[trigger] moves@[k].source) == (
                        px as u32,
                        py as u32,
                    ),
                forall|k1: int, k2: int|
                    0 <= k1 < k2 < moves@.len() ==> ((#[trigger] moves@[k1]).source.1 < (
                    #[trigger] moves@[k2]).source.1 || (moves@[k1].source.1 == moves@[k2].source.1
                        && moves@[k1].source.0 < moves@[k2].source.0)),
            decreases sw - x,
        {
            proof {
                assert(cell_check(olds, oldd, x as int, y as int, gdx, gdy) is None);
            }
            let occ = src.get_occupant(x, y);
            if let Some(ent) = occ {
                let tx: i64 = (x as i64) + dx;
                let ty: i64 = (y as i64) + dy;
                let txu = tx as u32;
                let tyu = ty as u32;
                let ghost src_before = *src;
                let ghost dst_before = *dst;
                let ghost moves_before = moves@;
                src.remove_occupant(x, y);
                dst.set_occupant(txu, tyu, ent);
                moves.push(OccupantMove { occupant: ent, source: (x, y), dest: (txu, tyu) });
                proof {
                    let xi = x as int;
                    let yi = y as int;
                    assert(txu == xi + gdx && tyu == yi + gdy);
                    lemma_row_major_index_in_range(xi, yi, sw as int, sh as int);
                    lemma_row_major_index_in_range(xi + gdx, yi + gdy, dw as int, dh as int);
                    assert(src.storage() == src_before.storage().update(yi * sw + xi, None::<u64>));
                    assert(dst.storage() == dst_before.storage().update(
                        (yi + gdy) * dw + (xi + gdx),
                        Some(ent),
                    ));
                    lemma_count_occupied_update(src_before.storage(), yi * sw + xi, None::<u64>);
                    lemma_count_occupied_update(
                        dst_before.storage(),
                        (yi + gdy) * dw + (xi + gdx),
                        Some(ent),
                    );
                    assert(src_before.occ_at(xi, yi) == Some(ent));
                    assert forall|px: int, py: int| olds.in_bounds(px, py) implies #[trigger] src
                        .occ_at(px, py) == (if processed(px, py, xi + 1, yi) {
                        None::<u64>
                    } else {
                        olds.occ_at(px, py)
                    }) by {
                        lemma_row_major_index_in_range(px, py, sw as int, sh as int);
                        assert(src_before.occ_at(px, py) == (if processed(px, py, xi, yi) {
                            None::<u64>
                        } else {
                            olds.occ_at(px, py)
                        }));
                        if py * sw + px == yi * sw + xi {
                            lemma_row_major_injective(sw as int, px, py, xi, yi);
                        } else {
                            assert(src.occ_at(px, py) == src_before.occ_at(px, py));
                        }
                    }
                    assert forall|qx: int, qy: int| oldd.in_bounds(qx, qy) implies #[trigger] dst
                        .occ_at(qx, qy) == (if olds.in_bounds(qx - gdx, qy - gdy) && processed(
                        qx - gdx,
                        qy - gdy,
                        xi + 1,
                        yi,
                    ) && olds.occ_at(qx - gdx, qy - gdy) is Some {
                        olds.occ_at(qx - gdx, qy - gdy)
                    } else {
                        oldd.occ_at(qx, qy)
                    }) by {
                        lemma_row_major_index_in_range(qx, qy, dw as int, dh as int);
                        assert(dst_before.occ_at(qx, qy) == (if olds.in_bounds(qx - gdx, qy - gdy)
                            && processed(qx - gdx, qy - gdy, xi, yi) && olds.occ_at(
                            qx - gdx,
                            qy - gdy,
                        ) is Some {
                            olds.occ_at(qx - gdx, qy - gdy)
                        } else {
                            oldd.occ_at(qx, qy)
                        }));
                        if qy * dw + qx == (yi + gdy) * dw + (xi + gdx) {
                            lemma_row_major_injective(dw as int, qx, qy, xi + gdx, yi + gdy);
                            assert(qx == xi + gdx && qy == yi + gdy);
                            assert(olds.occ_at(qx - gdx, qy - gdy) == olds.occ_at(xi, yi));
                            assert(src_before.occ_at(xi, yi) == olds.occ_at(xi, yi));
                        } else {
                            assert(dst.occ_at(qx, qy) == dst_before.occ_at(qx, qy));
                        }
                    }
                    if collision_free(olds, oldd, gdx, gdy) {
                        assert(olds.occ_at(xi, yi) is Some);
                        assert(oldd.occ_at(xi + gdx, yi + gdy) is None);
                        assert(dst_before.occ_at(xi + gdx, yi + gdy) == oldd.occ_at(
                            xi + gdx,
                            yi + gdy,
                        ));
                    }
                    assert forall|px: int, py: int|
                        olds.in_bounds(px, py) && processed(px, py, xi + 1, yi)
                            && #[trigger] olds.occ_at(px, py) is Some implies exists|k: int|
                        0 <= k < moves@.len() && (#[trigger] moves@[k].source) == (
                        px as u32,
                        py as u32,
                    ) by {
                        if px == xi && py == yi {
                            assert(moves@[moves@.len() - 1].source == (px as u32, py as u32));
                        } else {
                            assert(processed(px, py, xi, yi));
                            let w = choose|k: int|
                                0 <= k < moves_before.len() && (#[trigger] moves_before[k].source)
                                    == (px as u32, py as u32);
                            assert(moves@[w].source == (px as u32, py as u32));
                        }
                    }
                }
            } else {
                proof {
                    let xi = x as int;
                    let yi = y as int;
                    assert forall|px: int, py: int| olds.in_bounds(px, py) implies #[trigger] src
                        .occ_at(px, py) == (if processed(px, py, xi + 1, yi) {
                        None::<u64>
                    } else {
                        olds.occ_at(px, py)
                    }) by {}
                    assert forall|qx: int, qy: int| oldd.in_bounds(qx, qy) implies #[trigger] dst
                        .occ_at(qx, qy) == (if olds.in_bounds(qx - gdx, qy - gdy) && processed(
                        qx - gdx,
                        qy - gdy,
                        xi + 1,
                        yi,
                    ) && olds.occ_at(qx - gdx, qy - gdy) is Some {
                        olds.occ_at(qx - gdx, qy - gdy)
                    } else {
                        oldd.occ_at(qx, qy)
                    }) by {}
                }
            }
            x += 1;
        }
        y += 1;
    }
    proof {
        assert forall|px: int, py: int| olds.in_bounds(px, py) implies #[trigger] src.occ_at(
            px,
            py,
        ) is None by {}
        lemma_grid_empty_count(*src);
        assert forall|qx: int, qy: int| oldd.in_bounds(qx, qy) implies #[trigger] dst.occ_at(
            qx,
            qy,
        ) == merged_occ_at(olds, oldd, gdx, gdy, qx, qy) by {}
    }
    Ok(moves)
}

/// How two removals at a < b followed by two insertions at a then b rewrite
/// a sequence: the elements at a and b are replaced, everything else stays.
proof fn lemma_take_two_put_two(s: Seq<Grid>, a: int, b: int, ga: Grid, gb: Grid)
    requires
        0 <= a < b < s.len(),
    ensures
        s.remove(b).remove(a).insert(a, ga).insert(b, gb) =~= s.update(a, ga).update(b, gb),
{
}

impl GridRegistry {
    /// Handles a drop interaction: resolves the two grid identifiers,
    /// requires the drop point to have mapped onto a tile of each grid,
    /// validates the translated source rectangle against the destination,
    /// and either commits the whole merge or rejects it with every storage
    /// byte-identical to before. On commit the returned list reports every
    /// occupant move, for the application to mirror onto the occupants' own
    /// records.
    pub fn drop_merge(
        &mut self,
        source_id: u64,
        destination_id: u64,
        src_tile: Option<(u32, u32)>,
        dst_tile: Option<(u32, u32)>,
    ) -> (r: Result<Vec<OccupantMove>, MergeError>)
        requires
            old(self).wf(),
        ensures
            final(self).wf(),
            final(self).grids_view().len() == old(self).grids_view().len(),
            r is Ok <==> drop_outcome(
                old(self).grids_view(),
                source_id,
                destination_id,
                src_tile,
                dst_tile,
            ) is Ok,
            (r matches Err(e) ==> drop_outcome(
                old(self).grids_view(),
                source_id,
                destination_id,
                src_tile,
                dst_tile,
            ) == Err::<(), MergeError>(e)),
            r is Err ==> final(self).grids_view() == old(self).grids_view(),
            (r matches Ok(moves) ==> {
                let grids = old(self).grids_view();
                let si = idx_of(grids, source_id);
                let di = idx_of(grids, destination_id);
                &&& 0 <= si < grids.len()
                &&& 0 <= di < grids.len()
                &&& si != di
                &&& forall|k: int|
                    0 <= k < grids.len() && k != si && k != di ==> final(self).grids_view()[k]
                        == grids[k]
                &&& commit_describes(
                    grids[si],
                    grids[di],
                    src_tile.unwrap(),
                    dst_tile.unwrap(),
                    final(self).grids_view()[si],
                    final(self).grids_view()[di],
                    moves@,
                )
            }),
    {
        let ghost grids = self.grids_view();
        if source_id == destination_id {
            return Err(MergeError::IdentityResolutionFailure);
        }
        let si = match self.find(source_id) {
            Some(i) => i,
            None => {
                proof {
                    assert(!has_id(grids, source_id));
                }
                return Err(MergeError::IdentityResolutionFailure);
            },
        };
        let di = match self.find(destination_id) {
            Some(i) => i,
            None => {
                proof {
                    assert(!has_id(grids, destination_id));
                }
                return Err(MergeError::IdentityResolutionFailure);
            },
        };
        proof {
            assert(has_id(grids, source_id));
            assert(has_id(grids, destination_id));
            let ci = idx_of(grids, source_id);
            assert(grids[ci].spec_id() == source_id);
            if ci != si as int {
                assert(grids[ci].spec_id() != grids[si as int].spec_id());
            }
            let cj = idx_of(grids, destination_id);
            assert(grids[cj].spec_id() == destination_id);
            if cj != di as int {
                assert(grids[cj].spec_id() != grids[di as int].spec_id());
            }
            assert(si != di);
        }
        if !matches!(self.grid(si).role(), crate::grid::GridRole::Piece) {
            return Err(MergeError::IdentityResolutionFailure);
        }
        if !matches!(self.grid(di).role(), crate::grid::GridRole::Package) {
            return Err(MergeError::IdentityResolutionFailure);
        }
        let st = match src_tile {
            Some(t) => t,
            None => {
                return Err(MergeError::UnresolvableDropPoint);
            },
        };
        let dt = match dst_tile {
            Some(t) => t,
            None => {
                return Err(MergeError::UnresolvableDropPoint);
            },
        };
        if !(st.0 < self.grid(si).width() && st.1 < self.grid(si).height()) {
            return Err(MergeError::UnresolvableDropPoint);
        }
        if !(dt.0 < self.grid(di).width() && dt.1 < self.grid(di).height()) {
            return Err(MergeError::UnresolvableDropPoint);
        }
        let (first, second) = if si < di {
            (si, di)
        } else {
            (di, si)
        };
        let g_second = self.take(second);
        let g_first = self.take(first);
        let (mut src_g, mut dst_g) = if si < di {
            (g_first, g_second)
        } else {
            (g_second, g_first)
        };
        let outcome = merge_cells(&mut src_g, &mut dst_g, st, dt);
        let (back_first, back_second) = if si < di {
            (src_g, dst_g)
        } else {
            (dst_g, src_g)
        };
        self.put(first, back_first);
        self.put(second, back_second);
        proof {
            lemma_take_two_put_two(
                grids,
                first as int,
                second as int,
                back_first,
                back_second,
            );
            assert(self.grids_view() =~= grids.update(si as int, src_g).update(di as int, dst_g));
            assert forall|k: int| 0 <= k < self.grids_view().len() implies (
            #[trigger] self.grids_view()[k]).wf() by {
                if k != si as int && k != di as int {
                    assert(self.grids_view()[k] == grids[k]);
                }
            }
            assert forall|i: int, j: int|
                0 <= i < j < self.grids_view().len() implies (
            #[trigger] self.grids_view()[i]).spec_id() != (
            #[trigger] self.grids_view()[j]).spec_id() by {
                assert(self.grids_view()[i].spec_id() == grids[i].spec_id());
                assert(self.grids_view()[j].spec_id() == grids[j].spec_id());
            }
            if outcome is Err {
                assert(self.grids_view() =~= grids);
            }
        }
        match outcome {
            Ok(moves) => Ok(moves),
            Err(e) => Err(e),
        }
    }
}

} // verus!
