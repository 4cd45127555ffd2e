//! Sized tile grids with sparse occupant storage, and the registry of all
//! live grids. A grid's storage maps an in-bounds cell (x, y) to at most one
//! occupant; the world-space placement of a grid (transform, tile size,
//! anchor) belongs to the surrounding application, which resolves pointer
//! positions to tile coordinates before calling into this crate.

use crate::pattern::{lemma_row_major_index_in_range, Pattern};
use crate::picking::PickableTilemap;
use vstd::prelude::*;

verus! {

/// Role a grid plays in the puzzle.
#[derive(Clone, Copy, Debug, PartialEq, Eq, Structural)]
pub enum GridRole {
    /// Purely decorative, e.g. a background layer nested under a package.
    Plain,
    /// A draggable source grid whose occupants merge into a package.
    Piece,
    /// A destination grid; always carries a pattern of permitted cells.
    Package,
}

/// A unit placed at one grid cell. The authoritative position of an occupant
/// is its key in the owning grid's storage; these fields mirror it for the
/// rendering side and are updated together on a successful merge.
#[derive(Clone, Copy, Debug, PartialEq, Eq)]
pub struct Occupant {
    /// Identifier of the grid whose storage currently holds this occupant.
    pub owning_grid: u64,
    /// Mirror of the storage key under which this occupant is held.
    pub position: (u32, u32),
    /// Cache for interpolated movement; never authoritative.
    pub previous_position: (u32, u32),
}

impl Occupant {
    /// Moves this occupant's record to a new grid and cell, refreshing all
    /// three fields together.
    pub fn reassign(&mut self, owning_grid: u64, position: (u32, u32))
        ensures
            *final(self) == (Occupant { owning_grid, position, previous_position: position }),
    {
        self.owning_grid = owning_grid;
        self.position = position;
        self.previous_position = position;
    }
}

/// Number of filled slots in a row-major storage sequence.
pub open spec fn count_occupied(s: Seq<Option<u64>>) -> nat
    decreases s.len(),
{
    if s.len() == 0 {
        0
    } else {
        count_occupied(s.drop_last()) + (if s.last() is Some {
            1nat
        } else {
            0nat
        })
    }
}

/// How one storage update changes the occupied count.
pub proof fn lemma_count_occupied_update(s: Seq<Option<u64>>, i: int, v: Option<u64>)
    requires
        0 <= i < s.len(),
    ensures
        count_occupied(s.update(i, v)) == count_occupied(s) + (if v is Some {
            1int
        } else {
            0int
        }) - (if s[i] is Some {
            1int
        } else {
            0int
        }),
    decreases s.len(),
{
    let t = s.update(i, v);
    if i == s.len() - 1 {
        assert(t.drop_last() =~= s.drop_last());
    } else {
        assert(t.drop_last() =~= s.drop_last().update(i, v));
        lemma_count_occupied_update(s.drop_last(), i, v);
    }
}

/// A sized, transformed tile container with sparse occupant storage.
pub struct Grid {
    id: u64,
    width: u32,
    height: u32,
    role: GridRole,
    pattern: Option<Pattern>,
    pick: PickableTilemap,
    parent: Option<u64>,
    cells: Vec<Option<u64>>,
}

impl Grid {
    /// The storage as a flat row-major sequence: slot `y * width + x` holds
    /// the occupant of cell (x, y), if any.
    pub closed spec fn storage(self) -> Seq<Option<u64>> {
        self.cells@
    }

    pub closed spec fn spec_id(self) -> u64 {
        self.id
    }

    pub closed spec fn spec_width(self) -> u32 {
        self.width
    }

    pub closed spec fn spec_height(self) -> u32 {
        self.height
    }

    pub closed spec fn spec_role(self) -> GridRole {
        self.role
    }

    pub closed spec fn spec_pattern(self) -> Option<Pattern> {
        self.pattern
    }

    pub closed spec fn spec_pick(self) -> PickableTilemap {
        self.pick
    }

    pub closed spec fn spec_parent(self) -> Option<u64> {
        self.parent
    }

    /// Cell (x, y) lies within this grid's declared bounds.
    pub open spec fn in_bounds(self, x: int, y: int) -> bool {
        0 <= x < self.spec_width() && 0 <= y < self.spec_height()
    }

    /// The occupant stored at cell (x, y), for in-bounds coordinates.
    pub open spec fn occ_at(self, x: int, y: int) -> Option<u64> {
        self.storage()[y * self.spec_width() + x]
    }

    /// The storage as a sparse mapping from cell to occupant.
    pub open spec fn storage_map(self) -> Map<(int, int), u64> {
        Map::new(
            |p: (int, int)| self.in_bounds(p.0, p.1) && self.occ_at(p.0, p.1) is Some,
            |p: (int, int)| self.occ_at(p.0, p.1).unwrap(),
        )
    }

    /// Number of occupants this grid currently holds.
    pub open spec fn occupant_count(self) -> nat {
        count_occupied(self.storage())
    }

    /// Internal consistency: the flat storage covers exactly the declared
    /// bounds, a pattern (when present) has the grid's dimensions, and a
    /// package grid always carries a pattern.
    pub open spec fn wf(self) -> bool {
        &&& self.storage().len() == self.spec_width() * self.spec_height()
        &&& match self.spec_pattern() {
            Some(p) => p.wf() && p.spec_width() == self.spec_width() && p.spec_height()
                == self.spec_height(),
            None => true,
        }
        &&& self.spec_role() is Package ==> self.spec_pattern() is Some
    }

    /// Everything but the storage: two grids agree on identity, bounds,
    /// role, pattern, picking settings and parent.
    pub open spec fn same_shape(self, other: Grid) -> bool {
        &&& self.spec_id() == other.spec_id()
        &&& self.spec_width() == other.spec_width()
        &&& self.spec_height() == other.spec_height()
        &&& self.spec_role() == other.spec_role()
        &&& self.spec_pattern() == other.spec_pattern()
        &&& self.spec_pick() == other.spec_pick()
        &&& self.spec_parent() == other.spec_parent()
    }

    /// Builds a grid with empty storage.
    pub fn new(
        id: u64,
        width: u32,
        height: u32,
        role: GridRole,
        pattern: Option<Pattern>,
        pick: PickableTilemap,
        parent: Option<u64>,
    ) -> (r: Grid)
        requires
            width * height <= usize::MAX,
            match pattern {
                Some(p) => p.wf() && p.spec_width() == width && p.spec_height() == height,
                None => true,
            },
            role is Package ==> pattern is Some,
        ensures
            r.wf(),
            r.spec_id() == id,
            r.spec_width() == width,
            r.spec_height() == height,
            r.spec_role() == role,
            r.spec_pattern() == pattern,
            r.spec_pick() == pick,
            r.spec_parent() == parent,
            r.storage().len() == width * height,
            forall|i: int| 0 <= i < r.storage().len() ==> r.storage()[i] is None,
            r.occupant_count() == 0,
    {
        let total: usize = (width as usize) * (height as usize);
        let mut cells: Vec<Option<u64>> = Vec::new();
        let mut i: usize = 0;
        while i < total
            invariant
                i <= total,
                cells@.len() == i,
                forall|k: int| 0 <= k < i ==> cells@[k] is None,
            decreases total - i,
        {
            cells.push(None);
            i += 1;
        }
        proof {
            lemma_count_all_empty(cells@);
        }
        Grid { id, width, height, role, pattern, pick, parent, cells }
    }

    pub fn id(&self) -> (r: u64)
        ensures
            r == self.spec_id(),
    {
        self.id
    }

    pub fn width(&self) -> (r: u32)
        ensures
            r == self.spec_width(),
    {
        self.width
    }

    pub fn height(&self) -> (r: u32)
        ensures
            r == self.spec_height(),
    {
        self.height
    }

    pub fn role(&self) -> (r: GridRole)
        ensures
            r == self.spec_role(),
    {
        self.role
    }

    pub fn pick(&self) -> (r: PickableTilemap)
        ensures
            r == self.spec_pick(),
    {
        self.pick
    }

    pub fn parent(&self) -> (r: Option<u64>)
        ensures
            r == self.spec_parent(),
    {
        self.parent
    }

    /// Raises or restores this grid's pick priority (a dragged piece is
    /// boosted to an extreme value and reset on release).
    pub fn set_priority(&mut self, priority: i32)
        ensures
            final(self).spec_pick() == (PickableTilemap {
                occupied_only: old(self).spec_pick().occupied_only,
                priority,
            }),
            final(self).storage() == old(self).storage(),
            final(self).spec_id() == old(self).spec_id(),
            final(self).spec_width() == old(self).spec_width(),
            final(self).spec_height() == old(self).spec_height(),
            final(self).spec_role() == old(self).spec_role(),
            final(self).spec_pattern() == old(self).spec_pattern(),
            final(self).spec_parent() == old(self).spec_parent(),
            old(self).wf() ==> final(self).wf(),
    {
        self.pick.priority = priority;
    }

    /// True when the destination pattern marks cell (x, y) as one it wants
    /// filled. Only meaningful on a grid that carries a pattern.
    pub fn pattern_at(&self, x: u32, y: u32) -> (r: bool)
        requires
            self.wf(),
            self.spec_pattern() is Some,
            self.in_bounds(x as int, y as int),
        ensures
            r == self.spec_pattern().unwrap().spec_at(x as int, y as int),
    {
        match &self.pattern {
            Some(p) => p.get(x, y),
            None => false,
        }
    }

    /// Reads the occupant at cell (x, y).
    pub fn get_occupant(&self, x: u32, y: u32) -> (r: Option<u64>)
        requires
            self.wf(),
            self.in_bounds(x as int, y as int),
        ensures
            r == self.occ_at(x as int, y as int),
    {
        let n = self.cells.len();
        proof {
            lemma_row_major_index_in_range(
                x as int,
                y as int,
                self.width as int,
                self.height as int,
            );
            assert(n == self.cells@.len());
        }
        let i: usize = (y as usize) * (self.width as usize) + (x as usize);
        self.cells[i]
    }

    /// Places an occupant at cell (x, y), replacing whatever was there.
    pub fn set_occupant(&mut self, x: u32, y: u32, occupant: u64)
        requires
            old(self).wf(),
            old(self).in_bounds(x as int, y as int),
        ensures
            final(self).wf(),
            final(self).same_shape(*old(self)),
            final(self).storage() == old(self).storage().update(
                y * old(self).spec_width() + x,
                Some(occupant),
            ),
    {
        let n = self.cells.len();
        proof {
            lemma_row_major_index_in_range(
                x as int,
                y as int,
                self.width as int,
                self.height as int,
            );
            assert(n == self.cells@.len());
        }
        let i: usize = (y as usize) * (self.width as usize) + (x as usize);
        self.cells[i] = Some(occupant);
    }

    /// Empties cell (x, y).
    pub fn remove_occupant(&mut self, x: u32, y: u32)
        requires
            old(self).wf(),
            old(self).in_bounds(x as int, y as int),
        ensures
            final(self).wf(),
            final(self).same_shape(*old(self)),
            final(self).storage() == old(self).storage().update(
                y * old(self).spec_width() + x,
                None::<u64>,
            ),
    {
        let n = self.cells.len();
        proof {
            lemma_row_major_index_in_range(
                x as int,
                y as int,
                self.width as int,
                self.height as int,
            );
            assert(n == self.cells@.len());
        }
        let i: usize = (y as usize) * (self.width as usize) + (x as usize);
        self.cells[i] = None;
    }

    /// Fills every cell with a fresh occupant: cell (x, y) receives
    /// `first_occupant + y * width + x`. Used when a scene populates a piece
    /// or background grid.
    pub fn fill_all(&mut self, first_occupant: u64)
        requires
            old(self).wf(),
            first_occupant + old(self).spec_width() * old(self).spec_height() <= u64::MAX,
        ensures
            final(self).wf(),
            final(self).same_shape(*old(self)),
            final(self).storage().len() == old(self).storage().len(),
            forall|i: int| 0 <= i < final(self).storage().len() ==> final(self).storage()[i]
                == Some((first_occupant + i) as u64),
    {
        let total = self.cells.len();
        let mut i: usize = 0;
        while i < total
            invariant
                i <= total,
                total == self.cells@.len(),
                first_occupant + total <= u64::MAX,
                self.id == old(self).id,
                self.width == old(self).width,
                self.height == old(self).height,
                self.role == old(self).role,
                self.pattern == old(self).pattern,
                self.pick == old(self).pick,
                self.parent == old(self).parent,
                forall|k: int| 0 <= k < i ==> self.cells@[k] == Some((first_occupant + k) as u64),
            decreases total - i,
        {
            self.cells[i] = Some(first_occupant + (i as u64));
            i += 1;
        }
    }
}

/// An all-empty storage holds no occupants.
pub proof fn lemma_count_all_empty(s: Seq<Option<u64>>)
    requires
        forall|i: int| 0 <= i < s.len() ==> s[i] is None,
    ensures
        count_occupied(s) == 0,
    decreases s.len(),
{
    if s.len() > 0 {
        lemma_count_all_empty(s.drop_last());
    }
}

/// Law: in a well-formed grid, every key of the storage mapping lies within
/// the grid's declared bounds. This holds at all times because every
/// constructor establishes well-formedness and every storage operation
/// preserves it.
pub proof fn lemma_storage_keys_in_bounds(g: Grid)
    requires
        g.wf(),
    ensures
        forall|p: (int, int)| g.storage_map().dom().contains(p) ==> g.in_bounds(p.0, p.1),
{
}

/// The queryable collection of all live grids, each under a unique
/// identifier.
pub struct GridRegistry {
    grids: Vec<Grid>,
}

impl GridRegistry {
    pub closed spec fn grids_view(self) -> Seq<Grid> {
        self.grids@
    }

    /// Every grid is well-formed and no two grids share an identifier.
    pub open spec fn wf(self) -> bool {
        &&& forall|i: int| 0 <= i < self.grids_view().len() ==> (#[trigger] self.grids_view()[i]).wf()
        &&& forall|i: int, j: int|
            0 <= i < j < self.grids_view().len() ==> (#[trigger] self.grids_view()[i]).spec_id()
                != (#[trigger] self.grids_view()[j]).spec_id()
    }

    pub fn new() -> (r: GridRegistry)
        ensures
            r.wf(),
            r.grids_view().len() == 0,
    {
        GridRegistry { grids: Vec::new() }
    }

    pub fn len(&self) -> (r: usize)
        ensures
            r == self.grids_view().len(),
    {
        self.grids.len()
    }

    pub fn grid(&self, i: usize) -> (r: &Grid)
        requires
            i < self.grids_view().len(),
        ensures
            *r == self.grids_view()[i as int],
    {
        &self.grids[i]
    }

    /// Registers a grid under an identifier not yet in use.
    pub fn add(&mut self, g: Grid)
        requires
            old(self).wf(),
            g.wf(),
            forall|i: int| 0 <= i < old(self).grids_view().len() ==> (#[trigger] old(
                self,
            ).grids_view()[i]).spec_id() != g.spec_id(),
        ensures
            final(self).wf(),
            final(self).grids_view() == old(self).grids_view().push(g),
    {
        self.grids.push(g);
        proof {
            let v = self.grids_view();
            let n = v.len() - 1;
            assert(forall|i: int| 0 <= i < n ==> v[i] == old(self).grids_view()[i]);
            assert(v[n] == g);
            assert forall|i: int, j: int| 0 <= i < j < v.len() implies (#[trigger] v[i]).spec_id()
                != (#[trigger] v[j]).spec_id() by {
                if j < n {
                    assert(old(self).grids_view()[i].spec_id() != old(
                        self,
                    ).grids_view()[j].spec_id());
                } else {
                    assert(old(self).grids_view()[i].spec_id() != g.spec_id());
                }
            }
        }
    }

    /// Looks an identifier up; `Some(i)` names the unique index holding it.
    pub fn find(&self, id: u64) -> (r: Option<usize>)
        ensures
            match r {
                Some(i) => i < self.grids_view().len() && self.grids_view()[i as int].spec_id()
                    == id,
                None => forall|i: int|
                    0 <= i < self.grids_view().len() ==> (#[trigger] self.grids_view()[i]).spec_id()
                        != id,
            },
    {
        let n = self.grids.len();
        let mut i: usize = 0;
        while i < n
            invariant
                i <= n,
                n == self.grids_view().len(),
                forall|k: int| 0 <= k < i ==> (#[trigger] self.grids_view()[k]).spec_id() != id,
            decreases n - i,
        {
            if self.grids[i].id() == id {
                return Some(i);
            }
            i += 1;
        }
        None
    }

    /// Removes and returns the grid at an index; used to hold two grids by
    /// value while a merge works on both, before `put` restores them.
    pub(crate) fn take(&mut self, i: usize) -> (r: Grid)
        requires
            i < old(self).grids_view().len(),
        ensures
            r == old(self).grids_view()[i as int],
            final(self).grids_view() == old(self).grids_view().remove(i as int),
    {
        self.grids.remove(i)
    }

    /// Reinserts a grid at an index.
    pub(crate) fn put(&mut self, i: usize, g: Grid)
        requires
            i <= old(self).grids_view().len(),
        ensures
            final(self).grids_view() == old(self).grids_view().insert(i as int, g),
    {
        self.grids.insert(i, g);
    }
}

} // verus!
