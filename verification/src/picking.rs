//! Pointer-ray tile picking. Per frame the application intersects each
//! pointer ray with every grid's plane and maps the crossing point to a tile
//! coordinate (or to nothing, when the ray grazes the plane or the point
//! falls outside the grid's extent). This module takes those per-grid probe
//! results and produces the frame's hit batches: occupancy filtering, depth
//! assignment from pick priority, and a deterministic ascending-by-depth
//! ordering.

use crate::grid::{Grid, GridRegistry};
use vstd::prelude::*;
use vstd::seq_lib::group_to_multiset_ensures;

verus! {

/// Picking settings of one grid: whether empty cells let the ray pass
/// through, and the priority that decides which of several overlapping grids
/// wins pointer focus.
#[derive(Clone, Copy, Debug, PartialEq, Eq, Structural)]
pub struct PickableTilemap {
    /// When set, the grid yields a hit only on a cell that holds an occupant;
    /// rays over empty cells fall through to grids layered beneath.
    pub occupied_only: bool,
    /// Numerically larger priority is treated as nearer to the pointer. A
    /// dragged piece's priority is temporarily boosted so it always wins.
    pub priority: i32,
}

impl PickableTilemap {
    pub fn new(occupied_only: bool, priority: i32) -> (r: Self)
        ensures
            r == (PickableTilemap { occupied_only, priority }),
    {
        Self { occupied_only, priority }
    }
}

/// One tile-level hit of a pointer ray on a grid.
#[derive(Clone, Copy, Debug, PartialEq, Eq)]
pub struct TileHit {
    /// Identifier of the grid that was hit.
    pub grid: u64,
    /// Negated pick priority: a numerically larger priority gives a smaller
    /// depth, which is treated as nearer to the pointer.
    pub depth: i64,
    /// The tile coordinate the ray crossed.
    pub tile: (u32, u32),
}

/// One pointer ray of a frame, after the application has intersected it with
/// every grid's plane: `probes[i]` is the tile coordinate the ray reached on
/// grid `i` of the registry, or nothing when the ray grazes that grid's
/// plane or crosses it outside the grid's extent.
pub struct RayProbes {
    pub camera: u64,
    pub pointer: u64,
    pub probes: Vec<Option<(u32, u32)>>,
}

/// One per-(camera, pointer) batch of ordered hits.
pub struct HitBatch {
    pub camera: u64,
    pub pointer: u64,
    pub hits: Vec<TileHit>,
}

/// The depth assigned to a hit on a grid with the given pick priority.
pub open spec fn depth_of(priority: i32) -> i64 {
    (-(priority as int)) as i64
}

/// The hit record a grid emits for a probe that reached tile `t`.
pub open spec fn hit_of(g: Grid, t: (u32, u32)) -> TileHit {
    TileHit { grid: g.spec_id(), depth: depth_of(g.spec_pick().priority), tile: t }
}

/// Whether a grid turns a probe result into a hit: the probe must have
/// reached a tile within bounds, and an occupancy-filtering grid further
/// requires that tile to hold an occupant.
pub open spec fn grid_yields(g: Grid, probe: Option<(u32, u32)>) -> bool {
    match probe {
        None => false,
        Some(t) => g.in_bounds(t.0 as int, t.1 as int) && (!g.spec_pick().occupied_only || g.occ_at(
            t.0 as int,
            t.1 as int,
        ) is Some),
    }
}

/// The hits of the first n grids, in registry order, before sorting.
pub open spec fn raw_hits(grids: Seq<Grid>, probes: Seq<Option<(u32, u32)>>, n: int) -> Seq<TileHit>
    decreases n,
{
    if n <= 0 {
        Seq::empty()
    } else {
        let prev = raw_hits(grids, probes, n - 1);
        if grid_yields(grids[n - 1], probes[n - 1]) {
            prev.push(hit_of(grids[n - 1], probes[n - 1].unwrap()))
        } else {
            prev
        }
    }
}

/// Insertion into a depth-sorted sequence: the new hit goes after every hit
/// whose depth is not larger, so equal depths keep their arrival order.
pub open spec fn insert_by_depth(s: Seq<TileHit>, h: TileHit) -> Seq<TileHit>
    decreases s.len(),
{
    if s.len() == 0 {
        seq![h]
    } else if s.last().depth <= h.depth {
        s.push(h)
    } else {
        insert_by_depth(s.drop_last(), h).push(s.last())
    }
}

/// Stable insertion sort by ascending depth.
pub open spec fn sort_by_depth(s: Seq<TileHit>) -> Seq<TileHit>
    decreases s.len(),
{
    if s.len() == 0 {
        Seq::empty()
    } else {
        insert_by_depth(sort_by_depth(s.drop_last()), s.last())
    }
}

pub open spec fn sorted_by_depth(s: Seq<TileHit>) -> bool {
    forall|i: int, j: int| 0 <= i < j < s.len() ==> s[i].depth <= s[j].depth
}

/// The ordered hit list one ray produces against a registry of grids.
pub open spec fn hits_spec(grids: Seq<Grid>, probes: Seq<Option<(u32, u32)>>) -> Seq<TileHit> {
    sort_by_depth(raw_hits(grids, probes, grids.len() as int))
}

/// Splitting form of insertion: when everything from position p on is
/// deeper than h and position p - 1 (if any) is not, h lands exactly at p.
proof fn lemma_insert_by_depth_split(s: Seq<TileHit>, h: TileHit, p: int)
    requires
        0 <= p <= s.len(),
        forall|i: int| p <= i < s.len() ==> s[i].depth > h.depth,
        p > 0 ==> s[p - 1].depth <= h.depth,
    ensures
        insert_by_depth(s, h) == s.subrange(0, p) + seq![h] + s.subrange(p, s.len() as int),
    decreases s.len(),
{
    if p == s.len() {
        if s.len() == 0 {
            assert(insert_by_depth(s, h) =~= s.subrange(0, p) + seq![h] + s.subrange(
                p,
                s.len() as int,
            ));
        } else {
            assert(insert_by_depth(s, h) == s.push(h));
            assert(s.push(h) =~= s.subrange(0, p) + seq![h] + s.subrange(p, s.len() as int));
        }
    } else {
        assert(s.last().depth > h.depth);
        lemma_insert_by_depth_split(s.drop_last(), h, p);
        assert(s.drop_last().subrange(0, p) =~= s.subrange(0, p));
        assert(s.drop_last().subrange(p, s.len() - 1) =~= s.subrange(p, s.len() - 1));
        assert((s.subrange(0, p) + seq![h] + s.subrange(p, s.len() - 1)).push(s.last()) =~= s
            .subrange(0, p) + seq![h] + s.subrange(p, s.len() as int));
    }
}

/// Insertion keeps a depth-sorted sequence sorted and adds exactly the new
/// hit to its contents.
proof fn lemma_insert_by_depth_ensures(s: Seq<TileHit>, h: TileHit)
    requires
        sorted_by_depth(s),
    ensures
        sorted_by_depth(insert_by_depth(s, h)),
        insert_by_depth(s, h).to_multiset() == s.to_multiset().insert(h),
        insert_by_depth(s, h).len() == s.len() + 1,
    decreases s.len(),
{
    broadcast use group_to_multiset_ensures;

    let r = insert_by_depth(s, h);
    if s.len() == 0 {
        assert(r =~= Seq::empty().push(h));
        assert(r.to_multiset() =~= s.to_multiset().insert(h));
    } else if s.last().depth <= h.depth {
        assert forall|i: int, j: int| 0 <= i < j < r.len() implies r[i].depth <= r[j].depth by {
            if j == r.len() - 1 {
                assert(s[i].depth <= s[s.len() - 1].depth);
            }
        }
    } else {
        lemma_insert_by_depth_ensures(s.drop_last(), h);
        let t = insert_by_depth(s.drop_last(), h);
        assert(r == t.push(s.last()));
        assert(t.to_multiset() == s.drop_last().to_multiset().insert(h));
        assert(s =~= s.drop_last().push(s.last()));
        assert(s.to_multiset() == s.drop_last().to_multiset().insert(s.last()));
        assert(r.to_multiset() =~= s.to_multiset().insert(h));
        assert forall|i: int, j: int| 0 <= i < j < r.len() implies r[i].depth <= r[j].depth by {
            if j == r.len() - 1 {
                assert(t.to_multiset().count(t[i]) > 0);
                assert(t[i] == h || s.drop_last().to_multiset().count(t[i]) > 0);
                if t[i] != h {
                    assert(s.drop_last().contains(t[i]));
                    let w = choose|w: int|
                        0 <= w < s.drop_last().len() && s.drop_last()[w] == t[i];
                    assert(s[w].depth <= s.last().depth);
                }
            }
        }
    }
}

/// The sort emits a sorted rearrangement of its input.
proof fn lemma_sort_by_depth_ensures(s: Seq<TileHit>)
    ensures
        sorted_by_depth(sort_by_depth(s)),
        sort_by_depth(s).to_multiset() == s.to_multiset(),
        sort_by_depth(s).len() == s.len(),
    decreases s.len(),
{
    broadcast use group_to_multiset_ensures;

    if s.len() > 0 {
        lemma_sort_by_depth_ensures(s.drop_last());
        lemma_insert_by_depth_ensures(sort_by_depth(s.drop_last()), s.last());
        assert(s =~= s.drop_last().push(s.last()));
        assert(s.to_multiset() == s.drop_last().to_multiset().insert(s.last()));
    }
}

/// A grid that yields a hit is represented in the raw hit list.
proof fn lemma_raw_hits_contains(
    grids: Seq<Grid>,
    probes: Seq<Option<(u32, u32)>>,
    n: int,
    k: int,
)
    requires
        0 <= k < n <= grids.len(),
        grid_yields(grids[k], probes[k]),
    ensures
        raw_hits(grids, probes, n).contains(hit_of(grids[k], probes[k].unwrap())),
    decreases n,
{
    let h = hit_of(grids[k], probes[k].unwrap());
    if k == n - 1 {
        let r = raw_hits(grids, probes, n);
        assert(r.last() == h);
        assert(r.contains(h));
    } else {
        lemma_raw_hits_contains(grids, probes, n - 1, k);
        let prev = raw_hits(grids, probes, n - 1);
        let i = choose|i: int| 0 <= i < prev.len() && prev[i] == h;
        assert(raw_hits(grids, probes, n)[i] == h);
    }
}

/// Computes one ray's ordered hit list: every grid whose probe reached an
/// in-bounds tile, and (for occupancy-filtering grids) an occupied one,
/// contributes a hit at depth equal to its negated priority; the hits come
/// back sorted ascending by depth, equal depths in registry order.
pub fn compute_hits(registry: &GridRegistry, probes: &Vec<Option<(u32, u32)>>) -> (r: Vec<TileHit>)
    requires
        registry.wf(),
        probes@.len() == registry.grids_view().len(),
    ensures
        r@ == hits_spec(registry.grids_view(), probes@),
        sorted_by_depth(r@),
{
    let ghost grids = registry.grids_view();
    let n = registry.len();
    let mut raw: Vec<TileHit> = Vec::new();
    let mut i: usize = 0;
    while i < n
        invariant
            i <= n,
            n == grids.len(),
            grids == registry.grids_view(),
            registry.wf(),
            probes@.len() == grids.len(),
            raw@ == raw_hits(grids, probes@, i as int),
        decreases n - i,
    {
        let g = registry.grid(i);
        if let Some(t) = probes[i] {
            if t.0 < g.width() && t.1 < g.height() {
                let passes = if g.pick().occupied_only {
                    g.get_occupant(t.0, t.1).is_some()
                } else {
                    true
                };
                if passes {
                    let h = TileHit { grid: g.id(), depth: -(g.pick().priority as i64), tile: t };
                    proof {
                        assert(h == hit_of(grids[i as int], probes@[i as int].unwrap()));
                    }
                    raw.push(h);
                }
            }
        }
        i += 1;
    }
    let mut sorted: Vec<TileHit> = Vec::new();
    let mut j: usize = 0;
    let m = raw.len();
    while j < m
        invariant
            j <= m,
            m == raw@.len(),
            sorted@ == sort_by_depth(raw@.subrange(0, j as int)),
            sorted_by_depth(sorted@),
        decreases m - j,
    {
        insert_hit(&mut sorted, raw[j]);
        proof {
            assert(raw@.subrange(0, j + 1).drop_last() =~= raw@.subrange(0, j as int));
            assert(raw@.subrange(0, j + 1).last() == raw@[j as int]);
            lemma_insert_by_depth_ensures(sort_by_depth(raw@.subrange(0, j as int)), raw@[j as int]);
        }
        j += 1;
    }
    proof {
        assert(raw@.subrange(0, m as int) =~= raw@);
    }
    sorted
}

/// Inserts a hit into a depth-sorted vector, keeping it sorted and placing
/// the new hit after every hit of equal depth.
fn insert_hit(v: &mut Vec<TileHit>, h: TileHit)
    requires
        sorted_by_depth(old(v)@),
    ensures
        final(v)@ == insert_by_depth(old(v)@, h),
{
    let ghost s = v@;
    v.push(h);
    let mut p: usize = v.len() - 1;
    loop
        invariant
            0 <= p < v@.len(),
            v@.len() == s.len() + 1,
            v@ == s.subrange(0, p as int) + seq![h] + s.subrange(p as int, s.len() as int),
            forall|i: int| p <= i < s.len() ==> s[i].depth > h.depth,
        ensures
            p == 0 || s[p - 1].depth <= h.depth,
        decreases p,
    {
        if p == 0 {
            break ;
        }
        let prev = v[p - 1];
        proof {
            assert(v@[p - 1] == s[p - 1]);
        }
        if prev.depth <= h.depth {
            break ;
        }
        v[p] = prev;
        v[p - 1] = h;
        proof {
            assert(v@ =~= s.subrange(0, p - 1) + seq![h] + s.subrange(p - 1, s.len() as int));
        }
        p = p - 1;
    }
    proof {
        lemma_insert_by_depth_split(s, h, p as int);
    }
}

/// The per-ray, per-camera batches of a frame: rays are handled in order,
/// and a ray whose hit list is empty contributes no batch.
pub open spec fn batches_spec(grids: Seq<Grid>, rays: Seq<RayProbes>, n: int) -> Seq<
    (u64, u64, Seq<TileHit>),
>
    decreases n,
{
    if n <= 0 {
        Seq::empty()
    } else {
        let prev = batches_spec(grids, rays, n - 1);
        let h = hits_spec(grids, rays[n - 1].probes@);
        if h.len() == 0 {
            prev
        } else {
            prev.push((rays[n - 1].camera, rays[n - 1].pointer, h))
        }
    }
}

/// Runs the picking backend for one frame: for every pointer ray, in order,
/// the ordered hit list against every grid of the registry; rays that hit
/// nothing are dropped rather than emitted as empty batches.
pub fn update_hits(registry: &GridRegistry, rays: &Vec<RayProbes>) -> (r: Vec<HitBatch>)
    requires
        registry.wf(),
        forall|k: int| 0 <= k < rays@.len() ==> (#[trigger] rays@[k].probes)@.len()
            == registry.grids_view().len(),
    ensures
        r@.len() == batches_spec(registry.grids_view(), rays@, rays@.len() as int).len(),
        forall|k: int|
            0 <= k < r@.len() ==> {
                let b = batches_spec(registry.grids_view(), rays@, rays@.len() as int)[k];
                (#[trigger] r@[k]).camera == b.0 && r@[k].pointer == b.1 && r@[k].hits@ == b.2
            },
{
    let ghost grids = registry.grids_view();
    let mut out: Vec<HitBatch> = Vec::new();
    let n = rays.len();
    let mut i: usize = 0;
    while i < n
        invariant
            i <= n,
            n == rays@.len(),
            grids == registry.grids_view(),
            registry.wf(),
            forall|k: int| 0 <= k < rays@.len() ==> (#[trigger] rays@[k].probes)@.len()
                == grids.len(),
            out@.len() == batches_spec(grids, rays@, i as int).len(),
            forall|k: int|
                0 <= k < out@.len() ==> {
                    let b = batches_spec(grids, rays@, i as int)[k];
                    (#[trigger] out@[k]).camera == b.0 && out@[k].pointer == b.1 && out@[k].hits@
                        == b.2
                },
        decreases n - i,
    {
        let ray = &rays[i];
        let hits = compute_hits(registry, &ray.probes);
        if hits.len() > 0 {
            out.push(HitBatch { camera: ray.camera, pointer: ray.pointer, hits });
        }
        i += 1;
    }
    out
}

/// Law: picking is deterministic. The ordered hit list is a function of the
/// ray's probe results and the registry state alone, so identical inputs
/// give an identical ordered hit list on every invocation.
pub proof fn lemma_picking_deterministic(
    grids: Seq<Grid>,
    probes: Seq<Option<(u32, u32)>>,
    r1: Seq<TileHit>,
    r2: Seq<TileHit>,
)
    requires
        r1 == hits_spec(grids, probes),
        r2 == hits_spec(grids, probes),
    ensures
        r1 == r2,
{
}

/// Law: priority orders the hit list. When two grids both turn a ray's
/// probe into a hit, the one with the numerically larger pick priority
/// stands strictly earlier in the ordered hit list than the other.
pub proof fn lemma_priority_ordering(
    grids: Seq<Grid>,
    probes: Seq<Option<(u32, u32)>>,
    a: int,
    b: int,
)
    requires
        probes.len() == grids.len(),
        0 <= a < grids.len(),
        0 <= b < grids.len(),
        grid_yields(grids[a], probes[a]),
        grid_yields(grids[b], probes[b]),
        grids[a].spec_pick().priority > grids[b].spec_pick().priority,
    ensures
        hits_spec(grids, probes).contains(hit_of(grids[a], probes[a].unwrap())),
        hits_spec(grids, probes).contains(hit_of(grids[b], probes[b].unwrap())),
        forall|i: int, j: int|
            0 <= i < hits_spec(grids, probes).len() && 0 <= j < hits_spec(grids, probes).len() && (
            #[trigger] hits_spec(grids, probes)[i]) == hit_of(grids[a], probes[a].unwrap()) && (
            #[trigger] hits_spec(grids, probes)[j]) == hit_of(grids[b], probes[b].unwrap()) ==> i
                < j,
{
    broadcast use group_to_multiset_ensures;

    let raw = raw_hits(grids, probes, grids.len() as int);
    let s = hits_spec(grids, probes);
    let ha = hit_of(grids[a], probes[a].unwrap());
    let hb = hit_of(grids[b], probes[b].unwrap());
    lemma_raw_hits_contains(grids, probes, grids.len() as int, a);
    lemma_raw_hits_contains(grids, probes, grids.len() as int, b);
    lemma_sort_by_depth_ensures(raw);
    assert(raw.to_multiset().count(ha) > 0);
    assert(raw.to_multiset().count(hb) > 0);
    assert(s.contains(ha));
    assert(s.contains(hb));
    assert(ha.depth < hb.depth);
    assert forall|i: int, j: int|
        0 <= i < s.len() && 0 <= j < s.len() && s[i] == ha && s[j] == hb implies i < j by {
        if i >= j {
            assert(s[j].depth <= s[i].depth);
        }
    }
}

} // verus!
