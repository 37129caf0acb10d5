//! The sparse uniform spatial hash: a grid of cells, each holding the
//! agents whose rounded position falls in it.  Cells exist only while they
//! are non-empty, and an agent kept up to date through `insert`, `remove`
//! and `update` sits in exactly one cell — the one named by its last
//! indexed position.

use vstd::prelude::*;
use std::collections::HashMap;
use crate::vec2::{srdiv, div_round, Vec2, COORD_LIMIT};

verus! {

broadcast use vstd::std_specs::hash::group_hash_axioms;

/// Grid coordinates of one cell.
#[derive(Clone, Copy, PartialEq, Eq, Structural, Debug)]
pub struct CellKey {
    pub x: i32,
    pub y: i32,
}

/// `v` fits in a 32-bit signed integer.
pub open spec fn in_i32(v: int) -> bool {
    -0x8000_0000 <= v < 0x8000_0000
}

/// Cell coordinates packed into one map key; a bijection on pairs of
/// 32-bit coordinates.
pub open spec fn spec_pack(x: int, y: int) -> u64 {
    ((x + 0x8000_0000) * 0x1_0000_0000 + (y + 0x8000_0000)) as u64
}

/// Distinct in-range coordinate pairs pack to distinct keys.
pub proof fn lemma_pack_injective()
    ensures
        forall|x1: int, y1: int, x2: int, y2: int|
            in_i32(x1) && in_i32(y1) && in_i32(x2) && in_i32(y2) && #[trigger] spec_pack(x1, y1)
                == #[trigger] spec_pack(x2, y2) ==> x1 == x2 && y1 == y2,
{
    assert forall|x1: int, y1: int, x2: int, y2: int|
        in_i32(x1) && in_i32(y1) && in_i32(x2) && in_i32(y2) && #[trigger] spec_pack(x1, y1)
            == #[trigger] spec_pack(x2, y2) implies x1 == x2 && y1 == y2 by {
        let a1 = x1 + 0x8000_0000;
        let b1 = y1 + 0x8000_0000;
        let a2 = x2 + 0x8000_0000;
        let b2 = y2 + 0x8000_0000;
        assert(0 <= a1 * 0x1_0000_0000 + b1 < 0x1_0000_0000_0000_0000 && 0 <= a2 * 0x1_0000_0000
            + b2 < 0x1_0000_0000_0000_0000) by (nonlinear_arith)
            requires
                0 <= a1 < 0x1_0000_0000,
                0 <= b1 < 0x1_0000_0000,
                0 <= a2 < 0x1_0000_0000,
                0 <= b2 < 0x1_0000_0000,
        ;
        assert(a1 == a2 && b1 == b2) by (nonlinear_arith)
            requires
                0 <= a1 < 0x1_0000_0000,
                0 <= b1 < 0x1_0000_0000,
                0 <= a2 < 0x1_0000_0000,
                0 <= b2 < 0x1_0000_0000,
                a1 * 0x1_0000_0000 + b1 == a2 * 0x1_0000_0000 + b2,
        ;
    }
}

/// Packs a cell key for use in the backing hash map.
fn pack_key(k: CellKey) -> (r: u64)
    ensures
        r == spec_pack(k.x as int, k.y as int),
{
    let xu: u64 = ((k.x as i64) + 0x8000_0000) as u64;
    let yu: u64 = ((k.y as i64) + 0x8000_0000) as u64;
    xu * 0x1_0000_0000 + yu
}

/// A sparse spatial hash over fixed-point positions: each cell of side
/// `cell_size` subunits lists the agents last indexed inside it.
pub struct SparseSpatialHash {
    /// Side of one grid cell, in subunits.
    pub cell_size: i64,
    /// The backing map from packed cell coordinates to cell contents.
    pub grid: HashMap<u64, Vec<usize>>,
}

/// The cells of `a` and `b` at `(cx, cy)` agree: present in one exactly
/// when present in the other, and with the same contents.
pub open spec fn same_cell(a: SparseSpatialHash, b: SparseSpatialHash, cx: int, cy: int) -> bool {
    &&& (a.has_cell(cx, cy) <==> b.has_cell(cx, cy))
    &&& (a.has_cell(cx, cy) ==> a.cell_at(cx, cy) == b.cell_at(cx, cy))
}

impl SparseSpatialHash {
    /// The grid holds a cell at `(cx, cy)`.
    pub open spec fn has_cell(self, cx: int, cy: int) -> bool {
        &&& in_i32(cx)
        &&& in_i32(cy)
        &&& self.grid@.contains_key(spec_pack(cx, cy))
    }

    /// The agents listed in the cell at `(cx, cy)`, in insertion order.
    pub open spec fn cell_at(self, cx: int, cy: int) -> Seq<usize> {
        self.grid@[spec_pack(cx, cy)]@
    }

    /// Well-formed: a positive cell size and no empty cells.
    pub open spec fn wf(self) -> bool {
        &&& 1 <= self.cell_size <= COORD_LIMIT
        &&& forall|k: u64| self.grid@.contains_key(k) ==> #[trigger] self.grid@[k]@.len() > 0
    }

    /// The grid coordinate of a position along one axis: the position
    /// divided by the cell size, rounded to the nearest integer.
    pub open spec fn spec_coord(self, p: int) -> int {
        srdiv(p, self.cell_size as int)
    }

    /// How `insert(e, p)` turns `h1` into `h2`: `e` is appended to the
    /// cell covering `p` (created if absent); every other cell is kept.
    pub open spec fn inserted(h1: Self, h2: Self, e: usize, p: Vec2) -> bool {
        let kx = h1.spec_coord(p.x as int);
        let ky = h1.spec_coord(p.y as int);
        &&& h2.has_cell(kx, ky)
        &&& h2.cell_at(kx, ky) == if h1.has_cell(kx, ky) {
            h1.cell_at(kx, ky).push(e)
        } else {
            seq![e]
        }
        &&& forall|cx: int, cy: int|
            !(cx == kx && cy == ky) ==> #[trigger] same_cell(h1, h2, cx, cy)
    }

    /// How `remove(e, p)` turns `h1` into `h2`: the first occurrence of
    /// `e` leaves the cell covering `p`, the cell is deleted once empty,
    /// every other cell is kept; a no-op when `e` is not listed there.
    pub open spec fn removed(h1: Self, h2: Self, e: usize, p: Vec2) -> bool {
        let kx = h1.spec_coord(p.x as int);
        let ky = h1.spec_coord(p.y as int);
        let s = h1.cell_at(kx, ky);
        &&& (forall|cx: int, cy: int|
            !(cx == kx && cy == ky) ==> #[trigger] same_cell(h1, h2, cx, cy))
        &&& if h1.has_cell(kx, ky) && s.contains(e) {
            let rest = s.remove(s.index_of_first(e).unwrap());
            &&& (rest.len() == 0 ==> !h2.has_cell(kx, ky))
            &&& (rest.len() > 0 ==> h2.has_cell(kx, ky) && h2.cell_at(kx, ky) == rest)
        } else {
            same_cell(h1, h2, kx, ky)
        }
    }

    /// How `update(e, op, np)` turns `h1` into `h2`: nothing when both
    /// positions round to the same cell, otherwise a remove at `op`
    /// followed by an insert at `np`.
    pub open spec fn updated(h1: Self, h2: Self, e: usize, op: Vec2, np: Vec2) -> bool {
        let ox = h1.spec_coord(op.x as int);
        let oy = h1.spec_coord(op.y as int);
        let nx = h1.spec_coord(np.x as int);
        let ny = h1.spec_coord(np.y as int);
        if ox == nx && oy == ny {
            h2 == h1
        } else {
            let s = h1.cell_at(ox, oy);
            &&& (forall|cx: int, cy: int|
                !(cx == ox && cy == oy) && !(cx == nx && cy == ny) ==> #[trigger] same_cell(
                    h1,
                    h2,
                    cx,
                    cy,
                ))
            &&& h2.has_cell(nx, ny)
            &&& h2.cell_at(nx, ny) == if h1.has_cell(nx, ny) {
                h1.cell_at(nx, ny).push(e)
            } else {
                seq![e]
            }
            &&& if h1.has_cell(ox, oy) && s.contains(e) {
                let rest = s.remove(s.index_of_first(e).unwrap());
                &&& (rest.len() == 0 ==> !h2.has_cell(ox, oy))
                &&& (rest.len() > 0 ==> h2.has_cell(ox, oy) && h2.cell_at(ox, oy) == rest)
            } else {
                same_cell(h1, h2, ox, oy)
            }
        }
    }

    /// An empty index with the given cell size.
    pub fn new(cell_size: i64) -> (r: Self)
        requires
            1 <= cell_size <= COORD_LIMIT,
        ensures
            r.wf(),
            r.cell_size == cell_size,
            forall|cx: int, cy: int| !r.has_cell(cx, cy),
    {
        SparseSpatialHash { cell_size, grid: HashMap::new() }
    }

    /// The key of the cell covering `position`; pure, no side effects.
    pub fn get_index(&self, position: Vec2) -> (r: CellKey)
        requires
            self.cell_size >= 1,
            position.in_range(COORD_LIMIT as int),
        ensures
            r.x as int == self.spec_coord(position.x as int),
            r.y as int == self.spec_coord(position.y as int),
            -(COORD_LIMIT as int) <= r.x as int <= COORD_LIMIT as int,
            -(COORD_LIMIT as int) <= r.y as int <= COORD_LIMIT as int,
    {
        let cx = div_round(position.x, self.cell_size);
        let cy = div_round(position.y, self.cell_size);
        CellKey { x: cx as i32, y: cy as i32 }
    }

    /// Appends `entity` to the cell covering `position`, creating the
    /// cell if absent.  The caller must not double-insert an agent.
    pub fn insert(&mut self, entity: usize, position: Vec2)
        requires
            old(self).wf(),
            position.in_range(COORD_LIMIT as int),
        ensures
            final(self).wf(),
            final(self).cell_size == old(self).cell_size,
            Self::inserted(*old(self), *final(self), entity, position),
    {
        let key = self.get_index(position);
        let k = pack_key(key);
        proof {
            lemma_pack_injective();
        }
        match self.grid.remove(&k) {
            Some(mut cell) => {
                cell.push(entity);
                self.grid.insert(k, cell);
            },
            None => {
                let mut cell: Vec<usize> = Vec::new();
                cell.push(entity);
                proof {
                    assert(cell@ =~= seq![entity]);
                }
                self.grid.insert(k, cell);
            },
        }
    }

    /// Removes `entity` from the cell covering `position`; deletes the
    /// cell once it is empty.  When the cell does not list the agent —
    /// the index and the caller's positions have desynchronized — the
    /// call is a recoverable no-op rather than a failure.
    pub fn remove(&mut self, entity: usize, position: Vec2)
        requires
            old(self).wf(),
            position.in_range(COORD_LIMIT as int),
        ensures
            final(self).wf(),
            final(self).cell_size == old(self).cell_size,
            Self::removed(*old(self), *final(self), entity, position),
    {
        let key = self.get_index(position);
        let k = pack_key(key);
        let ghost kx = old(self).spec_coord(position.x as int);
        let ghost ky = old(self).spec_coord(position.y as int);
        proof {
            lemma_pack_injective();
        }
        match self.grid.remove(&k) {
            Some(mut cell) => {
                let ghost s = cell@;
                let mut i: usize = 0;
                while i < cell.len() && *vstd::slice::slice_index_get(cell.as_slice(), i) != entity
                    invariant
                        0 <= i <= cell@.len(),
                        cell@ == s,
                        forall|j: int| 0 <= j < i ==> s[j] != entity,
                    decreases cell@.len() - i,
                {
                    i = i + 1;
                }
                proof {
                    s.index_of_first_ensures(entity);
                }
                if i < cell.len() {
                    cell.remove(i);
                    if cell.len() > 0 {
                        self.grid.insert(k, cell);
                    }
                } else {
                    assert(!s.contains(entity));
                    self.grid.insert(k, cell);
                    proof {
                        assert(self.grid@ =~= old(self).grid@);
                    }
                }
            },
            None => {
                proof {
                    assert(self.grid@ =~= old(self).grid@);
                }
            },
        }
    }

    /// Moves `entity` from its old cell to the cell covering
    /// `new_position`; does nothing when both positions round to the
    /// same cell, the dominant case for slow-moving agents.
    pub fn update(&mut self, entity: usize, old_position: Vec2, new_position: Vec2)
        requires
            old(self).wf(),
            old_position.in_range(COORD_LIMIT as int),
            new_position.in_range(COORD_LIMIT as int),
        ensures
            final(self).wf(),
            final(self).cell_size == old(self).cell_size,
            Self::updated(*old(self), *final(self), entity, old_position, new_position),
    {
        let old_key = self.get_index(old_position);
        let new_key = self.get_index(new_position);
        let ghost ox = old(self).spec_coord(old_position.x as int);
        let ghost oy = old(self).spec_coord(old_position.y as int);
        let ghost nx = old(self).spec_coord(new_position.x as int);
        let ghost ny = old(self).spec_coord(new_position.y as int);
        if old_key.x != new_key.x || old_key.y != new_key.y {
            self.remove(entity, old_position);
            let ghost mid = *self;
            self.insert(entity, new_position);
            proof {
                assert(same_cell(*old(self), mid, nx, ny));
                assert(same_cell(mid, *self, ox, oy));
                assert forall|cx: int, cy: int|
                    !(cx == ox && cy == oy) && !(cx == nx && cy == ny) implies #[trigger] same_cell(
                    *old(self),
                    *self,
                    cx,
                    cy,
                ) by {
                    assert(same_cell(*old(self), mid, cx, cy));
                    assert(same_cell(mid, *self, cx, cy));
                }
            }
        }
    }

    /// The contents of the cell with the given key, if it exists.
    pub fn get_cell(&self, index: CellKey) -> (r: Option<Vec<usize>>)
        ensures
            match r {
                Some(v) => self.has_cell(index.x as int, index.y as int) && v@ == self.cell_at(
                    index.x as int,
                    index.y as int,
                ),
                None => !self.has_cell(index.x as int, index.y as int),
            },
    {
        let k = pack_key(index);
        match self.grid.get(&k) {
            Some(v) => Some(v.clone()),
            None => None,
        }
    }

    /// The contents of all existing cells in the 3-by-3 block centered
    /// on the cell covering `position`; missing cells are skipped.  Every
    /// agent listed in the block appears in the result and no other does.
    pub fn get_neighbors(&self, position: Vec2) -> (r: Vec<Vec<usize>>)
        requires
            self.wf(),
            position.in_range(COORD_LIMIT as int),
        ensures
            ({
                let kx = self.spec_coord(position.x as int);
                let ky = self.spec_coord(position.y as int);
                &&& r@.len() <= 9
                &&& forall|j: int|
                    0 <= j < r@.len() ==> cell_from_block(*self, kx, ky, #[trigger] r@[j]@)
                &&& forall|cx: int, cy: int|
                    kx - 1 <= cx <= kx + 1 && ky - 1 <= cy <= ky + 1 && #[trigger] self.has_cell(
                        cx,
                        cy,
                    ) ==> exists|j: int| 0 <= j < r@.len() && r@[j]@ == self.cell_at(cx, cy)
                &&& forall|e: usize|
                    (exists|j: int| 0 <= j < r@.len() && #[trigger] r@[j]@.contains(e))
                        <==> in_block(*self, kx, ky, e)
            }),
    {
        let center = self.get_index(position);
        let ghost kx = self.spec_coord(position.x as int);
        let ghost ky = self.spec_coord(position.y as int);
        let mut result: Vec<Vec<usize>> = Vec::new();
        let mut dx: i32 = -1;
        while dx <= 1
            invariant
                self.wf(),
                position.in_range(COORD_LIMIT as int),
                kx == self.spec_coord(position.x as int),
                ky == self.spec_coord(position.y as int),
                center.x as int == kx,
                center.y as int == ky,
                -1_000_000_001 <= kx <= 1_000_000_001,
                -1_000_000_001 <= ky <= 1_000_000_001,
                -1 <= dx <= 2,
                result@.len() <= 3 * (dx + 1),
                forall|j: int|
                    0 <= j < result@.len() ==> cell_from_block(*self, kx, ky, #[trigger] result@[j]@),
                forall|cx: int, cy: int|
                    kx - 1 <= cx < kx + dx && ky - 1 <= cy <= ky + 1 && #[trigger] self.has_cell(
                        cx,
                        cy,
                    ) ==> exists|j: int| 0 <= j < result@.len() && result@[j]@ == self.cell_at(cx, cy),
            decreases 2 - dx,
        {
            let mut dy: i32 = -1;
            while dy <= 1
                invariant
                    self.wf(),
                    position.in_range(COORD_LIMIT as int),
                    kx == self.spec_coord(position.x as int),
                    ky == self.spec_coord(position.y as int),
                    center.x as int == kx,
                    center.y as int == ky,
                    -1_000_000_001 <= kx <= 1_000_000_001,
                    -1_000_000_001 <= ky <= 1_000_000_001,
                    -1 <= dx <= 1,
                    -1 <= dy <= 2,
                    result@.len() <= 3 * (dx + 1) + (dy + 1),
                    forall|j: int|
                        0 <= j < result@.len() ==> cell_from_block(
                            *self,
                            kx,
                            ky,
                            #[trigger] result@[j]@,
                        ),
                    forall|cx: int, cy: int|
                        kx - 1 <= cx < kx + dx && ky - 1 <= cy <= ky + 1
                            && #[trigger] self.has_cell(cx, cy) ==> exists|j: int|
                            0 <= j < result@.len() && result@[j]@ == self.cell_at(cx, cy),
                    forall|cy: int|
                        ky - 1 <= cy < ky + dy && #[trigger] self.has_cell(kx + dx, cy) ==> exists|
                            j: int,
                        | 0 <= j < result@.len() && result@[j]@ == self.cell_at(kx + dx, cy),
                decreases 2 - dy,
            {
                let key = CellKey { x: center.x + dx, y: center.y + dy };
                match self.get_cell(key) {
                    Some(cell) => {
                        let ghost prev = result@;
                        result.push(cell);
                        proof {
                            assert(result@[prev.len() as int]@ == self.cell_at(
                                kx + dx,
                                ky + dy,
                            ));
                            assert forall|j: int| 0 <= j < result@.len() implies cell_from_block(
                                *self,
                                kx,
                                ky,
                                #[trigger] result@[j]@,
                            ) by {
                                if j < prev.len() {
                                    assert(result@[j] == prev[j]);
                                } else {
                                    assert(self.has_cell(kx + dx, ky + dy) && self.cell_at(
                                        kx + dx,
                                        ky + dy,
                                    ) == result@[j]@);
                                }
                            }
                            assert forall|cx2: int, cy2: int|
                                kx - 1 <= cx2 < kx + dx && ky - 1 <= cy2 <= ky + 1
                                    && #[trigger] self.has_cell(cx2, cy2) implies exists|j: int|
                                0 <= j < result@.len() && result@[j]@ == self.cell_at(
                                    cx2,
                                    cy2,
                                ) by {
                                let j = choose|j: int|
                                    0 <= j < prev.len() && prev[j]@ == self.cell_at(cx2, cy2);
                                assert(result@[j]@ == self.cell_at(cx2, cy2));
                            }
                            assert forall|cy2: int|
                                ky - 1 <= cy2 < ky + dy + 1 && #[trigger] self.has_cell(
                                    kx + dx,
                                    cy2,
                                ) implies exists|j: int|
                                0 <= j < result@.len() && result@[j]@ == self.cell_at(
                                    kx + dx,
                                    cy2,
                                ) by {
                                if cy2 < ky + dy {
                                    let j = choose|j: int|
                                        0 <= j < prev.len() && prev[j]@ == self.cell_at(
                                            kx + dx,
                                            cy2,
                                        );
                                    assert(result@[j]@ == self.cell_at(kx + dx, cy2));
                                } else {
                                    assert(result@[prev.len() as int]@ == self.cell_at(
                                        kx + dx,
                                        cy2,
                                    ));
                                }
                            }
                        }
                    },
                    None => (),
                }
                dy = dy + 1;
            }
            dx = dx + 1;
        }
        proof {
            assert forall|e: usize|
                (exists|j: int| 0 <= j < result@.len() && #[trigger] result@[j]@.contains(e))
                    <==> in_block(*self, kx, ky, e) by {
                if exists|j: int| 0 <= j < result@.len() && #[trigger] result@[j]@.contains(e) {
                    let j = choose|j: int|
                        0 <= j < result@.len() && #[trigger] result@[j]@.contains(e);
                    assert(cell_from_block(*self, kx, ky, result@[j]@));
                    let (cx, cy) = choose|cx: int, cy: int|
                        kx - 1 <= cx <= kx + 1 && ky - 1 <= cy <= ky + 1 && #[trigger] self.has_cell(
                            cx,
                            cy,
                        ) && self.cell_at(cx, cy) == result@[j]@;
                    assert(in_block(*self, kx, ky, e));
                }
                if in_block(*self, kx, ky, e) {
                    let (cx, cy) = choose|cx: int, cy: int|
                        kx - 1 <= cx <= kx + 1 && ky - 1 <= cy <= ky + 1 && #[trigger] self.has_cell(
                            cx,
                            cy,
                        ) && self.cell_at(cx, cy).contains(e);
                    let j = choose|j: int|
                        0 <= j < result@.len() && result@[j]@ == self.cell_at(cx, cy);
                    assert(result@[j]@.contains(e));
                }
            }
        }
        result
    }
}

/// The cell contents `c` equal those of some existing cell in the
/// 3-by-3 block centered on `(kx, ky)`.
pub open spec fn cell_from_block(h: SparseSpatialHash, kx: int, ky: int, c: Seq<usize>) -> bool {
    exists|cx: int, cy: int|
        kx - 1 <= cx <= kx + 1 && ky - 1 <= cy <= ky + 1 && #[trigger] h.has_cell(cx, cy)
            && h.cell_at(cx, cy) == c
}

/// Agent `e` is listed in some existing cell of the 3-by-3 block
/// centered on `(kx, ky)`.
pub open spec fn in_block(h: SparseSpatialHash, kx: int, ky: int, e: usize) -> bool {
    exists|cx: int, cy: int|
        kx - 1 <= cx <= kx + 1 && ky - 1 <= cy <= ky + 1 && #[trigger] h.has_cell(cx, cy)
            && h.cell_at(cx, cy).contains(e)
}

impl Default for SparseSpatialHash {
    /// An empty index whose cells are 100 world units wide.
    fn default() -> (r: Self)
        ensures
            r.wf(),
            r.cell_size == 100 * crate::vec2::SCALE,
            forall|cx: int, cy: int| !r.has_cell(cx, cy),
    {
        SparseSpatialHash::new(100 * crate::vec2::SCALE)
    }
}

impl SparseSpatialHash {
    /// The index lists agent `e` exactly once, in the cell covering `p`.
    pub open spec fn tracks(self, e: usize, p: Vec2) -> bool {
        let kx = self.spec_coord(p.x as int);
        let ky = self.spec_coord(p.y as int);
        &&& self.has_cell(kx, ky)
        &&& self.cell_at(kx, ky).to_multiset().count(e) == 1
        &&& forall|cx: int, cy: int|
            !(cx == kx && cy == ky) && #[trigger] self.has_cell(cx, cy) ==> !self.cell_at(
                cx,
                cy,
            ).contains(e)
    }

    /// The index lists agent `e` nowhere.
    pub open spec fn untracked(self, e: usize) -> bool {
        forall|cx: int, cy: int|
            #[trigger] self.has_cell(cx, cy) ==> !self.cell_at(cx, cy).contains(e)
    }
}

/// No empty cells: a well-formed index never holds a cell key whose
/// agent list is empty.
pub proof fn lemma_no_empty_cells(h: SparseSpatialHash, cx: int, cy: int)
    requires
        h.wf(),
        h.has_cell(cx, cy),
    ensures
        h.cell_at(cx, cy).len() > 0,
{
}

/// Index consistency, registration: inserting an agent the index does
/// not yet list leaves it tracked exactly once, in the cell of the
/// position it was inserted under.
pub proof fn lemma_insert_fresh_tracks(
    h1: SparseSpatialHash,
    h2: SparseSpatialHash,
    e: usize,
    p: Vec2,
)
    requires
        SparseSpatialHash::inserted(h1, h2, e, p),
        h2.cell_size == h1.cell_size,
        h1.untracked(e),
    ensures
        h2.tracks(e, p),
{
    broadcast use vstd::seq_lib::group_to_multiset_ensures;

    let kx = h1.spec_coord(p.x as int);
    let ky = h1.spec_coord(p.y as int);
    if h1.has_cell(kx, ky) {
        let s = h1.cell_at(kx, ky);
        assert(s.to_multiset().count(e) == 0);
        assert(h2.cell_at(kx, ky).to_multiset() =~= s.to_multiset().insert(e));
    } else {
        assert(seq![e] =~= Seq::<usize>::empty().push(e));
        assert(h2.cell_at(kx, ky).to_multiset() =~= Seq::<usize>::empty().to_multiset().insert(e));
        assert(Seq::<usize>::empty().to_multiset().count(e) == 0);
    }
    assert forall|cx: int, cy: int|
        !(cx == kx && cy == ky) && #[trigger] h2.has_cell(cx, cy) implies !h2.cell_at(
        cx,
        cy,
    ).contains(e) by {
        assert(same_cell(h1, h2, cx, cy));
    }
}

/// Index consistency, preservation: inserting one agent does not
/// disturb how any other agent is tracked.
pub proof fn lemma_insert_preserves_tracks(
    h1: SparseSpatialHash,
    h2: SparseSpatialHash,
    e: usize,
    p: Vec2,
    e2: usize,
    p2: Vec2,
)
    requires
        SparseSpatialHash::inserted(h1, h2, e, p),
        h2.cell_size == h1.cell_size,
        h1.tracks(e2, p2),
        e2 != e,
    ensures
        h2.tracks(e2, p2),
{
    broadcast use vstd::seq_lib::group_to_multiset_ensures;

    let kx = h1.spec_coord(p.x as int);
    let ky = h1.spec_coord(p.y as int);
    let k2x = h1.spec_coord(p2.x as int);
    let k2y = h1.spec_coord(p2.y as int);
    if h1.has_cell(kx, ky) {
        assert(h2.cell_at(kx, ky).to_multiset() =~= h1.cell_at(kx, ky).to_multiset().insert(e));
    } else {
        assert(seq![e] =~= Seq::<usize>::empty().push(e));
        assert(h2.cell_at(kx, ky).to_multiset() =~= Seq::<usize>::empty().to_multiset().insert(e));
        assert(Seq::<usize>::empty().to_multiset().count(e2) == 0);
    }
    if kx == k2x && ky == k2y {
        assert(h2.cell_at(k2x, k2y).to_multiset().count(e2) == 1);
    } else {
        assert(same_cell(h1, h2, k2x, k2y));
        assert(!h2.cell_at(kx, ky).contains(e2));
    }
    assert forall|cx: int, cy: int|
        !(cx == k2x && cy == k2y) && #[trigger] h2.has_cell(cx, cy) implies !h2.cell_at(
        cx,
        cy,
    ).contains(e2) by {
        if cx == kx && cy == ky {
            assert(h2.cell_at(kx, ky).to_multiset().count(e2) == 0);
        } else {
            assert(same_cell(h1, h2, cx, cy));
        }
    }
}

/// Index consistency, preservation: inserting one agent keeps every
/// other unlisted agent unlisted.
pub proof fn lemma_insert_preserves_untracked(
    h1: SparseSpatialHash,
    h2: SparseSpatialHash,
    e: usize,
    p: Vec2,
    e2: usize,
)
    requires
        SparseSpatialHash::inserted(h1, h2, e, p),
        h2.cell_size == h1.cell_size,
        h1.untracked(e2),
        e2 != e,
    ensures
        h2.untracked(e2),
{
    broadcast use vstd::seq_lib::group_to_multiset_ensures;

    let kx = h1.spec_coord(p.x as int);
    let ky = h1.spec_coord(p.y as int);
    if h1.has_cell(kx, ky) {
        assert(h2.cell_at(kx, ky).to_multiset() =~= h1.cell_at(kx, ky).to_multiset().insert(e));
        assert(h1.cell_at(kx, ky).to_multiset().count(e2) == 0);
    } else {
        assert(seq![e] =~= Seq::<usize>::empty().push(e));
        assert(h2.cell_at(kx, ky).to_multiset() =~= Seq::<usize>::empty().to_multiset().insert(e));
        assert(Seq::<usize>::empty().to_multiset().count(e2) == 0);
    }
    assert forall|cx: int, cy: int| #[trigger] h2.has_cell(cx, cy) implies !h2.cell_at(
        cx,
        cy,
    ).contains(e2) by {
        if cx == kx && cy == ky {
            assert(h2.cell_at(kx, ky).to_multiset().count(e2) == 0);
        } else {
            assert(same_cell(h1, h2, cx, cy));
        }
    }
}

/// Index consistency, removal: removing a tracked agent leaves it
/// listed nowhere in the index.
pub proof fn lemma_remove_untracks(
    h1: SparseSpatialHash,
    h2: SparseSpatialHash,
    e: usize,
    p: Vec2,
)
    requires
        SparseSpatialHash::removed(h1, h2, e, p),
        h2.cell_size == h1.cell_size,
        h1.tracks(e, p),
    ensures
        h2.untracked(e),
{
    broadcast use vstd::seq_lib::group_to_multiset_ensures;

    let kx = h1.spec_coord(p.x as int);
    let ky = h1.spec_coord(p.y as int);
    let s = h1.cell_at(kx, ky);
    assert(s.contains(e));
    s.index_of_first_ensures(e);
    let i = s.index_of_first(e).unwrap();
    let rest = s.remove(i);
    assert(rest.to_multiset() =~= s.to_multiset().remove(e));
    assert(rest.to_multiset().count(e) == 0);
    assert forall|cx: int, cy: int| #[trigger] h2.has_cell(cx, cy) implies !h2.cell_at(
        cx,
        cy,
    ).contains(e) by {
        if cx == kx && cy == ky {
            assert(h2.cell_at(kx, ky) == rest);
        } else {
            assert(same_cell(h1, h2, cx, cy));
        }
    }
}

/// Index consistency, removal preservation: removing one agent does not
/// disturb how any other agent is tracked.
pub proof fn lemma_remove_preserves_tracks(
    h1: SparseSpatialHash,
    h2: SparseSpatialHash,
    e: usize,
    p: Vec2,
    e2: usize,
    p2: Vec2,
)
    requires
        SparseSpatialHash::removed(h1, h2, e, p),
        h2.cell_size == h1.cell_size,
        h1.tracks(e2, p2),
        e2 != e,
    ensures
        h2.tracks(e2, p2),
{
    broadcast use vstd::seq_lib::group_to_multiset_ensures;

    let kx = h1.spec_coord(p.x as int);
    let ky = h1.spec_coord(p.y as int);
    let k2x = h1.spec_coord(p2.x as int);
    let k2y = h1.spec_coord(p2.y as int);
    let s = h1.cell_at(kx, ky);
    if h1.has_cell(kx, ky) && s.contains(e) {
        s.index_of_first_ensures(e);
        let i = s.index_of_first(e).unwrap();
        let rest = s.remove(i);
        assert(rest.to_multiset() =~= s.to_multiset().remove(e));
        if kx == k2x && ky == k2y {
            assert(rest.to_multiset().count(e2) == 1);
            assert(rest.contains(e2));
            assert(rest.len() > 0);
        } else {
            assert(same_cell(h1, h2, k2x, k2y));
        }
        assert forall|cx: int, cy: int|
            !(cx == k2x && cy == k2y) && #[trigger] h2.has_cell(cx, cy) implies !h2.cell_at(
            cx,
            cy,
        ).contains(e2) by {
            if cx == kx && cy == ky {
                assert(h2.has_cell(kx, ky) ==> rest.len() > 0 && h2.cell_at(kx, ky) == rest);
                assert(s.to_multiset().count(e2) == 0) by {
                    assert(!s.contains(e2));
                }
                assert(rest.to_multiset().count(e2) == 0);
            } else {
                assert(same_cell(h1, h2, cx, cy));
            }
        }
    } else {
        assert(same_cell(h1, h2, kx, ky));
        assert forall|cx: int, cy: int|
            !(cx == k2x && cy == k2y) && #[trigger] h2.has_cell(cx, cy) implies !h2.cell_at(
            cx,
            cy,
        ).contains(e2) by {
            assert(same_cell(h1, h2, cx, cy));
        }
        assert(same_cell(h1, h2, k2x, k2y));
    }
}

/// Index consistency, movement: updating a tracked agent from its old
/// position to a new one leaves it tracked exactly once, in the cell of
/// the new position.
pub proof fn lemma_update_tracks(
    h1: SparseSpatialHash,
    h2: SparseSpatialHash,
    e: usize,
    op: Vec2,
    np: Vec2,
)
    requires
        SparseSpatialHash::updated(h1, h2, e, op, np),
        h2.cell_size == h1.cell_size,
        h1.tracks(e, op),
    ensures
        h2.tracks(e, np),
{
    broadcast use vstd::seq_lib::group_to_multiset_ensures;

    let ox = h1.spec_coord(op.x as int);
    let oy = h1.spec_coord(op.y as int);
    let nx = h1.spec_coord(np.x as int);
    let ny = h1.spec_coord(np.y as int);
    if ox == nx && oy == ny {
        assert(h2 == h1);
    } else {
        let s = h1.cell_at(ox, oy);
        assert(s.contains(e));
        s.index_of_first_ensures(e);
        let i = s.index_of_first(e).unwrap();
        let rest = s.remove(i);
        assert(rest.to_multiset() =~= s.to_multiset().remove(e));
        assert(rest.to_multiset().count(e) == 0);
        if h1.has_cell(nx, ny) {
            assert(!h1.cell_at(nx, ny).contains(e));
            assert(h1.cell_at(nx, ny).to_multiset().count(e) == 0);
            assert(h2.cell_at(nx, ny).to_multiset() =~= h1.cell_at(nx, ny).to_multiset().insert(
                e,
            ));
        } else {
            assert(seq![e] =~= Seq::<usize>::empty().push(e));
            assert(h2.cell_at(nx, ny).to_multiset() =~= Seq::<usize>::empty().to_multiset().insert(
                e,
            ));
            assert(Seq::<usize>::empty().to_multiset().count(e) == 0);
        }
        assert(h2.cell_at(nx, ny).to_multiset().count(e) == 1);
        assert forall|cx: int, cy: int|
            !(cx == nx && cy == ny) && #[trigger] h2.has_cell(cx, cy) implies !h2.cell_at(
            cx,
            cy,
        ).contains(e) by {
            if cx == ox && cy == oy {
                assert(h2.has_cell(ox, oy) ==> h2.cell_at(ox, oy) == rest);
            } else {
                assert(same_cell(h1, h2, cx, cy));
            }
        }
    }
}

/// Index consistency, movement preservation: updating one agent does
/// not disturb how any other agent is tracked.
pub proof fn lemma_update_preserves_tracks(
    h1: SparseSpatialHash,
    h2: SparseSpatialHash,
    e: usize,
    op: Vec2,
    np: Vec2,
    e2: usize,
    p2: Vec2,
)
    requires
        SparseSpatialHash::updated(h1, h2, e, op, np),
        h2.cell_size == h1.cell_size,
        h1.tracks(e2, p2),
        e2 != e,
    ensures
        h2.tracks(e2, p2),
{
    broadcast use vstd::seq_lib::group_to_multiset_ensures;

    let ox = h1.spec_coord(op.x as int);
    let oy = h1.spec_coord(op.y as int);
    let nx = h1.spec_coord(np.x as int);
    let ny = h1.spec_coord(np.y as int);
    let k2x = h1.spec_coord(p2.x as int);
    let k2y = h1.spec_coord(p2.y as int);
    if ox == nx && oy == ny {
        assert(h2 == h1);
    } else {
        let s = h1.cell_at(ox, oy);
        let rem_fired = h1.has_cell(ox, oy) && s.contains(e);
        if rem_fired {
            s.index_of_first_ensures(e);
            let i = s.index_of_first(e).unwrap();
            let rest = s.remove(i);
            assert(rest.to_multiset() =~= s.to_multiset().remove(e));
            assert(rest.to_multiset().count(e2) == s.to_multiset().count(e2));
        }
        if h1.has_cell(nx, ny) {
            assert(h2.cell_at(nx, ny).to_multiset() =~= h1.cell_at(nx, ny).to_multiset().insert(
                e,
            ));
        } else {
            assert(seq![e] =~= Seq::<usize>::empty().push(e));
            assert(h2.cell_at(nx, ny).to_multiset() =~= Seq::<usize>::empty().to_multiset().insert(
                e,
            ));
            assert(Seq::<usize>::empty().to_multiset().count(e2) == 0);
        }
        assert(h2.cell_at(nx, ny).to_multiset().count(e2) == if h1.has_cell(nx, ny) {
            h1.cell_at(nx, ny).to_multiset().count(e2)
        } else {
            0nat
        });
        if k2x == nx && k2y == ny {
            assert(h1.has_cell(nx, ny));
            assert(h2.cell_at(k2x, k2y).to_multiset().count(e2) == 1);
        } else if k2x == ox && k2y == oy {
            assert(rem_fired ==> {
                let rest = s.remove(s.index_of_first(e).unwrap());
                rest.to_multiset().count(e2) == 1 && rest.contains(e2) && rest.len() > 0
            });
            assert(!rem_fired ==> same_cell(h1, h2, k2x, k2y));
            assert(h2.has_cell(k2x, k2y) && h2.cell_at(k2x, k2y).to_multiset().count(e2) == 1);
        } else {
            assert(same_cell(h1, h2, k2x, k2y));
        }
        assert forall|cx: int, cy: int|
            !(cx == k2x && cy == k2y) && #[trigger] h2.has_cell(cx, cy) implies !h2.cell_at(
            cx,
            cy,
        ).contains(e2) by {
            if cx == nx && cy == ny {
                assert(h1.has_cell(nx, ny) ==> !h1.cell_at(nx, ny).contains(e2));
                assert(h1.has_cell(nx, ny) ==> h1.cell_at(nx, ny).to_multiset().count(e2) == 0);
                assert(h2.cell_at(nx, ny).to_multiset().count(e2) == 0);
            } else if cx == ox && cy == oy {
                if rem_fired {
                    let rest = s.remove(s.index_of_first(e).unwrap());
                    assert(h2.has_cell(ox, oy) ==> h2.cell_at(ox, oy) == rest);
                    assert(s.to_multiset().count(e2) == 0) by {
                        assert(!s.contains(e2));
                    }
                    assert(rest.to_multiset().count(e2) == 0);
                } else {
                    assert(same_cell(h1, h2, cx, cy));
                }
            } else {
                assert(same_cell(h1, h2, cx, cy));
            }
        }
    }
}

/// Neighbor coverage: when two agents' cells are at Chebyshev distance
/// at most one, each agent lies in the 3-by-3 block around the other's
/// cell, so a neighbor query from either position reports the other.
pub proof fn lemma_neighbor_coverage(h: SparseSpatialHash, pa: Vec2, pb: Vec2, b: usize)
    requires
        h.tracks(b, pb),
        ({
            let kax = h.spec_coord(pa.x as int);
            let kay = h.spec_coord(pa.y as int);
            let kbx = h.spec_coord(pb.x as int);
            let kby = h.spec_coord(pb.y as int);
            kax - 1 <= kbx <= kax + 1 && kay - 1 <= kby <= kay + 1
        }),
    ensures
        in_block(h, h.spec_coord(pa.x as int), h.spec_coord(pa.y as int), b),
{
    broadcast use vstd::seq_lib::group_to_multiset_ensures;

    let kbx = h.spec_coord(pb.x as int);
    let kby = h.spec_coord(pb.y as int);
    assert(h.cell_at(kbx, kby).contains(b));
    assert(h.has_cell(kbx, kby) && h.cell_at(kbx, kby).contains(b));
}

/// Neighbor locality: an agent whose cell is farther than one cell away
/// (Chebyshev distance above one) is not reported by a neighbor query.
pub proof fn lemma_neighbor_locality(h: SparseSpatialHash, pa: Vec2, pb: Vec2, b: usize)
    requires
        h.tracks(b, pb),
        ({
            let kax = h.spec_coord(pa.x as int);
            let kay = h.spec_coord(pa.y as int);
            let kbx = h.spec_coord(pb.x as int);
            let kby = h.spec_coord(pb.y as int);
            kbx < kax - 1 || kbx > kax + 1 || kby < kay - 1 || kby > kay + 1
        }),
    ensures
        !in_block(h, h.spec_coord(pa.x as int), h.spec_coord(pa.y as int), b),
{
    let kax = h.spec_coord(pa.x as int);
    let kay = h.spec_coord(pa.y as int);
    let kbx = h.spec_coord(pb.x as int);
    let kby = h.spec_coord(pb.y as int);
    assert forall|cx: int, cy: int|
        kax - 1 <= cx <= kax + 1 && kay - 1 <= cy <= kay + 1 && #[trigger] h.has_cell(cx, cy)
        implies !h.cell_at(cx, cy).contains(b) by {
        assert(!(cx == kbx && cy == kby));
    }
}

} // verus!
