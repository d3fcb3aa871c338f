//! A sparse 2D grid implemented as a hash map. This is used as the pruning
//! method to decide which hitboxes to check for collisions.
//!
//! The grid maps a cell and a group to the set of hitboxes of that group
//! whose bounding box reaches into the cell. Cells that nothing occupies are
//! not stored.
use fnv::FnvHashMap;
use fnv::FnvHashSet;
use vstd::prelude::*;
use crate::engine::HbGroup;
use crate::engine::HbId;
use crate::fnv_table::map_get;
use crate::fnv_table::map_insert;
use crate::fnv_table::map_remove;
use crate::fnv_table::set_insert;
use crate::fnv_table::set_with_capacity;
use crate::index_rect::lemma_cell_position;
use crate::index_rect::lemma_position_cell;
use crate::index_rect::lemma_successor;
use crate::index_rect::IndexRect;
use crate::util::lemma_take_ends;
use crate::util::lemma_take_step;
use crate::util::TightSet;

verus! {

/// The factor between the x coordinate and the rest in a cell's code.
pub const CELL_SHIFT_X: u128 = 0x1_0000_0000_0000_0000;

/// The factor between the y coordinate and the group in a cell's code.
pub const CELL_SHIFT_Y: u128 = 0x1_0000_0000;

/// One cell of the grid for one group.
#[derive(PartialEq, Eq, Structural, Copy, Clone, Debug)]
pub struct GridKey {
    /// The x index of the cell.
    pub x: i32,
    /// The y index of the cell.
    pub y: i32,
    /// The group.
    pub group: HbGroup,
}

/// The number under which the grid stores the cell `(x, y)` for `group`.
pub open spec fn cell_code(x: i32, y: i32, group: HbGroup) -> u128 {
    ((x + 0x8000_0000) * CELL_SHIFT_X + (y + 0x8000_0000) * CELL_SHIFT_Y + group) as u128
}

/// Different cells, or the same cell for different groups, have different
/// codes.
pub proof fn lemma_cell_code_injective(x1: i32, y1: i32, g1: HbGroup, x2: i32, y2: i32, g2: HbGroup)
    ensures
        cell_code(x1, y1, g1) == cell_code(x2, y2, g2) <==> (x1 == x2 && y1 == y2 && g1 == g2),
        cell_code(x1, y1, g1) == (x1 + 0x8000_0000) * CELL_SHIFT_X + (y1 + 0x8000_0000)
            * CELL_SHIFT_Y + g1,
{
}

impl GridKey {
    /// The number under which the grid stores the cell.
    pub fn code(self) -> (r: u128)
        ensures
            r == cell_code(self.x, self.y, self.group),
    {
        let ux: u128 = (self.x as i64 + 0x8000_0000) as u128;
        let uy: u128 = (self.y as i64 + 0x8000_0000) as u128;
        ux * CELL_SHIFT_X + uy * CELL_SHIFT_Y + (self.group as u128)
    }
}

/// The cells that one hitbox occupies: a rectangle of cells for one group.
#[derive(PartialEq, Eq, Structural, Copy, Clone, Debug)]
pub struct GridArea {
    /// The rectangle of cells.
    pub rect: IndexRect,
    /// The group.
    pub group: HbGroup,
}

impl GridArea {
    /// Whether the cell `(x, y)` for `group` belongs to the area.
    pub open spec fn covers(self, x: i32, y: i32, group: HbGroup) -> bool {
        self.group == group && self.rect.spec_contains((x, y))
    }

    /// Whether the cell of `key` belongs to the area.
    pub fn contains(&self, key: GridKey) -> (r: bool)
        ensures
            r == self.covers(key.x, key.y, key.group),
    {
        self.group == key.group && self.rect.contains((key.x, key.y))
    }
}

/// Whether the optional area `area` covers the cell `(x, y)` for `group`.
pub open spec fn area_covers(area: Option<GridArea>, x: i32, y: i32, group: HbGroup) -> bool {
    match area {
        Some(a) => a.covers(x, y, group),
        None => false,
    }
}

/// The sparse grid.
pub struct Grid {
    map: FnvHashMap<u128, TightSet<HbId>>,
}

impl Grid {
    /// The hitboxes of `group` that occupy the cell `(x, y)`.
    pub closed spec fn occupants(&self, x: i32, y: i32, group: HbGroup) -> Set<HbId> {
        if self.map@.contains_key(cell_code(x, y, group)) {
            self.map@[cell_code(x, y, group)]@
        } else {
            Set::<HbId>::empty()
        }
    }

    /// No stored cell is empty.
    pub closed spec fn wf(&self) -> bool {
        forall|code: u128| #[trigger]
            self.map@.contains_key(code) ==> self.map@[code]@ != Set::<HbId>::empty()
    }

    /// The hitboxes that occupy a cell of `rect` for one of `groups`.
    pub open spec fn cellmates(&self, rect: IndexRect, groups: Seq<HbGroup>) -> Set<HbId> {
        Set::new(
            |id: HbId|
                exists|x: i32, y: i32, j: int|
                    0 <= j < groups.len() && rect.spec_contains((x, y)) && #[trigger] self.occupants(
                        x,
                        y,
                        groups[j],
                    ).contains(id),
        )
    }

    /// The hitboxes met by a walk over `groups` and the cells of `rect`
    /// that has finished `gi` groups and `k` cells of the next one.
    pub open spec fn met(&self, rect: IndexRect, groups: Seq<HbGroup>, gi: int, k: int) -> Set<
        HbId,
    > {
        Set::new(
            |id: HbId|
                exists|x: i32, y: i32, j: int|
                    0 <= j < groups.len() && rect.spec_contains((x, y)) && (j < gi || (j == gi
                        && rect.position((x, y)) < k)) && #[trigger] self.occupants(
                        x,
                        y,
                        groups[j],
                    ).contains(id),
        )
    }

    /// Whether the hitbox `id` occupies exactly the cells of `area`.
    pub open spec fn holds_at(&self, id: HbId, area: Option<GridArea>) -> bool {
        forall|x: i32, y: i32, group: HbGroup| #[trigger]
            self.occupants(x, y, group).contains(id) <==> area_covers(area, x, y, group)
    }

    /// Whether `self` and `other` agree on every hitbox but `id`.
    pub open spec fn same_but(&self, other: &Grid, id: HbId) -> bool {
        forall|x: i32, y: i32, group: HbGroup, o: HbId|
            o != id ==> (#[trigger] self.occupants(x, y, group).contains(o) <==> other.occupants(
                x,
                y,
                group,
            ).contains(o))
    }

    /// A grid that nothing occupies.
    pub fn new() -> (r: Grid)
        ensures
            r.wf(),
            forall|x: i32, y: i32, group: HbGroup| #[trigger]
                r.occupants(x, y, group) == Set::<HbId>::empty(),
    {
        Grid { map: FnvHashMap::default() }
    }

    /// The hitboxes that occupy a cell of `rect` for one of `groups`.
    pub fn shape_cellmates(&self, rect: IndexRect, groups: &[HbGroup]) -> (r: FnvHashSet<HbId>)
        requires
            rect.wf(),
        ensures
            r@ == self.cellmates(rect, groups@),
    {
        let r = self.overlapping_ids(None, rect, groups);
        assert(r@ =~= self.cellmates(rect, groups@));
        r
    }

    /// Moves the hitbox `hitbox_id` of `group` from the cells of `old_rect`
    /// to the cells of `new_rect`. With a `new_rect`, returns the other
    /// hitboxes that occupy a cell of it for one of `groups`.
    pub fn update_hitbox(
        &mut self,
        hitbox_id: HbId,
        group: HbGroup,
        old_rect: Option<IndexRect>,
        new_rect: Option<IndexRect>,
        groups: &[HbGroup],
    ) -> (r: Option<FnvHashSet<HbId>>)
        requires
            old(self).wf(),
            new_rect is Some || groups@.len() == 0,
            old_rect matches Some(rect) ==> rect.wf(),
            new_rect matches Some(rect) ==> rect.wf(),
            old(self).holds_at(hitbox_id, spec_area(old_rect, group)),
        ensures
            final(self).wf(),
            final(self).holds_at(hitbox_id, spec_area(new_rect, group)),
            final(self).same_but(old(self), hitbox_id),
            match new_rect {
                Some(rect) => r is Some && r->0@ == old(self).cellmates(rect, groups@).remove(
                    hitbox_id,
                ),
                None => r is None,
            },
    {
        let old_area = match old_rect {
            Some(rect) => Some(GridArea { rect, group }),
            None => None,
        };
        let new_area = match new_rect {
            Some(rect) => Some(GridArea { rect, group }),
            None => None,
        };
        self.update_area(hitbox_id, old_area, new_area);
        match new_area {
            Some(area) => {
                let found = self.overlapping_ids(Some(hitbox_id), area.rect, groups);
                proof {
                    let a = self.cellmates(area.rect, groups@).remove(hitbox_id);
                    let b = old(self).cellmates(area.rect, groups@).remove(hitbox_id);
                    assert forall|o: HbId| a.contains(o) <==> b.contains(o) by {
                        if a.contains(o) {
                            let (x, y, j) = choose|x: i32, y: i32, j: int|
                                0 <= j < groups@.len() && area.rect.spec_contains((x, y))
                                    && #[trigger] self.occupants(x, y, groups@[j]).contains(o);
                            assert(old(self).occupants(x, y, groups@[j]).contains(o));
                        }
                        if b.contains(o) {
                            let (x, y, j) = choose|x: i32, y: i32, j: int|
                                0 <= j < groups@.len() && area.rect.spec_contains((x, y))
                                    && #[trigger] old(self).occupants(x, y, groups@[j]).contains(o);
                            assert(self.occupants(x, y, groups@[j]).contains(o));
                        }
                    }
                    assert(a =~= b);
                }
                Some(found)
            },
            None => None,
        }
    }

    /// The hitboxes other than `hitbox_id` that occupy a cell of `rect` for
    /// one of `groups`.
    pub fn overlapping_ids(&self, hitbox_id: Option<HbId>, rect: IndexRect, groups: &[HbGroup]) -> (r:
        FnvHashSet<HbId>)
        requires
            rect.wf(),
        ensures
            r@ == match hitbox_id {
                Some(id) => self.cellmates(rect, groups@).remove(id),
                None => self.cellmates(rect, groups@),
            },
    {
        let mut result: FnvHashSet<HbId> = set_with_capacity(0);
        let mut gi: usize = 0;
        assert(result@ =~= self.met(rect, groups@, 0, 0).filter(|o: HbId| Some(o) != hitbox_id));
        while gi < groups.len()
            invariant
                0 <= gi <= groups.len(),
                rect.wf(),
                result@ == self.met(rect, groups@, gi as int, 0).filter(
                    |o: HbId| Some(o) != hitbox_id,
                ),
            decreases groups.len() - gi,
        {
            let group = groups[gi];
            let mut cells = rect.iter();
            let ghost mut k: int = 0;
            loop
                invariant_except_break
                    cells.wf(),
                    cells.spec_rect() == rect,
                    0 <= k <= rect.count(),
                    k == 0 ==> cells.spec_val() is None,
                    k > 0 ==> cells.spec_val() == Some(rect.cell(k - 1)),
                    result@ == self.met(rect, groups@, gi as int, k).filter(
                        |o: HbId| Some(o) != hitbox_id,
                    ),
                invariant
                    0 <= gi < groups.len(),
                    group == groups@[gi as int],
                    rect.wf(),
                ensures
                    result@ == self.met(rect, groups@, gi as int + 1, 0).filter(
                        |o: HbId| Some(o) != hitbox_id,
                    ),
                decreases rect.count() - k,
            {
                proof {
                    lemma_successor(rect, cells.spec_val());
                    if k > 0 {
                        lemma_cell_position(rect, k - 1);
                    }
                    assert(rect.count() > 0) by (nonlinear_arith)
                        requires
                            rect.width() > 0,
                            rect.height() > 0,
                            rect.count() == rect.width() * rect.height(),
                    ;
                }
                let step = cells.next();
                let coord = match step {
                    Some(coord) => coord,
                    None => {
                        proof {
                            assert(k == rect.count());
                            let a = self.met(rect, groups@, gi as int, k);
                            let b = self.met(rect, groups@, gi as int + 1, 0);
                            assert forall|o: HbId| a.contains(o) <==> b.contains(o) by {
                                if a.contains(o) {
                                    let (x, y, j) = choose|x: i32, y: i32, j: int|
                                        0 <= j < groups@.len() && rect.spec_contains((x, y)) && (j
                                            < gi || (j == gi && rect.position((x, y)) < k))
                                            && #[trigger] self.occupants(x, y, groups@[j]).contains(
                                            o,
                                        );
                                    assert(j < gi + 1);
                                }
                                if b.contains(o) {
                                    let (x, y, j) = choose|x: i32, y: i32, j: int|
                                        0 <= j < groups@.len() && rect.spec_contains((x, y)) && (j
                                            < gi + 1 || (j == gi + 1 && rect.position((x, y)) < 0))
                                            && #[trigger] self.occupants(x, y, groups@[j]).contains(
                                            o,
                                        );
                                    lemma_position_cell(rect, (x, y));
                                    assert(self.occupants(x, y, groups@[j]).contains(o));
                                }
                            }
                            assert(a =~= b);
                        }
                        break ;
                    },
                };
                proof {
                    assert(coord == rect.cell(k));
                    lemma_cell_position(rect, k);
                }
                let key = GridKey { x: coord.0, y: coord.1, group };
                let code = key.code();
                let ghost before = result@;
                let ghost here = self.occupants(coord.0, coord.1, group);
                if let Some(other_ids) = map_get(&self.map, &code) {
                    let items = other_ids.iter();
                    let mut m: usize = 0;
                    proof {
                        lemma_take_ends(items@);
                        assert(result@ =~= before.union(
                            items@.take(0).to_set().filter(|o: HbId| Some(o) != hitbox_id),
                        ));
                    }
                    while m < items.len()
                        invariant
                            0 <= m <= items.len(),
                            items@.to_set() == here,
                            result@ == before.union(
                                items@.take(m as int).to_set().filter(
                                    |o: HbId| Some(o) != hitbox_id,
                                ),
                            ),
                        decreases items.len() - m,
                    {
                        let other_id = items[m];
                        proof {
                            lemma_take_step(items@, m as int);
                        }
                        let keep = match hitbox_id {
                            Some(id) => id != other_id,
                            None => true,
                        };
                        if keep {
                            set_insert(&mut result, other_id);
                        }
                        assert(result@ =~= before.union(
                            items@.take(m as int + 1).to_set().filter(
                                |o: HbId| Some(o) != hitbox_id,
                            ),
                        ));
                        m += 1;
                    }
                    proof {
                        lemma_take_ends(items@);
                    }
                }
                proof {
                    assert(result@ =~= before.union(here.filter(|o: HbId| Some(o) != hitbox_id)));
                    let a = self.met(rect, groups@, gi as int, k);
                    let b = self.met(rect, groups@, gi as int, k + 1);
                    assert forall|o: HbId| b.contains(o) <==> (a.contains(o) || here.contains(
                        o,
                    )) by {
                        if b.contains(o) {
                            let (x, y, j) = choose|x: i32, y: i32, j: int|
                                0 <= j < groups@.len() && rect.spec_contains((x, y)) && (j < gi || (
                                j == gi && rect.position((x, y)) < k + 1))
                                    && #[trigger] self.occupants(x, y, groups@[j]).contains(o);
                            if j == gi && rect.position((x, y)) == k {
                                lemma_position_cell(rect, (x, y));
                                assert((x, y) == coord);
                            } else {
                                assert(a.contains(o));
                            }
                        }
                        if a.contains(o) {
                            let (x, y, j) = choose|x: i32, y: i32, j: int|
                                0 <= j < groups@.len() && rect.spec_contains((x, y)) && (j < gi || (
                                j == gi && rect.position((x, y)) < k))
                                    && #[trigger] self.occupants(x, y, groups@[j]).contains(o);
                            assert(self.occupants(x, y, groups@[j]).contains(o));
                        }
                        if here.contains(o) {
                            assert(self.occupants(coord.0, coord.1, groups@[gi as int]).contains(
                                o,
                            ));
                        }
                    }
                    assert(result@ =~= b.filter(|o: HbId| Some(o) != hitbox_id));
                    k = k + 1;
                }
            }
            gi += 1;
        }
        proof {
            let a = self.met(rect, groups@, groups@.len() as int, 0);
            let b = self.cellmates(rect, groups@);
            assert forall|o: HbId| a.contains(o) <==> b.contains(o) by {
                if a.contains(o) {
                    let (x, y, j) = choose|x: i32, y: i32, j: int|
                        0 <= j < groups@.len() && rect.spec_contains((x, y)) && (j < groups@.len()
                            || (j == groups@.len() && rect.position((x, y)) < 0))
                            && #[trigger] self.occupants(x, y, groups@[j]).contains(o);
                    assert(self.occupants(x, y, groups@[j]).contains(o));
                }
                if b.contains(o) {
                    let (x, y, j) = choose|x: i32, y: i32, j: int|
                        0 <= j < groups@.len() && rect.spec_contains((x, y))
                            && #[trigger] self.occupants(x, y, groups@[j]).contains(o);
                    assert(self.occupants(x, y, groups@[j]).contains(o));
                }
            }
            assert(a =~= b);
            match hitbox_id {
                Some(id) => {
                    assert(result@ =~= b.remove(id));
                },
                None => {
                    assert(result@ =~= b);
                },
            }
        }
        result
    }

    /// Takes the hitbox out of the cells that only `old_area` covers and puts
    /// it into the cells that only `new_area` covers.
    pub fn update_area(
        &mut self,
        hitbox_id: HbId,
        old_area: Option<GridArea>,
        new_area: Option<GridArea>,
    )
        requires
            old(self).wf(),
            old_area matches Some(area) ==> area.rect.wf(),
            new_area matches Some(area) ==> area.rect.wf(),
            old(self).holds_at(hitbox_id, old_area),
        ensures
            final(self).wf(),
            final(self).holds_at(hitbox_id, new_area),
            final(self).same_but(old(self), hitbox_id),
    {
        if let Some(area) = old_area {
            let rect = area.rect;
            let mut cells = rect.iter();
            let ghost mut k: int = 0;
            loop
                invariant_except_break
                    cells.wf(),
                    cells.spec_rect() == rect,
                    0 <= k <= rect.count(),
                    k == 0 ==> cells.spec_val() is None,
                    k > 0 ==> cells.spec_val() == Some(rect.cell(k - 1)),
                invariant
                    rect.wf(),
                    area == old_area->0,
                    old_area is Some,
                    rect == area.rect,
                    self.wf(),
                    self.same_but(old(self), hitbox_id),
                    forall|x: i32, y: i32, group: HbGroup| #[trigger]
                        self.occupants(x, y, group).contains(hitbox_id) <==> (area_covers(
                            old_area,
                            x,
                            y,
                            group,
                        ) && (area_covers(new_area, x, y, group) || rect.position((x, y)) >= k)),
                ensures
                    k == rect.count(),
                decreases rect.count() - k,
            {
                proof {
                    lemma_successor(rect, cells.spec_val());
                    if k > 0 {
                        lemma_cell_position(rect, k - 1);
                    }
                    assert(rect.count() > 0) by (nonlinear_arith)
                        requires
                            rect.width() > 0,
                            rect.height() > 0,
                            rect.count() == rect.width() * rect.height(),
                    ;
                }
                let step = cells.next();
                let coord = match step {
                    Some(coord) => coord,
                    None => {
                        break ;
                    },
                };
                proof {
                    assert(coord == rect.cell(k));
                    lemma_cell_position(rect, k);
                }
                let key = GridKey { x: coord.0, y: coord.1, group: area.group };
                let outside = match new_area {
                    Some(new_area) => !new_area.contains(key),
                    None => true,
                };
                let ghost prev = *self;
                if outside {
                    let code = key.code();
                    assert(self.occupants(coord.0, coord.1, area.group).contains(hitbox_id));
                    let taken = map_remove(&mut self.map, &code);
                    let mut ids = taken.unwrap();
                    let success = ids.remove(&hitbox_id);
                    assert(success);
                    if !ids.is_empty() {
                        map_insert(&mut self.map, code, ids);
                    }
                    proof {
                        assert forall|x: i32, y: i32, group: HbGroup|
                            true implies #[trigger] self.occupants(x, y, group) == (if x == coord.0
                            && y == coord.1 && group == area.group {
                            prev.occupants(x, y, group).remove(hitbox_id)
                        } else {
                            prev.occupants(x, y, group)
                        }) by {
                            lemma_cell_code_injective(x, y, group, coord.0, coord.1, area.group);
                        }
                    }
                }
                proof {
                    assert forall|x: i32, y: i32, group: HbGroup| #[trigger]
                        self.occupants(x, y, group).contains(hitbox_id) <==> (area_covers(
                            old_area,
                            x,
                            y,
                            group,
                        ) && (area_covers(new_area, x, y, group) || rect.position((x, y)) >= k
                            + 1)) by {
                        if area_covers(old_area, x, y, group) {
                            lemma_position_cell(rect, (x, y));
                        }
                        assert(prev.occupants(x, y, group).contains(hitbox_id) <==> (area_covers(
                            old_area,
                            x,
                            y,
                            group,
                        ) && (area_covers(new_area, x, y, group) || rect.position((x, y)) >= k)));
                    }
                    assert forall|x: i32, y: i32, group: HbGroup, o: HbId| o != hitbox_id implies (
                    #[trigger] self.occupants(x, y, group).contains(o) <==> old(self).occupants(
                        x,
                        y,
                        group,
                    ).contains(o)) by {
                        assert(prev.occupants(x, y, group).contains(o) <==> old(self).occupants(
                            x,
                            y,
                            group,
                        ).contains(o));
                    }
                    k = k + 1;
                }
            }
            proof {
                assert forall|x: i32, y: i32, group: HbGroup| #[trigger]
                    self.occupants(x, y, group).contains(hitbox_id) <==> (area_covers(
                        old_area,
                        x,
                        y,
                        group,
                    ) && area_covers(new_area, x, y, group)) by {
                    if area_covers(old_area, x, y, group) {
                        lemma_position_cell(rect, (x, y));
                    }
                }
            }
        }
        assert forall|x: i32, y: i32, group: HbGroup| #[trigger]
            self.occupants(x, y, group).contains(hitbox_id) <==> (area_covers(old_area, x, y, group)
                && area_covers(new_area, x, y, group)) by {}
        if let Some(area) = new_area {
            let rect = area.rect;
            let mut cells = rect.iter();
            let ghost mut k: int = 0;
            loop
                invariant_except_break
                    cells.wf(),
                    cells.spec_rect() == rect,
                    0 <= k <= rect.count(),
                    k == 0 ==> cells.spec_val() is None,
                    k > 0 ==> cells.spec_val() == Some(rect.cell(k - 1)),
                invariant
                    rect.wf(),
                    area == new_area->0,
                    new_area is Some,
                    rect == area.rect,
                    self.wf(),
                    self.same_but(old(self), hitbox_id),
                    forall|x: i32, y: i32, group: HbGroup| #[trigger]
                        self.occupants(x, y, group).contains(hitbox_id) <==> (area_covers(
                            new_area,
                            x,
                            y,
                            group,
                        ) && (area_covers(old_area, x, y, group) || rect.position((x, y)) < k)),
                ensures
                    k == rect.count(),
                decreases rect.count() - k,
            {
                proof {
                    lemma_successor(rect, cells.spec_val());
                    if k > 0 {
                        lemma_cell_position(rect, k - 1);
                    }
                    assert(rect.count() > 0) by (nonlinear_arith)
                        requires
                            rect.width() > 0,
                            rect.height() > 0,
                            rect.count() == rect.width() * rect.height(),
                    ;
                }
                let step = cells.next();
                let coord = match step {
                    Some(coord) => coord,
                    None => {
                        break ;
                    },
                };
                proof {
                    assert(coord == rect.cell(k));
                    lemma_cell_position(rect, k);
                }
                let key = GridKey { x: coord.0, y: coord.1, group: area.group };
                let outside = match old_area {
                    Some(old_area) => !old_area.contains(key),
                    None => true,
                };
                let ghost prev = *self;
                if outside {
                    let code = key.code();
                    assert(!self.occupants(coord.0, coord.1, area.group).contains(hitbox_id));
                    let taken = map_remove(&mut self.map, &code);
                    let mut ids = match taken {
                        Some(ids) => ids,
                        None => TightSet::new(),
                    };
                    let success = ids.insert(hitbox_id);
                    assert(success);
                    assert(ids@.contains(hitbox_id));
                    map_insert(&mut self.map, code, ids);
                    proof {
                        assert forall|x: i32, y: i32, group: HbGroup|
                            true implies #[trigger] self.occupants(x, y, group) == (if x == coord.0
                            && y == coord.1 && group == area.group {
                            prev.occupants(x, y, group).insert(hitbox_id)
                        } else {
                            prev.occupants(x, y, group)
                        }) by {
                            lemma_cell_code_injective(x, y, group, coord.0, coord.1, area.group);
                        }
                    }
                }
                proof {
                    assert forall|x: i32, y: i32, group: HbGroup| #[trigger]
                        self.occupants(x, y, group).contains(hitbox_id) <==> (area_covers(
                            new_area,
                            x,
                            y,
                            group,
                        ) && (area_covers(old_area, x, y, group) || rect.position((x, y)) < k
                            + 1)) by {
                        if area_covers(new_area, x, y, group) {
                            lemma_position_cell(rect, (x, y));
                        }
                        assert(prev.occupants(x, y, group).contains(hitbox_id) <==> (area_covers(
                            new_area,
                            x,
                            y,
                            group,
                        ) && (area_covers(old_area, x, y, group) || rect.position((x, y)) < k)));
                    }
                    assert forall|x: i32, y: i32, group: HbGroup, o: HbId| o != hitbox_id implies (
                    #[trigger] self.occupants(x, y, group).contains(o) <==> old(self).occupants(
                        x,
                        y,
                        group,
                    ).contains(o)) by {
                        assert(prev.occupants(x, y, group).contains(o) <==> old(self).occupants(
                            x,
                            y,
                            group,
                        ).contains(o));
                    }
                    k = k + 1;
                }
            }
            proof {
                assert forall|x: i32, y: i32, group: HbGroup| #[trigger]
                    self.occupants(x, y, group).contains(hitbox_id) <==> area_covers(
                        new_area,
                        x,
                        y,
                        group,
                    ) by {
                    if area_covers(new_area, x, y, group) {
                        lemma_position_cell(rect, (x, y));
                    }
                }
            }
        }
    }
}

/// The area of an optional rectangle for `group`.
pub open spec fn spec_area(rect: Option<IndexRect>, group: HbGroup) -> Option<GridArea> {
    match rect {
        Some(rect) => Some(GridArea { rect, group }),
        None => None,
    }
}

} // verus!
