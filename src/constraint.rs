use vstd::prelude::*;
use crate::grid::Grid;

verus! {

/// A rule that says whether a grid cell may be entered.
pub trait PositionConstraint {
    /// The rule can be checked (the grids it reads are well formed).
    spec fn well_formed(&self) -> bool;

    /// Whether the rule admits the cell `pos = (row, col)`.
    spec fn allows(&self, pos: (usize, usize)) -> bool;

    fn respect(&self, pos: (usize, usize)) -> (r: bool)
        requires
            self.well_formed(),
        ensures
            r == self.allows(pos),
    ;
}

/// Rejects the cells whose terrain kind is one of `impractical_terrains`.
/// Terrain kinds are indices into the game's list of terrains; a cell
/// outside the terrain grid is not rejected.
pub struct TerrainConstraint<'a> {
    pub terrain_map: &'a Grid<usize>,
    pub impractical_terrains: Vec<usize>,
}

/// Rejects the cells that hold a unit (a unit handle, or `None`).
pub struct UnitConstraint<'a> {
    pub unit_map: &'a Grid<Option<usize>>,
}

/// Rejects the cells that hold a building (a building handle, or `None`).
pub struct BuildingConstraint<'a> {
    pub building_map: &'a Grid<Option<usize>>,
}

/// Whether `pos` lies inside `map`.
pub open spec fn grid_has<T>(map: Grid<T>, pos: (usize, usize)) -> bool {
    map.in_bounds(pos.0 as int, pos.1 as int)
}

/// Whether `pos` lies inside `map` and holds `Some` handle.
pub open spec fn occupied(map: Grid<Option<usize>>, pos: (usize, usize)) -> bool {
    grid_has(map, pos) && map.cell(pos.0 as int, pos.1 as int) is Some
}

fn in_grid<T>(map: &Grid<T>, pos: (usize, usize)) -> (r: bool)
    ensures
        r == grid_has(*map, pos),
{
    pos.0 < map.height && pos.1 < map.width
}

fn is_occupied(map: &Grid<Option<usize>>, pos: (usize, usize)) -> (r: bool)
    requires
        map.wf(),
    ensures
        r == occupied(*map, pos),
{
    in_grid(map, pos) && map.get(pos.0, pos.1).is_some()
}

impl<'a> PositionConstraint for TerrainConstraint<'a> {
    open spec fn well_formed(&self) -> bool {
        self.terrain_map.wf()
    }

    open spec fn allows(&self, pos: (usize, usize)) -> bool {
        !(grid_has(*self.terrain_map, pos) && self.impractical_terrains@.contains(
            self.terrain_map.cell(pos.0 as int, pos.1 as int),
        ))
    }

    fn respect(&self, pos: (usize, usize)) -> (r: bool) {
        if !in_grid(self.terrain_map, pos) {
            return true;
        }
        let terrain = *self.terrain_map.get(pos.0, pos.1);
        let mut k: usize = 0;
        while k < self.impractical_terrains.len()
            invariant
                k <= self.impractical_terrains@.len(),
                grid_has(*self.terrain_map, pos),
                terrain == self.terrain_map.cell(pos.0 as int, pos.1 as int),
                forall|i: int| 0 <= i < k ==> self.impractical_terrains@[i] != terrain,
            decreases self.impractical_terrains@.len() - k,
        {
            if self.impractical_terrains[k] == terrain {
                assert(self.impractical_terrains@[k as int] == terrain);
                return false;
            }
            k = k + 1;
        }
        assert(!self.impractical_terrains@.contains(terrain));
        true
    }
}

impl<'a> PositionConstraint for UnitConstraint<'a> {
    open spec fn well_formed(&self) -> bool {
        self.unit_map.wf()
    }

    open spec fn allows(&self, pos: (usize, usize)) -> bool {
        !occupied(*self.unit_map, pos)
    }

    fn respect(&self, pos: (usize, usize)) -> (r: bool) {
        !is_occupied(self.unit_map, pos)
    }
}

impl<'a> PositionConstraint for BuildingConstraint<'a> {
    open spec fn well_formed(&self) -> bool {
        self.building_map.wf()
    }

    open spec fn allows(&self, pos: (usize, usize)) -> bool {
        !occupied(*self.building_map, pos)
    }

    fn respect(&self, pos: (usize, usize)) -> (r: bool) {
        !is_occupied(self.building_map, pos)
    }
}

/// Any of the game's cell rules, so that one list can mix them.
pub enum AnyConstraint<'a> {
    Terrain(TerrainConstraint<'a>),
    Unit(UnitConstraint<'a>),
    Building(BuildingConstraint<'a>),
}

impl<'a> PositionConstraint for AnyConstraint<'a> {
    open spec fn well_formed(&self) -> bool {
        match self {
            AnyConstraint::Terrain(c) => c.well_formed(),
            AnyConstraint::Unit(c) => c.well_formed(),
            AnyConstraint::Building(c) => c.well_formed(),
        }
    }

    open spec fn allows(&self, pos: (usize, usize)) -> bool {
        match self {
            AnyConstraint::Terrain(c) => c.allows(pos),
            AnyConstraint::Unit(c) => c.allows(pos),
            AnyConstraint::Building(c) => c.allows(pos),
        }
    }

    fn respect(&self, pos: (usize, usize)) -> (r: bool) {
        match self {
            AnyConstraint::Terrain(c) => c.respect(pos),
            AnyConstraint::Unit(c) => c.respect(pos),
            AnyConstraint::Building(c) => c.respect(pos),
        }
    }
}

/// Every rule of the list is well formed.
pub open spec fn all_well_formed<C: PositionConstraint>(constraints: Seq<C>) -> bool {
    forall|i: int| 0 <= i < constraints.len() ==> #[trigger] constraints[i].well_formed()
}

/// Every rule of the list admits `pos` (an empty list admits every cell).
pub open spec fn all_allow<C: PositionConstraint>(constraints: Seq<C>, pos: (usize, usize)) -> bool {
    forall|i: int| 0 <= i < constraints.len() ==> #[trigger] constraints[i].allows(pos)
}

/// Rules combine by conjunction: `pos` is admitted when every rule admits it.
pub fn respect_all<C: PositionConstraint>(constraints: &[C], pos: (usize, usize)) -> (r: bool)
    requires
        all_well_formed(constraints@),
    ensures
        r == all_allow(constraints@, pos),
{
    let mut k: usize = 0;
    while k < constraints.len()
        invariant
            k <= constraints@.len(),
            all_well_formed(constraints@),
            forall|i: int| 0 <= i < k ==> #[trigger] constraints@[i].allows(pos),
        decreases constraints@.len() - k,
    {
        if !constraints[k].respect(pos) {
            return false;
        }
        k = k + 1;
    }
    true
}

} // verus!
