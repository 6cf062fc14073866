//! What a grid records for each of its cells: the neighbours found when the
//! grid was laid out, the passages carved since, and the distance a solver
//! has assigned.

use vstd::prelude::*;
use crate::maze::Cell;
use crate::maze::grid::Compass;

verus! {

/// The adjacent cells of one cell, keyed by direction.
#[derive(Debug, Clone, Copy)]
pub struct Neighbours {
    north: Option<Cell>,
    east: Option<Cell>,
    south: Option<Cell>,
    west: Option<Cell>,
}

impl Neighbours {
    /// The cell recorded for `direction`, if any.
    pub closed spec fn at(&self, direction: Compass) -> Option<Cell> {
        match direction {
            Compass::North => self.north,
            Compass::East => self.east,
            Compass::South => self.south,
            Compass::West => self.west,
        }
    }

    pub fn new() -> (neighbours: Neighbours)
        ensures
            neighbours@ == Map::<Compass, Cell>::empty(),
    {
        let neighbours = Neighbours { north: None, east: None, south: None, west: None };
        assert(neighbours@ =~= Map::<Compass, Cell>::empty());
        neighbours
    }

    /// Records `cell` under `direction`, replacing what was there.
    pub fn insert(&mut self, direction: Compass, cell: Cell)
        ensures
            final(self)@ == old(self)@.insert(direction, cell),
    {
        match direction {
            Compass::North => self.north = Some(cell),
            Compass::East => self.east = Some(cell),
            Compass::South => self.south = Some(cell),
            Compass::West => self.west = Some(cell),
        }
        assert(self@ =~= old(self)@.insert(direction, cell));
    }

    pub fn get(&self, direction: &Compass) -> (cell: Option<&Cell>)
        ensures
            match cell {
                Some(c) => self@.contains_key(*direction) && self@[*direction] == *c,
                None => !self@.contains_key(*direction),
            },
    {
        match direction {
            Compass::North => self.north.as_ref(),
            Compass::East => self.east.as_ref(),
            Compass::South => self.south.as_ref(),
            Compass::West => self.west.as_ref(),
        }
    }

    pub fn contains_key(&self, direction: &Compass) -> (found: bool)
        ensures
            found == self@.contains_key(*direction),
    {
        self.get(direction).is_some()
    }
}

impl View for Neighbours {
    type V = Map<Compass, Cell>;

    closed spec fn view(&self) -> Map<Compass, Cell> {
        Map::new(|d: Compass| self.at(d) is Some, |d: Compass| self.at(d)->0)
    }
}

/// The directions in which a passage leaves one cell.
#[derive(Debug, Clone, Copy)]
pub struct Links {
    north: bool,
    east: bool,
    south: bool,
    west: bool,
}

impl Links {
    closed spec fn holds(&self, direction: Compass) -> bool {
        match direction {
            Compass::North => self.north,
            Compass::East => self.east,
            Compass::South => self.south,
            Compass::West => self.west,
        }
    }

    pub fn new() -> (links: Links)
        ensures
            links@ == Set::<Compass>::empty(),
    {
        let links = Links { north: false, east: false, south: false, west: false };
        assert(links@ =~= Set::<Compass>::empty());
        links
    }

    pub fn contains(&self, direction: &Compass) -> (found: bool)
        ensures
            found == self@.contains(*direction),
    {
        match direction {
            Compass::North => self.north,
            Compass::East => self.east,
            Compass::South => self.south,
            Compass::West => self.west,
        }
    }

    /// Adds `direction`; the result tells whether it was absent before.
    pub fn insert(&mut self, direction: Compass) -> (fresh: bool)
        ensures
            final(self)@ == old(self)@.insert(direction),
            fresh == !old(self)@.contains(direction),
    {
        let fresh = !self.contains(&direction);
        match direction {
            Compass::North => self.north = true,
            Compass::East => self.east = true,
            Compass::South => self.south = true,
            Compass::West => self.west = true,
        }
        assert(self@ =~= old(self)@.insert(direction));
        fresh
    }

    /// Takes `direction` out; the result tells whether it was present.
    pub fn remove(&mut self, direction: &Compass) -> (present: bool)
        ensures
            final(self)@ == old(self)@.remove(*direction),
            present == old(self)@.contains(*direction),
    {
        let present = self.contains(direction);
        match direction {
            Compass::North => self.north = false,
            Compass::East => self.east = false,
            Compass::South => self.south = false,
            Compass::West => self.west = false,
        }
        assert(self@ =~= old(self)@.remove(*direction));
        present
    }

    pub fn is_empty(&self) -> (empty: bool)
        ensures
            empty == (self@ == Set::<Compass>::empty()),
    {
        let empty = !(self.north || self.east || self.south || self.west);
        proof {
            if empty {
                assert(self@ =~= Set::<Compass>::empty());
            } else {
                assert(self@.contains(Compass::North) || self@.contains(Compass::East)
                    || self@.contains(Compass::South) || self@.contains(Compass::West));
            }
        }
        empty
    }
}

impl View for Links {
    type V = Set<Compass>;

    closed spec fn view(&self) -> Set<Compass> {
        Set::new(|d: Compass| self.holds(d))
    }
}

/// The record a grid keeps for one unmasked cell.
#[derive(Debug, Clone, Copy)]
pub struct Attributes {
    pub neighbours: Neighbours,
    pub links: Links,
    pub distance: Option<u32>,
}

impl Attributes {
    /// A record with the given neighbours, no passage and no distance.
    pub fn new(neighbours: Neighbours) -> (attributes: Attributes)
        ensures
            attributes.neighbours == neighbours,
            attributes.links@ == Set::<Compass>::empty(),
            attributes.distance is None,
    {
        Attributes { neighbours, links: Links::new(), distance: None }
    }

    /// The neighbour recorded for `direction`, if any.
    pub fn get_neighbour(&self, direction: &Compass) -> (cell: Option<&Cell>)
        ensures
            match cell {
                Some(c) => self.neighbours@.contains_key(*direction) && self.neighbours@[*direction]
                    == *c,
                None => !self.neighbours@.contains_key(*direction),
            },
    {
        self.neighbours.get(direction)
    }

    pub fn has_link(&self, direction: &Compass) -> (found: bool)
        ensures
            found == self.links@.contains(*direction),
    {
        self.links.contains(direction)
    }

    pub fn add_link(&mut self, direction: &Compass) -> (fresh: bool)
        ensures
            final(self).links@ == old(self).links@.insert(*direction),
            final(self).neighbours == old(self).neighbours,
            final(self).distance == old(self).distance,
            fresh == !old(self).links@.contains(*direction),
    {
        self.links.insert(*direction)
    }

    pub fn remove_link(&mut self, direction: &Compass) -> (present: bool)
        ensures
            final(self).links@ == old(self).links@.remove(*direction),
            final(self).neighbours == old(self).neighbours,
            final(self).distance == old(self).distance,
            present == old(self).links@.contains(*direction),
    {
        self.links.remove(direction)
    }

    pub fn distance(&self) -> (distance: Option<u32>)
        ensures
            distance == self.distance,
    {
        self.distance
    }
}

} // verus!
