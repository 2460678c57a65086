//! Game-state data holders around the selected settlements.
//!
//! Settlements live in an arena of [`Location`] values with stable integer
//! indices; a city and a player's holdings are index sets into that arena,
//! so nothing here aliases the loaded geometry.

use vstd::prelude::*;

use crate::data::Location;

verus! {

/// A named unit on the map.
pub trait UnitTrait {
    /// The unit's name.
    spec fn spec_name(&self) -> Seq<char>;

    /// Read the unit's name.
    fn get_name(&self) -> (r: &str)
        ensures
            r@ == self.spec_name(),
    ;
}

/// A land force.
#[derive(Clone, Debug, PartialEq)]
pub struct Army {
    pub name: String,
}

impl UnitTrait for Army {
    open spec fn spec_name(&self) -> Seq<char> {
        self.name@
    }

    fn get_name(&self) -> (r: &str) {
        self.name.as_str()
    }
}

/// A covert agent.
#[derive(Clone, Debug, PartialEq)]
pub struct Spy {
    pub name: String,
}

impl UnitTrait for Spy {
    open spec fn spec_name(&self) -> Seq<char> {
        self.name@
    }

    fn get_name(&self) -> (r: &str) {
        self.name.as_str()
    }
}

/// Who holds a city.
#[derive(Clone, Copy, Debug, PartialEq, Eq, Structural)]
pub enum PlayerType {
    Player,
    NotAssigned,
}

/// One settlement, as an index into the location arena.
#[derive(Clone, Copy, Debug, PartialEq, Eq, Structural)]
pub struct City {
    pub location: usize,
}

/// One player and the cities it holds.
#[derive(Clone, Debug, PartialEq)]
pub struct Player {
    pub player_type: PlayerType,
    pub cities: Vec<City>,
}

impl Player {
    /// A new player holds no cities.
    pub fn new(player_type: PlayerType) -> (r: Player)
        ensures
            r.player_type == player_type,
            r.cities@ == Seq::<City>::empty(),
    {
        Player { player_type, cities: Vec::new() }
    }

    /// Assign every location of the arena to this player, in order.
    pub fn assign_all(&mut self, locations: &Vec<Location>)
        ensures
            final(self).player_type == old(self).player_type,
            final(self).cities@ == old(self).cities@ + Seq::new(
                locations@.len(),
                |i: int| City { location: i as usize },
            ),
    {
        let n = locations.len();
        let mut i: usize = 0;
        while i < n
            invariant
                n == locations@.len(),
                i <= n,
                self.player_type == old(self).player_type,
                self.cities@ == old(self).cities@ + Seq::new(
                    i as nat,
                    |j: int| City { location: j as usize },
                ),
            decreases n - i,
        {
            self.cities.push(City { location: i });
            proof {
                assert(self.cities@ =~= old(self).cities@ + Seq::new(
                    (i + 1) as nat,
                    |j: int| City { location: j as usize },
                ));
            }
            i += 1;
        }
    }

    /// Take ownership of one more city.
    pub fn change_ownership(&mut self, city: City)
        ensures
            final(self).player_type == old(self).player_type,
            final(self).cities@ == old(self).cities@.push(city),
    {
        self.cities.push(city);
    }
}

} // verus!
