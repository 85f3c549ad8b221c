use vstd::prelude::*;

verus! {

/// The closed catalog of unit archetypes.
#[derive(Debug, Clone, Copy, PartialEq, Eq, Structural)]
pub enum UnitType {
    Farmer,
    Archer,
    Shadow,
}

/// What spawning a unit of archetype `t` costs, in whole coins.
pub open spec fn cost_of(t: UnitType) -> u32 {
    match t {
        UnitType::Farmer => 10,
        UnitType::Archer => 20,
        UnitType::Shadow => 0,
    }
}

/// The display name of archetype `t`.
pub open spec fn name_of(t: UnitType) -> Seq<char> {
    match t {
        UnitType::Farmer => "Farmer"@,
        UnitType::Archer => "Archer"@,
        UnitType::Shadow => "Shadow"@,
    }
}

impl UnitType {
    /// The display name of the archetype.
    pub fn name(&self) -> (r: &'static str)
        ensures
            r@ == name_of(*self),
    {
        match *self {
            UnitType::Farmer => "Farmer",
            UnitType::Archer => "Archer",
            UnitType::Shadow => "Shadow",
        }
    }

    /// The price of the archetype, in whole coins.
    pub fn cost(&self) -> (r: u32)
        ensures
            r == cost_of(*self),
    {
        match *self {
            UnitType::Farmer => 10,
            UnitType::Archer => 20,
            UnitType::Shadow => 0,
        }
    }

    /// The archetypes a player may buy, in the order of their input slots.
    pub fn player_units() -> (r: Vec<UnitType>)
        ensures
            r@ == seq![UnitType::Farmer, UnitType::Archer],
    {
        vec![UnitType::Farmer, UnitType::Archer]
    }
}

} // verus!
