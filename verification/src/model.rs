//! Ids and components of the world.
use crate::ast::CompiledProgram;
use crate::geometry::Point;
use vstd::prelude::*;

verus! {

/// Id of an entity. Ids are handed out in ascending order and never reused.
#[derive(Clone, Copy, Debug, PartialEq, Eq, Structural, Hash, Default)]
pub struct EntityId(pub u64);

/// Id of a user.
#[derive(Clone, Copy, Debug, PartialEq, Eq, Structural, Hash, Default)]
pub struct UserId(pub u64);

/// Id of a script.
#[derive(Clone, Copy, Debug, PartialEq, Eq, Structural, Hash, Default)]
pub struct ScriptId(pub u64);

/// Kind of a terrain tile.
#[derive(Clone, Copy, Debug, PartialEq, Eq, Structural, Hash)]
pub enum TileTerrainType {
    Empty,
    Wall,
}

/// The terrain tile at a cell.
#[derive(Clone, Copy, Debug, PartialEq, Eq, Structural, Hash)]
pub struct TerrainComponent(pub TileTerrainType);

/// The entity that stands at a cell.
#[derive(Clone, Copy, Debug, PartialEq, Eq, Structural, Hash)]
pub struct EntityComponent(pub EntityId);

/// Where an entity stands.
#[derive(Clone, Copy, Debug, PartialEq, Eq, Structural, Hash)]
pub struct PositionComponent(pub Point);

/// Marks an entity as a bot.
#[derive(Clone, Copy, Debug, PartialEq, Eq, Structural, Hash, Default)]
pub struct Bot {}

/// Marks an entity as a structure.
#[derive(Clone, Copy, Debug, PartialEq, Eq, Structural, Hash, Default)]
pub struct Structure {}

/// What an entity carries, and how much it can.
#[derive(Clone, Copy, Debug, PartialEq, Eq, Structural, Hash, Default)]
pub struct CarryComponent {
    pub carry: u16,
    pub carry_max: u16,
}

/// Hit points of an entity.
#[derive(Clone, Copy, Debug, PartialEq, Eq, Structural, Hash, Default)]
pub struct HpComponent {
    pub hp: u16,
    pub hp_max: u16,
}

/// An entity that loses `hp_amount` hit points per tick once `t` has run down to zero.
#[derive(Clone, Copy, Debug, PartialEq, Eq, Structural, Hash, Default)]
pub struct DecayComponent {
    pub hp_amount: u16,
    pub eta: u8,
    pub t: u8,
}

/// Energy of an entity.
#[derive(Clone, Copy, Debug, PartialEq, Eq, Structural, Hash, Default)]
pub struct EnergyComponent {
    pub energy: u16,
    pub energy_max: u16,
}

/// Energy that an entity gains per tick.
#[derive(Clone, Copy, Debug, PartialEq, Eq, Structural, Hash, Default)]
pub struct EnergyRegenComponent {
    pub amount: u16,
}

/// A structure that makes bots: the bot in the making, if any, and the
/// ticks left until it is done.
#[derive(Clone, Copy, Debug, PartialEq, Eq, Structural, Hash)]
pub struct SpawnComponent {
    pub time_to_spawn: u8,
    pub spawning: Option<EntityId>,
}

/// A bot in the making.
#[derive(Clone, Copy, Debug, PartialEq, Eq, Structural, Hash, Default)]
pub struct SpawnBotComponent {
    pub bot: Bot,
}

/// The user that owns an entity.
#[derive(Clone, Copy, Debug, PartialEq, Eq, Structural, Hash, Default)]
pub struct OwnedEntity {
    pub owner_id: UserId,
}

/// Kind of a resource.
#[derive(Clone, Copy, Debug, PartialEq, Eq, Structural, Hash)]
pub enum Resource {
    Mineral,
}

/// Marks an entity as a resource.
#[derive(Clone, Copy, Debug, PartialEq, Eq, Structural, Hash)]
pub struct ResourceComponent(pub Resource);

/// The script that pilots an entity.
#[derive(Clone, Copy, Debug, PartialEq, Eq, Structural, Hash, Default)]
pub struct EntityScript {
    pub script_id: ScriptId,
}

/// Profile of a user.
#[derive(Clone, Copy, Debug, PartialEq, Eq, Structural, Hash, Default)]
pub struct UserComponent {}

/// What an entity logged in one tick, in the order it was logged.
#[derive(Debug, Clone)]
pub struct LogEntry {
    pub payload: Vec<String>,
}

impl LogEntry {
    /// The lines of the entry.
    pub open spec fn lines(&self) -> Seq<Seq<char>> {
        Seq::new(self.payload@.len(), |i: int| self.payload@[i]@)
    }
}

/// A compiled script.
#[derive(Debug, Clone)]
pub struct ScriptComponent(pub CompiledProgram);

/// Answer to an operation that a script asked for.
#[derive(Clone, Copy, Debug, PartialEq, Eq, Structural, Hash)]
pub enum OperationResult {
    Success,
    NotOwner,
    InvalidInput,
    OperationFailed,
    NotInRange,
    InvalidTarget,
    Empty,
    Full,
}

impl OperationResult {
    /// The number that stands for the answer in the memory of the machine.
    pub open spec fn code(self) -> i32 {
        match self {
            OperationResult::Success => 0i32,
            OperationResult::NotOwner => 1i32,
            OperationResult::InvalidInput => 2i32,
            OperationResult::OperationFailed => 3i32,
            OperationResult::NotInRange => 4i32,
            OperationResult::InvalidTarget => 5i32,
            OperationResult::Empty => 6i32,
            OperationResult::Full => 7i32,
        }
    }

    pub fn to_code(self) -> (c: i32)
        ensures
            c == self.code(),
    {
        match self {
            OperationResult::Success => 0,
            OperationResult::NotOwner => 1,
            OperationResult::InvalidInput => 2,
            OperationResult::OperationFailed => 3,
            OperationResult::NotInRange => 4,
            OperationResult::InvalidTarget => 5,
            OperationResult::Empty => 6,
            OperationResult::Full => 7,
        }
    }
}

} // verus!
