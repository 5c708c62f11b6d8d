//! Messages and snapshots exchanged between server and clients, and the
//! server's own per-faction zone records.

use vstd::prelude::*;

use crate::card::{CardState, Faction, InstanceId};
use crate::catalog::Catalog;

verus! {

/// The kinds of failure of the game's operations.
#[derive(Clone, Copy, Debug, PartialEq, Eq, Structural)]
pub enum GameError {
    /// An instance id that was never allocated.
    NotFound,
    /// An action that the session's state does not allow.
    ProtocolViolation,
    /// Another live connection already plays the requested faction.
    FactionAlreadyTaken,
    /// The acting faction does not hold the turn.
    NotYourTurn,
    /// The acting player's deck holds no card to draw.
    EmptyDeck,
    /// A deck holds fewer cards than were asked for.
    InsufficientCards,
    /// A payload that does not decode.
    SerializationFailure,
}

#[derive(Clone, Copy, Debug, PartialEq, Eq, Structural)]
pub enum PlayerType {
    Sanctum,
    Thief,
}

#[derive(Clone, Copy, Debug, PartialEq, Eq, Structural)]
pub struct BasicStats {
    pub mana_pool: u32,
    pub stamina: u32,
    pub score: u32,
}

#[derive(Clone, Debug)]
pub struct Remote {
    pub wards: Vec<InstanceId>,
    pub contents: Option<InstanceId>,
}

#[derive(Clone, Debug)]
pub struct ThiefStateInternal {
    pub stats: BasicStats,
    pub deck: Vec<InstanceId>,
    pub hand: Vec<InstanceId>,
    pub discard: Vec<InstanceId>,
    pub score_area: Vec<InstanceId>,
    pub spell_slots: Vec<InstanceId>,
    pub gear_slots: Vec<InstanceId>,
    pub ally_slots: Vec<InstanceId>,
}

#[derive(Clone, Debug)]
pub struct SanctumStateInternal {
    pub stats: BasicStats,
    pub deck: Vec<InstanceId>,
    pub hand: Vec<InstanceId>,
    pub discard: Vec<InstanceId>,
    pub score_area: Vec<InstanceId>,
    pub hand_lair: Vec<InstanceId>,
    pub deck_lair: Vec<InstanceId>,
    pub discard_lair: Vec<InstanceId>,
    pub remotes: Vec<Remote>,
}

#[derive(Clone, Debug)]
pub struct RemoteRes {
    pub wards: Vec<CardState>,
    pub contents: Option<CardState>,
}

/// The zones and statistics that both factions have.
#[derive(Clone, Debug)]
pub struct CommonState {
    pub stats: BasicStats,
    pub deck: Vec<CardState>,
    pub hand: Vec<CardState>,
    pub discard: Vec<CardState>,
    pub score_area: Vec<CardState>,
}

#[derive(Clone, Debug)]
pub struct ThiefState {
    pub spell_slots: Option<Vec<CardState>>,
    pub gear_slots: Option<Vec<CardState>>,
    pub ally_slots: Option<Vec<CardState>>,
}

#[derive(Clone, Debug)]
pub struct SanctumState {
    pub hand_lair: Option<Vec<CardState>>,
    pub deck_lair: Option<Vec<CardState>>,
    pub discard_lair: Option<Vec<CardState>>,
    pub remotes: Option<Vec<RemoteRes>>,
}

/// One player's state as one viewer may see it.
#[derive(Clone, Debug)]
pub enum PlayerStateResponse {
    Thief { common: CommonState, specific: ThiefState },
    Sanctum { common: CommonState, specific: SanctumState },
}

impl PlayerStateResponse {
    /// The zones that both factions have.
    pub open spec fn common_part(self) -> CommonState {
        match self {
            PlayerStateResponse::Thief { common, .. } => common,
            PlayerStateResponse::Sanctum { common, .. } => common,
        }
    }

    /// The faction whose state this is.
    pub open spec fn faction(self) -> Faction {
        match self {
            PlayerStateResponse::Thief { .. } => Faction::Thief,
            PlayerStateResponse::Sanctum { .. } => Faction::Sanctum,
        }
    }

    pub fn get_common(self) -> (r: CommonState)
        ensures
            r == self.common_part(),
    {
        match self {
            PlayerStateResponse::Thief { common, .. } => common,
            PlayerStateResponse::Sanctum { common, .. } => common,
        }
    }
}

/// What a player receives on joining: both players' snapshots, the catalog
/// and the faction whose turn it is.
pub struct InitStateResponse {
    pub my_state: Option<PlayerStateResponse>,
    pub other_state: Option<PlayerStateResponse>,
    pub card_set: Catalog,
    pub turn: Faction,
}

/// Whether faction `faction` holds the turn `turn`.
pub fn is_turn_of(faction: Faction, turn: Faction) -> (r: bool)
    ensures
        r == (faction == turn),
{
    faction == turn
}

/// Whether the joining player of faction `my_faction` is to play first.
pub fn is_my_turn(my_faction: Faction, state: &InitStateResponse) -> (r: bool)
    ensures
        r == (my_faction == state.turn),
{
    is_turn_of(my_faction, state.turn)
}

/// Server to client.
pub enum Response {
    Initial(InitStateResponse),
    DrawCard { card: CardState },
}

#[derive(Clone, Debug)]
pub struct InitReq {
    pub name: String,
    pub faction: Faction,
}

/// Client to server.
#[derive(Clone, Debug)]
pub enum ActionReq {
    DrawCard,
    Init(InitReq),
}

/// A connected player: unnamed and without a faction until it has joined.
#[derive(Clone, Debug)]
pub struct Player {
    pub id: Option<String>,
    pub faction: Option<Faction>,
}

} // verus!
