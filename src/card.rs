//! Card catalog records, factions and the viewer-side projection of an instance.

use vstd::prelude::*;

verus! {

/// Identifies one physical card for the duration of a match.
pub type InstanceId = u32;

/// Key of a card definition in the shared catalog.
pub type CardId = String;

#[derive(Clone, Copy, Debug, PartialEq, Eq, Structural)]
pub struct Mana(pub u32);

/// One of the two opposed sides a player commits to at session start.
#[derive(Clone, Copy, Debug, PartialEq, Eq, Structural)]
pub enum Faction {
    Sanctum,
    Thief,
}

/// The display name of a faction.
pub open spec fn faction_label(f: Faction) -> Seq<char> {
    match f {
        Faction::Sanctum => "Sanctum"@,
        Faction::Thief => "Thief"@,
    }
}

impl Faction {
    /// The display name of the faction.
    pub fn label(&self) -> (r: String)
        ensures
            r@ == faction_label(*self),
    {
        match self {
            Faction::Sanctum => "Sanctum".to_owned(),
            Faction::Thief => "Thief".to_owned(),
        }
    }
}

/// The faction that opposes `f`.
pub open spec fn opponent(f: Faction) -> Faction {
    match f {
        Faction::Sanctum => Faction::Thief,
        Faction::Thief => Faction::Sanctum,
    }
}

/// The opposing faction.
pub fn other_faction(my_faction: Faction) -> (r: Faction)
    ensures
        r == opponent(my_faction),
        r != my_faction,
{
    match my_faction {
        Faction::Sanctum => Faction::Thief,
        Faction::Thief => Faction::Sanctum,
    }
}

#[derive(Clone, Copy, Debug, PartialEq, Eq, Structural)]
pub enum WardSubType {
    Glyph,
    Rune,
    Guardian,
}

#[derive(Clone, Copy, Debug, PartialEq, Eq, Structural)]
pub enum AssetSubType {
    Ambush,
    Ritual,
}

#[derive(Clone, Copy, Debug, PartialEq, Eq, Structural)]
pub enum CounterSpellSubType {
    Fracter,
    Decoder,
    Killer,
}

/// The type-specific statistics of a card definition.
#[derive(Clone, Copy, Debug, PartialEq, Eq, Structural)]
pub enum CardType {
    AncientArtifact { vp: u32, attunement: u32 },
    Ward { subtype: WardSubType, cost: Mana, strength: u32 },
    Asset { subtype: AssetSubType, cost: Mana },
    Operation { subtype: Option<AssetSubType>, cost: Mana },
    CounterSpell { subtype: CounterSpellSubType, cost: Mana, strength: u32, focus_cost: u32 },
    Event { cost: Mana },
    MagicalGear,
    Ally,
}

/// A viewer-specific projection of one instance: either its identity and the
/// card it is, or its identity alone.
#[derive(Clone, Debug)]
pub enum CardState {
    Revealed(InstanceId, CardId),
    Hidden(InstanceId),
}

impl CardState {
    /// The instance that this projection stands for.
    pub open spec fn instance(&self) -> InstanceId {
        match self {
            CardState::Revealed(i, _) => *i,
            CardState::Hidden(i) => *i,
        }
    }

    /// The card that a revealed projection shows; none for a hidden one.
    pub open spec fn shown_card(&self) -> Option<Seq<char>> {
        match self {
            CardState::Revealed(_, c) => Some(c@),
            CardState::Hidden(_) => None,
        }
    }

    pub open spec fn is_revealed(&self) -> bool {
        self is Revealed
    }

    pub fn get_card_id(&self) -> (r: Option<CardId>)
        ensures
            r is Some <==> self is Revealed,
            r matches Some(c) ==> Some(c@) == self.shown_card(),
    {
        match self {
            CardState::Revealed(_, card_id) => Some(card_id.clone()),
            CardState::Hidden(_) => None,
        }
    }

    pub fn get_instance_id(&self) -> (r: InstanceId)
        ensures
            r == self.instance(),
    {
        match self {
            CardState::Revealed(instance_id, _) => *instance_id,
            CardState::Hidden(instance_id) => *instance_id,
        }
    }

    /// A copy of the projection.
    pub fn duplicate(&self) -> (r: CardState)
        ensures
            r == *self,
    {
        match self {
            CardState::Revealed(i, c) => CardState::Revealed(*i, c.clone()),
            CardState::Hidden(i) => CardState::Hidden(*i),
        }
    }

    /// The key of the face to draw for this projection: the card's own key
    /// when revealed, `back` when hidden.
    pub fn face_key(&self) -> (r: String)
        ensures
            r@ == match self {
                CardState::Revealed(_, c) => c@,
                CardState::Hidden(_) => "back"@,
            },
    {
        match self {
            CardState::Revealed(_, card_id) => card_id.clone(),
            CardState::Hidden(_) => "back".to_owned(),
        }
    }
}

/// One entry of the card catalog.
#[derive(Clone, Debug)]
pub struct CardData {
    pub id: CardId,
    pub title: String,
    pub faction: Faction,
    pub text: String,
    pub image_file: String,
    pub data: CardType,
}

impl CardData {
    /// A field-for-field copy.
    pub fn duplicate(&self) -> (r: CardData)
        ensures
            r == *self,
    {
        CardData {
            id: self.id.clone(),
            title: self.title.clone(),
            faction: self.faction,
            text: self.text.clone(),
            image_file: self.image_file.clone(),
            data: self.data,
        }
    }
}

} // verus!
