//! The authoritative store of card instances, deck and hand construction,
//! and the viewer-filtered snapshots built from it.

use vstd::prelude::*;

use crate::card::{CardData, CardId, CardState, Faction, InstanceId};
use crate::catalog::{lemma_ascending_unique, Catalog};
use crate::protocol::{
    BasicStats, CommonState, GameError, PlayerStateResponse, SanctumState, ThiefState,
};

verus! {

/// Copies of each faction card that a deck holds.
pub const DECK_COPIES: usize = 4;

/// Cards dealt to an opening hand.
pub const HAND_SIZE: usize = 5;

/// Mana pool and stamina that a player starts with.
pub const STARTING_MANA: u32 = 5;

pub const STARTING_STAMINA: u32 = 5;

/// The zone an instance occupies.
#[derive(Clone, Copy, Debug, PartialEq, Eq, Structural)]
pub enum Location {
    Board { face_down: bool },
    Hand,
    Deck,
    Trash,
}

/// What the store knows of one instance: the card it is and where it lies.
#[derive(Clone, Debug)]
pub struct InstantiatedCard {
    pub id: CardId,
    pub location: Location,
}

/// Every card instance of the match. Ids are handed out from 1 upwards and
/// never taken back: instance `k` is the `k`-th record.
pub struct Instances {
    data: Vec<InstantiatedCard>,
}

impl View for Instances {
    type V = Seq<InstantiatedCard>;

    closed spec fn view(&self) -> Seq<InstantiatedCard> {
        self.data@
    }
}

/// The projection of instance `id` for a viewer who may (`visible`) or may
/// not see which card it is.
pub open spec fn projection(s: Seq<InstantiatedCard>, id: InstanceId, visible: bool) -> CardState {
    if visible {
        CardState::Revealed(id, s[id - 1].id)
    } else {
        CardState::Hidden(id)
    }
}

/// The projections of `ids`, in their order.
pub open spec fn projections(s: Seq<InstantiatedCard>, ids: Seq<InstanceId>, visible: bool) -> Seq<CardState> {
    Seq::new(ids.len(), |k: int| projection(s, ids[k], visible))
}

/// A hidden projection never shows which card an instance is; a revealed
/// one always shows the card the instance really is. Both carry the
/// instance's own id.
pub proof fn lemma_projection_visibility(s: Seq<InstantiatedCard>, id: InstanceId)
    requires
        allocated(s, id),
    ensures
        projection(s, id, false).shown_card() is None,
        projection(s, id, true).shown_card() == Some(s[id - 1].id@),
        projection(s, id, false).instance() == id,
        projection(s, id, true).instance() == id,
{
}

/// Whether `id` was allocated in a store whose records are `s`.
pub open spec fn allocated(s: Seq<InstantiatedCard>, id: InstanceId) -> bool {
    1 <= id <= s.len()
}

/// Whether `ids` lists the id `id`.
pub open spec fn lists(ids: Seq<InstanceId>, id: int) -> bool {
    exists|k: int| 0 <= k < ids.len() && #[trigger] ids[k] as int == id
}

/// The records `s` with every instance listed in `ids` moved to `loc`.
pub open spec fn moved_to(s: Seq<InstantiatedCard>, ids: Seq<InstanceId>, loc: Location) -> Seq<InstantiatedCard> {
    Seq::new(
        s.len(),
        |j: int|
            if lists(ids, j + 1) {
                InstantiatedCard { id: s[j].id, location: loc }
            } else {
                s[j]
            },
    )
}

impl Instances {
    pub open spec fn contains(&self, id: InstanceId) -> bool {
        allocated(self@, id)
    }

    pub open spec fn record(&self, id: InstanceId) -> InstantiatedCard {
        self@[id - 1]
    }

    pub fn new() -> (r: Instances)
        ensures
            r@ == Seq::<InstantiatedCard>::empty(),
    {
        Instances { data: Vec::new() }
    }

    /// The number of instances allocated so far, which is also the last id.
    pub fn count(&self) -> (r: usize)
        ensures
            r == self@.len(),
    {
        self.data.len()
    }

    /// Records a new instance of `card_id` at `location` under the next id.
    pub fn create_instance(&mut self, card_id: &CardId, location: Location) -> (r: InstanceId)
        requires
            old(self)@.len() < u32::MAX,
        ensures
            r == old(self)@.len() + 1,
            final(self)@ == old(self)@.push((InstantiatedCard { id: *card_id, location })),
    {
        let next = (self.data.len() + 1) as u32;
        self.data.push(InstantiatedCard { id: card_id.clone(), location });
        next
    }

    pub fn get_instantiated_card(&self, instance_id: InstanceId) -> (r: Result<&InstantiatedCard, GameError>)
        ensures
            match r {
                Ok(c) => self.contains(instance_id) && *c == self.record(instance_id),
                Err(e) => !self.contains(instance_id) && e == GameError::NotFound,
            },
    {
        if instance_id == 0 || instance_id as usize > self.data.len() {
            return Err(GameError::NotFound);
        }
        Ok(&self.data[(instance_id - 1) as usize])
    }

    /// Moves an instance to another zone.
    pub fn set_location(&mut self, instance_id: InstanceId, location: Location) -> (r: Result<(), GameError>)
        ensures
            match r {
                Ok(()) => old(self).contains(instance_id) && final(self)@ == old(self)@.update(
                    instance_id - 1,
                    (InstantiatedCard { id: old(self).record(instance_id).id, location }),
                ),
                Err(e) => !old(self).contains(instance_id) && e == GameError::NotFound && final(self)@
                    == old(self)@,
            },
    {
        if instance_id == 0 || instance_id as usize > self.data.len() {
            return Err(GameError::NotFound);
        }
        let i = (instance_id - 1) as usize;
        self.data[i].location = location;
        assert(self.data@ =~= old(self)@.update(
            instance_id - 1,
            (InstantiatedCard { id: old(self).record(instance_id).id, location }),
        ));
        Ok(())
    }

    /// The projection of one instance: which card it is when `visible`, its
    /// identity alone otherwise.
    pub fn create_card_state(&self, instance_id: InstanceId, visible: bool) -> (r: CardState)
        requires
            visible ==> self.contains(instance_id),
        ensures
            r == projection(self@, instance_id, visible),
    {
        if visible {
            CardState::Revealed(instance_id, self.data[(instance_id - 1) as usize].id.clone())
        } else {
            CardState::Hidden(instance_id)
        }
    }

    /// The projections of `instances`, in their order.
    pub fn create_card_states(&self, instances: &Vec<InstanceId>, visible: bool) -> (r: Vec<CardState>)
        requires
            visible ==> forall|k: int| 0 <= k < instances@.len() ==> self.contains(#[trigger] instances@[k]),
        ensures
            r@ == projections(self@, instances@, visible),
    {
        let mut cards: Vec<CardState> = Vec::new();
        let mut i: usize = 0;
        while i < instances.len()
            invariant
                i <= instances@.len(),
                visible ==> forall|k: int| 0 <= k < instances@.len() ==> self.contains(#[trigger] instances@[k]),
                cards@.len() == i,
                forall|k: int| 0 <= k < i ==> #[trigger] cards@[k] == projection(self@, instances@[k], visible),
            decreases instances@.len() - i,
        {
            cards.push(self.create_card_state(instances[i], visible));
            i = i + 1;
        }
        assert(cards@ =~= projections(self@, instances@, visible));
        cards
    }
}

/// The id that the next `create_instance` hands out.
pub open spec fn next_id(s: Seq<InstantiatedCard>) -> int {
    s.len() as int + 1
}

/// Ids are handed out in strictly increasing order and never again: the
/// next id is above every allocated one, a location change leaves it where
/// it was, and a creation allocates exactly that id and moves the next one up.
pub proof fn lemma_ids_fresh(s: Seq<InstantiatedCard>, card: InstantiatedCard, moved: InstanceId, loc: Location)
    requires
        allocated(s, moved),
    ensures
        forall|k: InstanceId| allocated(s, k) ==> k < next_id(s),
        next_id(s.update(moved - 1, (InstantiatedCard { id: s[moved - 1].id, location: loc }))) == next_id(s),
        next_id(s) <= u32::MAX ==> !allocated(s, next_id(s) as InstanceId),
        next_id(s.push(card)) == next_id(s) + 1,
        next_id(s) <= u32::MAX ==> allocated(s.push(card), next_id(s) as InstanceId),
{
}

/// The catalog entries of faction `f`, in catalog order.
pub open spec fn faction_entries(s: Seq<CardData>, f: Faction) -> Seq<CardData>
    decreases s.len(),
{
    if s.len() == 0 {
        Seq::empty()
    } else if s.last().faction == f {
        faction_entries(s.drop_last(), f).push(s.last())
    } else {
        faction_entries(s.drop_last(), f)
    }
}

pub proof fn lemma_faction_entries_len(s: Seq<CardData>, f: Faction)
    ensures
        faction_entries(s, f).len() <= s.len(),
    decreases s.len(),
{
    if s.len() > 0 {
        lemma_faction_entries_len(s.drop_last(), f);
    }
}

/// `n` copies of `s`, one after the other.
pub open spec fn repeated(s: Seq<CardData>, n: nat) -> Seq<CardData>
    decreases n,
{
    if n == 0 {
        Seq::empty()
    } else {
        repeated(s, (n - 1) as nat) + s
    }
}

pub proof fn lemma_repeated_len(s: Seq<CardData>, n: nat)
    ensures
        repeated(s, n).len() == n * s.len(),
    decreases n,
{
    if n > 0 {
        let m = (n - 1) as nat;
        lemma_repeated_len(s, m);
        assert(repeated(s, n) == repeated(s, m) + s);
        assert(n * s.len() == m * s.len() + s.len()) by (nonlinear_arith)
            requires m + 1 == n;
        assert(repeated(s, n).len() == repeated(s, m).len() + s.len());
    } else {
        assert(repeated(s, n).len() == 0);
        assert(n * s.len() == 0) by (nonlinear_arith) requires n == 0;
    }
}

/// The catalog entries that a deck of faction `f` is built from, in deck
/// order: the faction's entries in catalog order, once per copy.
pub open spec fn deck_plan(s: Seq<CardData>, f: Faction) -> Seq<CardData> {
    repeated(faction_entries(s, f), DECK_COPIES as nat)
}

/// The order of a deck depends only on which entries the catalog holds, not
/// on the order they were added in: two well-formed catalogs with the same
/// entries list them alike and plan the same deck.
pub proof fn lemma_deck_order_determined(a: &Catalog, b: &Catalog, f: Faction)
    requires
        a.wf(),
        b.wf(),
        a@.to_multiset() == b@.to_multiset(),
    ensures
        a@ == b@,
        deck_plan(a@, f) == deck_plan(b@, f),
{
    lemma_ascending_unique(a@, b@);
}

/// `new` extends `old` by one instance for each entry of `plan`, in order,
/// each at `loc`, under consecutive ids that `ids` lists.
pub open spec fn extended_by(
    old: Seq<InstantiatedCard>,
    new: Seq<InstantiatedCard>,
    ids: Seq<InstanceId>,
    plan: Seq<CardData>,
    loc: Location,
) -> bool {
    &&& ids.len() == plan.len()
    &&& new.len() == old.len() + plan.len()
    &&& new.subrange(0, old.len() as int) == old
    &&& forall|k: int| 0 <= k < ids.len() ==> #[trigger] ids[k] == old.len() + 1 + k
    &&& forall|k: int|
        0 <= k < plan.len() ==> #[trigger] new[old.len() + k] == (InstantiatedCard {
            id: plan[k].id,
            location: loc,
        })
}

/// Creates the deck of `faction`: one instance at `Deck` for each of the
/// faction's catalog entries, walked in catalog order, repeated for each copy.
pub fn instantiate_deck(faction: Faction, cards: &Catalog, instances: &mut Instances) -> (deck: Vec<InstanceId>)
    requires
        old(instances)@.len() + DECK_COPIES * cards@.len() <= u32::MAX,
    ensures
        extended_by(old(instances)@, final(instances)@, deck@, deck_plan(cards@, faction), Location::Deck),
{
    let ghost base = instances@;
    let ghost one = faction_entries(cards@, faction);
    proof {
        lemma_faction_entries_len(cards@, faction);
    }
    let mut deck: Vec<InstanceId> = Vec::new();
    let mut copy: usize = 0;
    assert(instances@.subrange(0, base.len() as int) =~= base);
    assert(repeated(one, 0) =~= Seq::<CardData>::empty());
    while copy < DECK_COPIES
        invariant
            copy <= DECK_COPIES,
            one == faction_entries(cards@, faction),
            one.len() <= cards@.len(),
            base.len() + DECK_COPIES * cards@.len() <= u32::MAX,
            extended_by(base, instances@, deck@, repeated(one, copy as nat), Location::Deck),
        decreases DECK_COPIES - copy,
    {
        proof {
            lemma_repeated_len(one, copy as nat);
            assert(copy * one.len() + one.len() <= DECK_COPIES * cards@.len()) by (nonlinear_arith)
                requires copy < DECK_COPIES, one.len() <= cards@.len();
        }
        let ghost before = repeated(one, copy as nat);
        let mut i: usize = 0;
        while i < cards.len()
            invariant
                i <= cards@.len(),
                copy < DECK_COPIES,
                one == faction_entries(cards@, faction),
                before == repeated(one, copy as nat),
                before.len() + one.len() + base.len() <= u32::MAX,
                faction_entries(cards@.subrange(0, i as int), faction).len() <= one.len(),
                extended_by(
                    base,
                    instances@,
                    deck@,
                    before + faction_entries(cards@.subrange(0, i as int), faction),
                    Location::Deck,
                ),
            decreases cards@.len() - i,
        {
            let ghost pre = cards@.subrange(0, i as int);
            let ghost pre1 = cards@.subrange(0, i + 1);
            assert(pre1.drop_last() =~= pre);
            let ghost inst0 = instances@;
            let ghost deck0 = deck@;
            let data = &cards.entries[i];
            if data.faction == faction {
                proof {
                    lemma_faction_entries_prefix_len(cards@, faction, i + 1);
                }
                let id = instances.create_instance(&data.id, Location::Deck);
                deck.push(id);
                proof {
                    let plan = before + faction_entries(pre1, faction);
                    assert(plan =~= (before + faction_entries(pre, faction)).push(cards@[i as int]));
                    assert(instances@.subrange(0, base.len() as int) =~= inst0.subrange(0, base.len() as int));
                }
            } else {
                assert(faction_entries(pre1, faction) == faction_entries(pre, faction));
            }
            i = i + 1;
        }
        assert(cards@.subrange(0, cards@.len() as int) =~= cards@);
        copy = copy + 1;
    }
    deck
}

/// A prefix of the catalog holds no more faction entries than the whole.
pub proof fn lemma_faction_entries_prefix_len(s: Seq<CardData>, f: Faction, n: int)
    requires
        0 <= n <= s.len(),
    ensures
        faction_entries(s.subrange(0, n), f).len() <= faction_entries(s, f).len(),
    decreases s.len() - n,
{
    if n < s.len() {
        lemma_faction_entries_prefix_len(s, f, n + 1);
        assert(s.subrange(0, n + 1).drop_last() =~= s.subrange(0, n));
    } else {
        assert(s.subrange(0, n) =~= s);
    }
}

/// Whether every id of `ids` is allocated in `s`.
pub open spec fn all_allocated(s: Seq<InstantiatedCard>, ids: Seq<InstanceId>) -> bool {
    forall|k: int| 0 <= k < ids.len() ==> allocated(s, #[trigger] ids[k])
}

/// The last `n` entries of `deck`, last first.
pub open spec fn dealt(deck: Seq<InstanceId>, n: int) -> Seq<InstanceId> {
    deck.subrange(deck.len() - n, deck.len() as int).reverse()
}

/// Deals `n` cards: takes them from the tail of `deck`, last first, and moves
/// each to `Hand`. A deck shorter than `n` gives `InsufficientCards`; a dealt
/// id that was never allocated gives `NotFound`. On failure nothing changes.
pub fn deal_hand(deck: &mut Vec<InstanceId>, n: usize, instances: &mut Instances) -> (r: Result<Vec<InstanceId>, GameError>)
    ensures
        (r == Err::<Vec<InstanceId>, GameError>(GameError::InsufficientCards)) <==> old(deck)@.len() < n,
        (r == Err::<Vec<InstanceId>, GameError>(GameError::NotFound)) <==> (old(deck)@.len() >= n
            && !all_allocated(old(instances)@, old(deck)@.subrange(old(deck)@.len() - n, old(deck)@.len() as int))),
        r is Ok <==> (old(deck)@.len() >= n && all_allocated(old(instances)@, old(deck)@.subrange(old(deck)@.len() - n, old(deck)@.len() as int))),
        r is Err ==> final(deck)@ == old(deck)@ && final(instances)@ == old(instances)@,
        r matches Ok(hand) ==> {
            &&& hand@ == dealt(old(deck)@, n as int)
            &&& final(deck)@ == old(deck)@.subrange(0, old(deck)@.len() - n)
            &&& final(instances)@ == moved_to(old(instances)@, hand@, Location::Hand)
        },
{
    let len = deck.len();
    if len < n {
        return Err(GameError::InsufficientCards);
    }
    let ghost tail = deck@.subrange(len - n, len as int);
    let mut j: usize = len - n;
    while j < len
        invariant
            len == deck@.len(),
            n <= len,
            len - n <= j <= len,
            tail == deck@.subrange(len - n, len as int),
            forall|k: int| len - n <= k < j ==> allocated(instances@, #[trigger] deck@[k]),
        decreases len - j,
    {
        if deck[j] == 0 || deck[j] as usize > instances.count() {
            assert(!allocated(instances@, tail[j - (len - n)]));
            assert(!all_allocated(instances@, tail));
            return Err(GameError::NotFound);
        }
        j = j + 1;
    }
    assert(all_allocated(instances@, tail)) by {
        assert forall|k: int| 0 <= k < tail.len() implies allocated(instances@, #[trigger] tail[k]) by {
            assert(tail[k] == deck@[len - n + k]);
        }
    }
    let ghost d0 = deck@;
    let ghost s0 = instances@;
    let mut hand: Vec<InstanceId> = Vec::new();
    let mut i: usize = 0;
    assert(moved_to(s0, hand@, Location::Hand) =~= s0);
    assert(d0.subrange(0, len as int) =~= d0);
    while i < n
        invariant
            len == d0.len(),
            n <= len,
            i <= n,
            forall|k: int| len - n <= k < len ==> allocated(s0, #[trigger] d0[k]),
            deck@ == d0.subrange(0, len - i),
            hand@.len() == i,
            forall|k: int| 0 <= k < i ==> #[trigger] hand@[k] == d0[len - 1 - k],
            instances@ == moved_to(s0, hand@, Location::Hand),
        decreases n - i,
    {
        let ghost h0 = hand@;
        let ghost m0 = instances@;
        let ins = deck.pop().unwrap();
        assert(deck@ =~= d0.subrange(0, len - i - 1));
        assert(ins == d0[len - 1 - i]);
        assert(allocated(s0, ins));
        let _moved = instances.set_location(ins, Location::Hand);
        hand.push(ins);
        proof {
            assert(hand@[i as int] == ins);
            assert forall|j: int| 0 <= j < s0.len() implies #[trigger] lists(hand@, j + 1) == (lists(h0, j + 1)
                || j + 1 == ins as int) by {
                if lists(h0, j + 1) {
                    let k = choose|k: int| 0 <= k < h0.len() && #[trigger] h0[k] as int == j + 1;
                    assert(hand@[k] == h0[k]);
                }
                if lists(hand@, j + 1) {
                    let k = choose|k: int| 0 <= k < hand@.len() && #[trigger] hand@[k] as int == j + 1;
                    if k < i {
                        assert(h0[k] == hand@[k]);
                    }
                }
            }
            assert(instances@ =~= moved_to(s0, hand@, Location::Hand));
        }
        i = i + 1;
    }
    assert(hand@ =~= dealt(d0, n as int));
    Ok(hand)
}

/// Deals the opening hand from the tail of `deck`.
pub fn create_hand(deck: &mut Vec<InstanceId>, instances: &mut Instances) -> (r: Result<Vec<InstanceId>, GameError>)
    ensures
        (r == Err::<Vec<InstanceId>, GameError>(GameError::InsufficientCards)) <==> old(deck)@.len() < HAND_SIZE,
        (r == Err::<Vec<InstanceId>, GameError>(GameError::NotFound)) <==> (old(deck)@.len() >= HAND_SIZE
            && !all_allocated(old(instances)@, old(deck)@.subrange(old(deck)@.len() - HAND_SIZE, old(deck)@.len() as int))),
        r is Ok <==> (old(deck)@.len() >= HAND_SIZE && all_allocated(old(instances)@, old(deck)@.subrange(old(deck)@.len() - HAND_SIZE, old(deck)@.len() as int))),
        r is Err ==> final(deck)@ == old(deck)@ && final(instances)@ == old(instances)@,
        r matches Ok(hand) ==> {
            &&& hand@ == dealt(old(deck)@, HAND_SIZE as int)
            &&& final(deck)@ == old(deck)@.subrange(0, old(deck)@.len() - HAND_SIZE)
            &&& final(instances)@ == moved_to(old(instances)@, hand@, Location::Hand)
        },
{
    deal_hand(deck, HAND_SIZE, instances)
}

/// The statistics that a player starts with.
pub open spec fn starting_stats() -> BasicStats {
    BasicStats { mana_pool: STARTING_MANA, stamina: STARTING_STAMINA, score: 0 }
}

/// `c` holds the starting statistics, the projections of `deck` and `hand`,
/// and empty discard and score zones.
pub open spec fn common_fits(
    c: CommonState,
    s: Seq<InstantiatedCard>,
    deck: Seq<InstanceId>,
    hand: Seq<InstanceId>,
    visible: bool,
) -> bool {
    &&& c.stats == starting_stats()
    &&& c.deck@ == projections(s, deck, visible)
    &&& c.hand@ == projections(s, hand, visible)
    &&& c.discard@.len() == 0
    &&& c.score_area@.len() == 0
}

/// `r` is the opening snapshot of faction `f` over `deck` and `hand`, as a
/// viewer sees it who may (`visible`) or may not see the cards: the shared
/// zones filled, the faction's own zones left out.
pub open spec fn snapshot_of(
    r: PlayerStateResponse,
    f: Faction,
    s: Seq<InstantiatedCard>,
    deck: Seq<InstanceId>,
    hand: Seq<InstanceId>,
    visible: bool,
) -> bool {
    &&& r.faction() == f
    &&& common_fits(r.common_part(), s, deck, hand, visible)
    &&& match r {
        PlayerStateResponse::Thief { specific, .. } => specific.spell_slots is None
            && specific.gear_slots is None && specific.ally_slots is None,
        PlayerStateResponse::Sanctum { specific, .. } => specific.hand_lair is None
            && specific.deck_lair is None && specific.discard_lair is None && specific.remotes is None,
    }
}

fn opening_common(visible: bool, instances: &Instances, deck: &Vec<InstanceId>, hand: &Vec<InstanceId>) -> (r: CommonState)
    requires
        visible ==> all_allocated(instances@, deck@) && all_allocated(instances@, hand@),
    ensures
        common_fits(r, instances@, deck@, hand@, visible),
{
    CommonState {
        stats: BasicStats { mana_pool: STARTING_MANA, stamina: STARTING_STAMINA, score: 0 },
        deck: instances.create_card_states(deck, visible),
        hand: instances.create_card_states(hand, visible),
        discard: Vec::new(),
        score_area: Vec::new(),
    }
}

/// The opening snapshot of the Sanctum player.
pub fn create_sanctum_state_response(
    visible: bool,
    instances: &Instances,
    deck: &Vec<InstanceId>,
    hand: &Vec<InstanceId>,
) -> (r: PlayerStateResponse)
    requires
        visible ==> all_allocated(instances@, deck@) && all_allocated(instances@, hand@),
    ensures
        snapshot_of(r, Faction::Sanctum, instances@, deck@, hand@, visible),
{
    PlayerStateResponse::Sanctum {
        common: opening_common(visible, instances, deck, hand),
        specific: SanctumState { hand_lair: None, deck_lair: None, discard_lair: None, remotes: None },
    }
}

/// The opening snapshot of the Thief player.
pub fn create_thief_state_response(
    visible: bool,
    instances: &Instances,
    deck: &Vec<InstanceId>,
    hand: &Vec<InstanceId>,
) -> (r: PlayerStateResponse)
    requires
        visible ==> all_allocated(instances@, deck@) && all_allocated(instances@, hand@),
    ensures
        snapshot_of(r, Faction::Thief, instances@, deck@, hand@, visible),
{
    PlayerStateResponse::Thief {
        common: opening_common(visible, instances, deck, hand),
        specific: ThiefState { spell_slots: None, gear_slots: None, ally_slots: None },
    }
}

} // verus!
