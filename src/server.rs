//! The server's match state and the per-connection action processor.

use vstd::prelude::*;

use crate::card::{opponent, CardData, CardState, Faction, InstanceId};
use crate::catalog::Catalog;
use crate::instances::{
    all_allocated, allocated, create_hand, create_sanctum_state_response,
    create_thief_state_response, deck_plan, faction_entries, lemma_faction_entries_len, lemma_repeated_len, instantiate_deck, lists,
    projection, snapshot_of, Instances, InstantiatedCard, Location, DECK_COPIES, HAND_SIZE,
};
use crate::protocol::{ActionReq, GameError, InitStateResponse, Player, Response};

verus! {

/// The transport's name for one connection.
pub type ConnectionId = u64;

/// The shared state of one match.
pub struct Game {
    pub instances: Instances,
    pub sanctum_deck: Vec<InstanceId>,
    pub sanctum_hand: Vec<InstanceId>,
    pub thief_deck: Vec<InstanceId>,
    pub thief_hand: Vec<InstanceId>,
    pub cards: Catalog,
    pub turn: Faction,
}

impl Game {
    pub open spec fn deck_of(&self, f: Faction) -> Seq<InstanceId> {
        match f {
            Faction::Sanctum => self.sanctum_deck@,
            Faction::Thief => self.thief_deck@,
        }
    }

    pub open spec fn hand_of(&self, f: Faction) -> Seq<InstanceId> {
        match f {
            Faction::Sanctum => self.sanctum_hand@,
            Faction::Thief => self.thief_hand@,
        }
    }

    /// Every id in a deck or a hand names an allocated instance.
    pub open spec fn wf(&self) -> bool {
        &&& all_allocated(self.instances@, self.sanctum_deck@)
        &&& all_allocated(self.instances@, self.sanctum_hand@)
        &&& all_allocated(self.instances@, self.thief_deck@)
        &&& all_allocated(self.instances@, self.thief_hand@)
    }
}

/// The instances of one faction, made from `plan` under the consecutive ids
/// after `base`: the deck holds the first ones in order at `Deck`, the hand
/// the last `HAND_SIZE` ones, last first, at `Hand`.
pub open spec fn dealt_layout(
    s: Seq<InstantiatedCard>,
    deck: Seq<InstanceId>,
    hand: Seq<InstanceId>,
    plan: Seq<CardData>,
    base: int,
) -> bool {
    &&& hand.len() == HAND_SIZE
    &&& deck.len() + hand.len() == plan.len()
    &&& 0 <= base
    &&& base + plan.len() <= s.len()
    &&& forall|k: int|
        0 <= k < deck.len() ==> #[trigger] deck[k] == base + 1 + k && s[base + k] == (InstantiatedCard {
            id: plan[k].id,
            location: Location::Deck,
        })
    &&& forall|k: int|
        0 <= k < hand.len() ==> #[trigger] hand[k] == base + plan.len() - k && s[base + plan.len() - 1 - k]
            == (InstantiatedCard { id: plan[plan.len() - 1 - k].id, location: Location::Hand })
}

/// Creates one faction's deck and deals its opening hand.
fn set_up_faction(faction: Faction, cards: &Catalog, instances: &mut Instances) -> (r: Result<
    (Vec<InstanceId>, Vec<InstanceId>),
    GameError,
>)
    requires
        old(instances)@.len() + DECK_COPIES * cards@.len() <= u32::MAX,
    ensures
        r is Err <==> deck_plan(cards@, faction).len() < HAND_SIZE,
        r is Err ==> r == Err::<(Vec<InstanceId>, Vec<InstanceId>), GameError>(GameError::InsufficientCards),
        r matches Ok((deck, hand)) ==> {
            &&& dealt_layout(final(instances)@, deck@, hand@, deck_plan(cards@, faction), old(instances)@.len() as int)
            &&& final(instances)@.len() == old(instances)@.len() + deck_plan(cards@, faction).len()
            &&& final(instances)@.subrange(0, old(instances)@.len() as int) == old(instances)@
            &&& all_allocated(final(instances)@, deck@) && all_allocated(final(instances)@, hand@)
        },
{
    let ghost s0 = instances@;
    let ghost base = s0.len() as int;
    let ghost plan = deck_plan(cards@, faction);
    let mut deck = instantiate_deck(faction, cards, instances);
    let ghost s1 = instances@;
    let ghost d1 = deck@;
    let dealt = create_hand(&mut deck, instances);
    match dealt {
        Err(e) => {
            proof { if d1.len() >= HAND_SIZE {
                let t = d1.subrange(d1.len() - HAND_SIZE, d1.len() as int);
                assert forall|k: int| 0 <= k < t.len() implies allocated(s1, #[trigger] t[k]) by {
                    assert(t[k] == d1[d1.len() - HAND_SIZE + k]);
                }
            } }
            Err(e)
        },
        Ok(hand) => {
            proof {
                let s2 = instances@;
                assert forall|k: int| 0 <= k < deck@.len() implies #[trigger] deck@[k] == base + 1 + k && s2[base
                    + k] == (InstantiatedCard { id: plan[k].id, location: Location::Deck }) by {
                    assert(d1[k] == base + 1 + k);
                    assert(s1[base + k] == (InstantiatedCard { id: plan[k].id, location: Location::Deck }));
                    if lists(hand@, base + k + 1) {
                        let j = choose|j: int| 0 <= j < hand@.len() && #[trigger] hand@[j] as int == base + k + 1;
                        assert(hand@[j] == d1[d1.len() - 1 - j]);
                    }
                }
                assert forall|k: int| 0 <= k < hand@.len() implies #[trigger] hand@[k] == base + plan.len() - k
                    && s2[base + plan.len() - 1 - k] == (InstantiatedCard {
                    id: plan[plan.len() - 1 - k].id,
                    location: Location::Hand,
                }) by {
                    assert(hand@[k] == d1[d1.len() - 1 - k]);
                    assert(lists(hand@, base + plan.len() - k));
                    let k2 = plan.len() - 1 - k;
                    assert(s1[base + k2] == (InstantiatedCard { id: plan[k2].id, location: Location::Deck }));
                }
                assert(s2.subrange(0, base) =~= s0) by {
                    assert forall|j: int| 0 <= j < base implies s2[j] == s0[j] by {
                        assert(s1.subrange(0, base)[j] == s1[j]);
                        if lists(hand@, j + 1) {
                            let m = choose|m: int| 0 <= m < hand@.len() && #[trigger] hand@[m] as int == j + 1;
                            assert(hand@[m] == d1[d1.len() - 1 - m]);
                        }
                    }
                }
            }
            Ok((deck, hand))
        },
    }
}


/// A prefix of the records that a faction's instances lie in is kept by any
/// store that extends it.
pub proof fn lemma_dealt_layout_extend(
    s: Seq<InstantiatedCard>,
    t: Seq<InstantiatedCard>,
    deck: Seq<InstanceId>,
    hand: Seq<InstanceId>,
    plan: Seq<CardData>,
    base: int,
)
    requires
        dealt_layout(s, deck, hand, plan, base),
        s.len() <= t.len(),
        t.subrange(0, s.len() as int) == s,
    ensures
        dealt_layout(t, deck, hand, plan, base),
{
    assert forall|j: int| 0 <= j < s.len() implies t[j] == s[j] by {
        assert(t.subrange(0, s.len() as int)[j] == t[j]);
    }
}

/// A deck holds at most one instance per catalog entry and copy.
pub proof fn lemma_deck_plan_len(s: Seq<CardData>, f: Faction)
    ensures
        deck_plan(s, f).len() <= DECK_COPIES * s.len(),
{
    lemma_faction_entries_len(s, f);
    lemma_repeated_len(faction_entries(s, f), DECK_COPIES as nat);
}

impl Game {
    /// Sets up a match over `cards`: the Sanctum deck and hand first, then the
    /// Thief's, with Sanctum to play. A faction with too few cards for an
    /// opening hand gives `InsufficientCards`.
    pub fn new(cards: Catalog) -> (r: Result<Game, GameError>)
        requires
            2 * DECK_COPIES * cards@.len() <= u32::MAX,
        ensures
            r is Err <==> (deck_plan(cards@, Faction::Sanctum).len() < HAND_SIZE || deck_plan(
                cards@,
                Faction::Thief,
            ).len() < HAND_SIZE),
            r is Err ==> r == Err::<Game, GameError>(GameError::InsufficientCards),
            r matches Ok(g) ==> {
                &&& g.wf()
                &&& g.turn == Faction::Sanctum
                &&& g.cards@ == cards@
                &&& dealt_layout(g.instances@, g.sanctum_deck@, g.sanctum_hand@, deck_plan(cards@, Faction::Sanctum), 0)
                &&& dealt_layout(
                    g.instances@,
                    g.thief_deck@,
                    g.thief_hand@,
                    deck_plan(cards@, Faction::Thief),
                    deck_plan(cards@, Faction::Sanctum).len() as int,
                )
            },
    {
        let mut instances = Instances::new();
        proof {
            lemma_deck_plan_len(cards@, Faction::Sanctum);
            lemma_deck_plan_len(cards@, Faction::Thief);
            assert(DECK_COPIES * cards@.len() + DECK_COPIES * cards@.len() == 2 * DECK_COPIES * cards@.len())
                by (nonlinear_arith);
        }
        let sanctum = set_up_faction(Faction::Sanctum, &cards, &mut instances);
        let (sanctum_deck, sanctum_hand) = match sanctum {
            Ok(p) => p,
            Err(e) => {
                return Err(e);
            },
        };
        let ghost s1 = instances@;
        let thief = set_up_faction(Faction::Thief, &cards, &mut instances);
        let (thief_deck, thief_hand) = match thief {
            Ok(p) => p,
            Err(e) => {
                return Err(e);
            },
        };
        proof {
            lemma_dealt_layout_extend(
                s1,
                instances@,
                sanctum_deck@,
                sanctum_hand@,
                deck_plan(cards@, Faction::Sanctum),
                0,
            );
        }
        Ok(Game {
            instances,
            sanctum_deck,
            sanctum_hand,
            thief_deck,
            thief_hand,
            cards,
            turn: Faction::Sanctum,
        })
    }

    /// Draws the top card of `faction`'s deck into its hand.
    pub fn draw_card(&mut self, faction: Faction) -> (r: Result<InstanceId, GameError>)
        requires
            old(self).wf(),
        ensures
            final(self).wf(),
            final(self).turn == old(self).turn,
            final(self).cards@ == old(self).cards@,
            final(self).deck_of(opponent(faction)) == old(self).deck_of(opponent(faction)),
            final(self).hand_of(opponent(faction)) == old(self).hand_of(opponent(faction)),
            match r {
                Err(e) => e == GameError::EmptyDeck && old(self).deck_of(faction).len() == 0
                    && final(self).deck_of(faction) == old(self).deck_of(faction) && final(self).hand_of(faction)
                    == old(self).hand_of(faction) && final(self).instances@ == old(self).instances@,
                Ok(id) => {
                    &&& old(self).deck_of(faction).len() > 0
                    &&& id == old(self).deck_of(faction).last()
                    &&& final(self).deck_of(faction) == old(self).deck_of(faction).drop_last()
                    &&& final(self).hand_of(faction) == old(self).hand_of(faction).push(id)
                    &&& final(self).instances@ == old(self).instances@.update(
                        id - 1,
                        (InstantiatedCard { id: old(self).instances@[id - 1].id, location: Location::Hand }),
                    )
                },
            },
    {
        let popped = match faction {
            Faction::Sanctum => self.sanctum_deck.pop(),
            Faction::Thief => self.thief_deck.pop(),
        };
        let id = match popped {
            Some(id) => id,
            None => {
                return Err(GameError::EmptyDeck);
            },
        };
        let ghost d = old(self).deck_of(faction);
        assert(id == d[d.len() - 1]);
        let _moved = self.instances.set_location(id, Location::Hand);
        match faction {
            Faction::Sanctum => self.sanctum_hand.push(id),
            Faction::Thief => self.thief_hand.push(id),
        }
        proof {
            let s = self.instances@;
            assert forall|k: int| 0 <= k < self.sanctum_deck@.len() implies allocated(
                s,
                #[trigger] self.sanctum_deck@[k],
            ) by {
                assert(self.sanctum_deck@[k] == old(self).sanctum_deck@[k]);
            }
            assert forall|k: int| 0 <= k < self.thief_deck@.len() implies allocated(
                s,
                #[trigger] self.thief_deck@[k],
            ) by {
                assert(self.thief_deck@[k] == old(self).thief_deck@[k]);
            }
            assert forall|k: int| 0 <= k < self.sanctum_hand@.len() implies allocated(
                s,
                #[trigger] self.sanctum_hand@[k],
            ) by {
                if k < old(self).sanctum_hand@.len() {
                    assert(self.sanctum_hand@[k] == old(self).sanctum_hand@[k]);
                }
            }
            assert forall|k: int| 0 <= k < self.thief_hand@.len() implies allocated(
                s,
                #[trigger] self.thief_hand@[k],
            ) by {
                if k < old(self).thief_hand@.len() {
                    assert(self.thief_hand@[k] == old(self).thief_hand@[k]);
                }
            }
        }
        Ok(id)
    }
}


/// One connection and the player behind it.
#[derive(Clone, Debug)]
pub struct Session {
    pub connection: ConnectionId,
    pub player: Player,
}

/// A response addressed to one connection.
pub struct Outgoing {
    pub to: ConnectionId,
    pub response: Response,
}

/// Whether connection `c` has a session in `s`.
pub open spec fn connected(s: Seq<Session>, c: ConnectionId) -> bool {
    exists|i: int| 0 <= i < s.len() && #[trigger] s[i].connection == c
}

/// The place of connection `c`'s session in `s`.
pub open spec fn slot(s: Seq<Session>, c: ConnectionId) -> int {
    choose|i: int| 0 <= i < s.len() && #[trigger] s[i].connection == c
}

/// No connection has two sessions.
pub open spec fn distinct_connections(s: Seq<Session>) -> bool {
    forall|i: int, j: int|
        0 <= i < s.len() && 0 <= j < s.len() && i != j ==> #[trigger] s[i].connection != #[trigger] s[j].connection
}

/// Whether a session other than `c`'s plays faction `f`.
pub open spec fn faction_taken(s: Seq<Session>, f: Faction, c: ConnectionId) -> bool {
    exists|i: int| 0 <= i < s.len() && #[trigger] s[i].connection != c && s[i].player.faction == Some(f)
}

/// The connections other than `c` whose players have joined, in session order.
pub open spec fn watchers(s: Seq<Session>, c: ConnectionId) -> Seq<ConnectionId>
    decreases s.len(),
{
    if s.len() == 0 {
        Seq::empty()
    } else if s.last().connection != c && s.last().player.faction is Some {
        watchers(s.drop_last(), c).push(s.last().connection)
    } else {
        watchers(s.drop_last(), c)
    }
}

/// The match state and the connection table of the server.
pub struct Server {
    pub game: Game,
    pub sessions: Vec<Session>,
}

impl Server {
    pub open spec fn wf(&self) -> bool {
        self.game.wf() && distinct_connections(self.sessions@)
    }

    /// Whether the match state of `self` and `other` is the same.
    pub open spec fn same_game(&self, other: Server) -> bool {
        &&& self.game.instances@ == other.game.instances@
        &&& self.game.sanctum_deck@ == other.game.sanctum_deck@
        &&& self.game.sanctum_hand@ == other.game.sanctum_hand@
        &&& self.game.thief_deck@ == other.game.thief_deck@
        &&& self.game.thief_hand@ == other.game.thief_hand@
        &&& self.game.cards@ == other.game.cards@
        &&& self.game.turn == other.game.turn
    }

    /// Why connection `c` may not perform `action`, if it may not.
    pub open spec fn rejection(&self, c: ConnectionId, action: ActionReq) -> Option<GameError> {
        let s = self.sessions@;
        if !connected(s, c) {
            Some(GameError::ProtocolViolation)
        } else {
            let p = s[slot(s, c)].player;
            match action {
                ActionReq::Init(req) => if p.faction is Some {
                    Some(GameError::ProtocolViolation)
                } else if faction_taken(s, req.faction, c) {
                    Some(GameError::FactionAlreadyTaken)
                } else {
                    None
                },
                ActionReq::DrawCard => match p.faction {
                    None => Some(GameError::ProtocolViolation),
                    Some(f) => if f != self.game.turn {
                        Some(GameError::NotYourTurn)
                    } else if self.game.deck_of(f).len() == 0 {
                        Some(GameError::EmptyDeck)
                    } else {
                        None
                    },
                },
            }
        }
    }

    /// `out` holds the single initial response for connection `c` playing
    /// `f`: its own zones revealed, the opponent's hidden.
    pub open spec fn initial_reply(&self, c: ConnectionId, f: Faction, out: Seq<Outgoing>) -> bool {
        let g = self.game;
        &&& out.len() == 1
        &&& out[0].to == c
        &&& out[0].response matches Response::Initial(init) && {
            &&& init.my_state matches Some(m) && snapshot_of(m, f, g.instances@, g.deck_of(f), g.hand_of(f), true)
            &&& init.other_state matches Some(o) && snapshot_of(
                o,
                opponent(f),
                g.instances@,
                g.deck_of(opponent(f)),
                g.hand_of(opponent(f)),
                false,
            )
            &&& init.card_set@ == g.cards@
            &&& init.turn == g.turn
        }
    }

    /// `out` tells connection `c` which card `id` it drew, and every other
    /// joined connection only that instance `id` was drawn.
    pub open spec fn draw_replies(&self, c: ConnectionId, id: InstanceId, out: Seq<Outgoing>) -> bool {
        let w = watchers(self.sessions@, c);
        &&& out.len() == 1 + w.len()
        &&& out[0].to == c
        &&& out[0].response == (Response::DrawCard { card: projection(self.game.instances@, id, true) })
        &&& forall|k: int|
            0 <= k < w.len() ==> (#[trigger] out[k + 1]).to == w[k] && out[k + 1].response == (Response::DrawCard {
                card: CardState::Hidden(id),
            })
    }

    pub fn new(game: Game) -> (r: Server)
        ensures
            r.game == game,
            r.sessions@.len() == 0,
    {
        Server { game, sessions: Vec::new() }
    }

    /// The place of connection `c`'s session, if it has one.
    pub fn find_session(&self, c: ConnectionId) -> (r: Option<usize>)
        requires
            self.wf(),
        ensures
            r is Some <==> connected(self.sessions@, c),
            r matches Some(i) ==> i == slot(self.sessions@, c),
    {
        let mut i: usize = 0;
        while i < self.sessions.len()
            invariant
                self.wf(),
                i <= self.sessions@.len(),
                forall|k: int| 0 <= k < i ==> #[trigger] self.sessions@[k].connection != c,
            decreases self.sessions@.len() - i,
        {
            if self.sessions[i].connection == c {
                proof {
                    let j = slot(self.sessions@, c);
                    assert(self.sessions@[i as int].connection == c);
                    assert(0 <= j < self.sessions@.len() && self.sessions@[j].connection == c);
                    if j != i {
                        assert(self.sessions@[i as int].connection != self.sessions@[j].connection);
                    }
                }
                return Some(i);
            }
            i = i + 1;
        }
        None
    }

    /// The faction that connection `c`'s player has joined with (Sanctum
    /// where it has not joined).
    pub open spec fn acting_faction(&self, c: ConnectionId) -> Faction {
        match self.sessions@[slot(self.sessions@, c)].player.faction {
            Some(f) => f,
            None => Faction::Sanctum,
        }
    }

    /// Whether a session other than `c`'s plays faction `f`.
    pub fn faction_in_use(&self, f: Faction, c: ConnectionId) -> (r: bool)
        ensures
            r == faction_taken(self.sessions@, f, c),
    {
        let mut i: usize = 0;
        while i < self.sessions.len()
            invariant
                i <= self.sessions@.len(),
                forall|k: int|
                    0 <= k < i ==> !(#[trigger] self.sessions@[k].connection != c
                        && self.sessions@[k].player.faction == Some(f)),
            decreases self.sessions@.len() - i,
        {
            let s = &self.sessions[i];
            if s.connection != c {
                match s.player.faction {
                    Some(g) => {
                        if g == f {
                            assert(self.sessions@[i as int].connection != c);
                            return true;
                        }
                    },
                    None => {},
                }
            }
            i = i + 1;
        }
        false
    }

    /// The initial response for a player of faction `f`.
    fn initial_state(&self, f: Faction) -> (r: InitStateResponse)
        requires
            self.game.wf(),
        ensures
            r.my_state matches Some(m) && snapshot_of(
                m,
                f,
                self.game.instances@,
                self.game.deck_of(f),
                self.game.hand_of(f),
                true,
            ),
            r.other_state matches Some(o) && snapshot_of(
                o,
                opponent(f),
                self.game.instances@,
                self.game.deck_of(opponent(f)),
                self.game.hand_of(opponent(f)),
                false,
            ),
            r.card_set@ == self.game.cards@,
            r.turn == self.game.turn,
    {
        let g = &self.game;
        let (mine, other) = match f {
            Faction::Sanctum => (
                create_sanctum_state_response(true, &g.instances, &g.sanctum_deck, &g.sanctum_hand),
                create_thief_state_response(false, &g.instances, &g.thief_deck, &g.thief_hand),
            ),
            Faction::Thief => (
                create_thief_state_response(true, &g.instances, &g.thief_deck, &g.thief_hand),
                create_sanctum_state_response(false, &g.instances, &g.sanctum_deck, &g.sanctum_hand),
            ),
        };
        InitStateResponse { my_state: Some(mine), other_state: Some(other), card_set: g.cards.duplicate(), turn: g.turn }
    }

    /// Performs `action` for connection `c`. A rejected action changes
    /// nothing and gives its error. `Init` binds the player's name and
    /// faction and answers that connection alone; `DrawCard` moves the top of
    /// the acting player's deck to its hand and tells the drawer which card
    /// it is and every other joined player which instance was drawn.
    pub fn handle(&mut self, c: ConnectionId, action: ActionReq) -> (r: Result<Vec<Outgoing>, GameError>)
        requires
            old(self).wf(),
        ensures
            final(self).wf(),
            match old(self).rejection(c, action) {
                Some(e) => r == Err::<Vec<Outgoing>, GameError>(e) && final(self).sessions@ == old(self).sessions@
                    && final(self).same_game(*old(self)),
                None => match action {
                    ActionReq::Init(req) => {
                        &&& final(self).same_game(*old(self))
                        &&& final(self).sessions@ == old(self).sessions@.update(
                            slot(old(self).sessions@, c),
                            (Session { connection: c, player: Player { id: Some(req.name), faction: Some(req.faction) } }),
                        )
                        &&& r matches Ok(out) && old(self).initial_reply(c, req.faction, out@)
                    },
                    ActionReq::DrawCard => {
                        let f = old(self).acting_faction(c);
                        let id = old(self).game.deck_of(f).last();
                        &&& final(self).sessions@ == old(self).sessions@
                        &&& final(self).game.turn == old(self).game.turn
                        &&& final(self).game.cards@ == old(self).game.cards@
                        &&& final(self).game.deck_of(f) == old(self).game.deck_of(f).drop_last()
                        &&& final(self).game.hand_of(f) == old(self).game.hand_of(f).push(id)
                        &&& final(self).game.deck_of(opponent(f)) == old(self).game.deck_of(opponent(f))
                        &&& final(self).game.hand_of(opponent(f)) == old(self).game.hand_of(opponent(f))
                        &&& final(self).game.instances@ == old(self).game.instances@.update(
                            id - 1,
                            (InstantiatedCard { id: old(self).game.instances@[id - 1].id, location: Location::Hand }),
                        )
                        &&& r matches Ok(out) && final(self).draw_replies(c, id, out@)
                    },
                },
            },
    {
        let i = match self.find_session(c) {
            Some(i) => i,
            None => {
                return Err(GameError::ProtocolViolation);
            },
        };
        match action {
            ActionReq::Init(req) => {
                if self.sessions[i].player.faction.is_some() {
                    return Err(GameError::ProtocolViolation);
                }
                if self.faction_in_use(req.faction, c) {
                    return Err(GameError::FactionAlreadyTaken);
                }
                let f = req.faction;
                let reply = self.initial_state(f);
                let ghost s0 = self.sessions@;
                self.sessions[i].player = Player { id: Some(req.name), faction: Some(f) };
                proof {
                    assert forall|a: int, b: int|
                        0 <= a < self.sessions@.len() && 0 <= b < self.sessions@.len() && a != b implies #[trigger] self.sessions@[a].connection
                        != #[trigger] self.sessions@[b].connection by {
                        assert(s0[a].connection == self.sessions@[a].connection);
                        assert(s0[b].connection == self.sessions@[b].connection);
                    }
                }
                let mut out: Vec<Outgoing> = Vec::new();
                out.push(Outgoing { to: c, response: Response::Initial(reply) });
                Ok(out)
            },
            ActionReq::DrawCard => {
                let f = match self.sessions[i].player.faction {
                    Some(f) => f,
                    None => {
                        return Err(GameError::ProtocolViolation);
                    },
                };
                if f != self.game.turn {
                    return Err(GameError::NotYourTurn);
                }
                let id = match self.game.draw_card(f) {
                    Ok(id) => id,
                    Err(e) => {
                        return Err(e);
                    },
                };
                let card = self.game.instances.create_card_state(id, true);
                let mut out: Vec<Outgoing> = Vec::new();
                out.push(Outgoing { to: c, response: Response::DrawCard { card } });
                let ghost s = self.sessions@;
                let mut k: usize = 0;
                assert(s.subrange(0, 0) =~= Seq::<Session>::empty());
                while k < self.sessions.len()
                    invariant
                        self.sessions@ == s,
                        k <= s.len(),
                        out@.len() == 1 + watchers(s.subrange(0, k as int), c).len(),
                        out@[0].to == c,
                        out@[0].response == (Response::DrawCard { card: projection(self.game.instances@, id, true) }),
                        forall|j: int|
                            0 <= j < watchers(s.subrange(0, k as int), c).len() ==> (#[trigger] out@[j + 1]).to
                                == watchers(s.subrange(0, k as int), c)[j] && out@[j + 1].response == (Response::DrawCard {
                                card: CardState::Hidden(id),
                            }),
                    decreases s.len() - k,
                {
                    let ghost pre = s.subrange(0, k as int);
                    let ghost pre1 = s.subrange(0, k + 1);
                    assert(pre1.drop_last() =~= pre);
                    let ghost w0 = watchers(pre, c);
                    let ghost out0 = out@;
                    let session = &self.sessions[k];
                    if session.connection != c && session.player.faction.is_some() {
                        out.push(Outgoing { to: session.connection, response: Response::DrawCard { card: CardState::Hidden(id) } });
                        assert(watchers(pre1, c) == w0.push(s[k as int].connection));
                        assert forall|j: int| 0 <= j < w0.len() + 1 implies (#[trigger] out@[j + 1]).to
                            == watchers(pre1, c)[j] && out@[j + 1].response == (Response::DrawCard {
                            card: CardState::Hidden(id),
                        }) by {
                            if j < w0.len() {
                                assert(out@[j + 1] == out0[j + 1]);
                            }
                        }
                    } else {
                        assert(watchers(pre1, c) == w0);
                        assert(out@ == out0);
                        assert forall|j: int| 0 <= j < w0.len() implies (#[trigger] out@[j + 1]).to
                            == watchers(pre1, c)[j] && out@[j + 1].response == (Response::DrawCard {
                            card: CardState::Hidden(id),
                        }) by {
                            assert(out0[j + 1].to == w0[j]);
                        }
                    }
                    k = k + 1;
                }
                assert(s.subrange(0, s.len() as int) =~= s);
                Ok(out)
            },
        }
    }

    /// Opens a session for a new connection, not yet joined. A connection
    /// that already has one keeps it.
    pub fn connect(&mut self, c: ConnectionId)
        requires
            old(self).wf(),
        ensures
            final(self).wf(),
            final(self).game == old(self).game,
            connected(old(self).sessions@, c) ==> final(self).sessions@ == old(self).sessions@,
            !connected(old(self).sessions@, c) ==> final(self).sessions@ == old(self).sessions@.push(
                (Session { connection: c, player: Player { id: None, faction: None } }),
            ),
    {
        if self.find_session(c).is_none() {
            self.sessions.push(Session { connection: c, player: Player { id: None, faction: None } });
        }
    }

    /// Closes connection `c`'s session, if it has one.
    pub fn disconnect(&mut self, c: ConnectionId)
        requires
            old(self).wf(),
        ensures
            final(self).wf(),
            final(self).game == old(self).game,
            connected(old(self).sessions@, c) ==> final(self).sessions@ == old(self).sessions@.remove(
                slot(old(self).sessions@, c),
            ),
            !connected(old(self).sessions@, c) ==> final(self).sessions@ == old(self).sessions@,
    {
        match self.find_session(c) {
            Some(i) => {
                let ghost s = self.sessions@;
                let _removed = self.sessions.remove(i);
                assert forall|a: int, b: int|
                    0 <= a < self.sessions@.len() && 0 <= b < self.sessions@.len() && a != b implies #[trigger] self.sessions@[a].connection
                    != #[trigger] self.sessions@[b].connection by {
                    let a2 = if a < i { a } else { a + 1 };
                    let b2 = if b < i { b } else { b + 1 };
                    assert(self.sessions@[a] == s[a2] && self.sessions@[b] == s[b2]);
                }
            },
            None => {},
        }
    }
}

} // verus!
