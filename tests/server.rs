use card_duel::card::{CardData, CardState, CardType, Faction};
use card_duel::catalog::Catalog;
use card_duel::protocol::{is_my_turn, is_turn_of, ActionReq, GameError, InitReq, Response};
use card_duel::server::{Game, Outgoing, Server};

fn entry(id: &str, faction: Faction) -> CardData {
    CardData {
        id: id.to_string(),
        title: id.to_string(),
        faction,
        text: String::new(),
        image_file: String::new(),
        data: CardType::MagicalGear,
    }
}

fn catalog() -> Catalog {
    let mut c = Catalog::new();
    c.insert(entry("sanc-001", Faction::Sanctum));
    c.insert(entry("sanc-002", Faction::Sanctum));
    c.insert(entry("thief-001", Faction::Thief));
    c.insert(entry("thief-002", Faction::Thief));
    c
}

fn init(name: &str, faction: Faction) -> ActionReq {
    ActionReq::Init(InitReq { name: name.to_string(), faction })
}

fn server() -> Server {
    let mut s = Server::new(Game::new(catalog()).unwrap());
    s.connect(1);
    s.connect(2);
    s
}

fn drawn(out: &Outgoing) -> CardState {
    match &out.response {
        Response::DrawCard { card } => card.clone(),
        Response::Initial(_) => panic!("expected a draw"),
    }
}

#[test]
fn game_setup_deals_both_factions() {
    let g = Game::new(catalog()).unwrap();
    assert_eq!(g.sanctum_deck, vec![1, 2, 3]);
    assert_eq!(g.sanctum_hand, vec![8, 7, 6, 5, 4]);
    assert_eq!(g.thief_deck, vec![9, 10, 11]);
    assert_eq!(g.thief_hand, vec![16, 15, 14, 13, 12]);
    assert_eq!(g.turn, Faction::Sanctum);
    assert_eq!(g.instances.count(), 16);
}

#[test]
fn game_setup_needs_five_cards_per_faction() {
    let mut c = Catalog::new();
    c.insert(entry("sanc-001", Faction::Sanctum));
    c.insert(entry("thief-001", Faction::Thief));
    c.insert(entry("thief-002", Faction::Thief));
    assert_eq!(Game::new(c).err(), Some(GameError::InsufficientCards));
}

#[test]
fn init_answers_with_own_cards_revealed_and_opponent_hidden() {
    let mut s = server();
    let out = s.handle(1, init("alice", Faction::Sanctum)).unwrap();
    assert_eq!(out.len(), 1);
    assert_eq!(out[0].to, 1);
    let reply = match &out[0].response {
        Response::Initial(r) => r,
        Response::DrawCard { .. } => panic!("expected the initial state"),
    };
    assert_eq!(reply.turn, Faction::Sanctum);
    assert!(is_my_turn(Faction::Sanctum, reply));
    assert_eq!(reply.card_set.len(), 4);
    let mine = reply.my_state.clone().unwrap().get_common();
    let other = reply.other_state.clone().unwrap().get_common();
    assert_eq!(mine.hand.len(), 5);
    assert_eq!(mine.deck.len(), 3);
    assert!(mine.hand.iter().chain(mine.deck.iter()).all(|c| c.get_card_id().is_some()));
    assert!(other.hand.iter().chain(other.deck.iter()).all(|c| c.get_card_id().is_none()));
    assert_eq!(other.hand[0].get_instance_id(), 16);
    assert_eq!(s.sessions[0].player.id, Some("alice".to_string()));
    assert_eq!(s.sessions[0].player.faction, Some(Faction::Sanctum));
}

#[test]
fn second_player_cannot_take_the_same_faction() {
    let mut s = server();
    s.handle(1, init("alice", Faction::Sanctum)).unwrap();
    assert_eq!(s.handle(2, init("bob", Faction::Sanctum)).err(), Some(GameError::FactionAlreadyTaken));
    assert_eq!(s.sessions[1].player.faction, None);
    assert!(s.handle(2, init("bob", Faction::Thief)).is_ok());
}

#[test]
fn out_of_order_actions_are_protocol_violations() {
    let mut s = server();
    assert_eq!(s.handle(1, ActionReq::DrawCard).err(), Some(GameError::ProtocolViolation));
    s.handle(1, init("alice", Faction::Sanctum)).unwrap();
    assert_eq!(s.handle(1, init("alice", Faction::Thief)).err(), Some(GameError::ProtocolViolation));
    assert_eq!(s.handle(9, init("eve", Faction::Thief)).err(), Some(GameError::ProtocolViolation));
}

#[test]
fn drawing_out_of_turn_is_refused() {
    let mut s = server();
    s.handle(2, init("bob", Faction::Thief)).unwrap();
    assert!(!is_turn_of(Faction::Thief, s.game.turn));
    assert_eq!(s.handle(2, ActionReq::DrawCard).err(), Some(GameError::NotYourTurn));
    assert_eq!(s.game.thief_deck, vec![9, 10, 11]);
}

#[test]
fn draw_sends_complementary_projections() {
    let mut s = server();
    s.handle(1, init("alice", Faction::Sanctum)).unwrap();
    s.handle(2, init("bob", Faction::Thief)).unwrap();
    let out = s.handle(1, ActionReq::DrawCard).unwrap();
    assert_eq!(out.len(), 2);
    assert_eq!(out[0].to, 1);
    assert_eq!(out[1].to, 2);
    let mine = drawn(&out[0]);
    let theirs = drawn(&out[1]);
    assert_eq!(mine.get_instance_id(), 3);
    assert_eq!(theirs.get_instance_id(), 3);
    assert_eq!(mine.get_card_id(), Some("sanc-001".to_string()));
    assert_eq!(theirs.get_card_id(), None);
    assert_eq!(s.game.sanctum_deck, vec![1, 2]);
    assert_eq!(s.game.sanctum_hand, vec![8, 7, 6, 5, 4, 3]);
}

#[test]
fn draw_with_only_the_drawer_joined_answers_the_drawer() {
    let mut s = server();
    s.handle(1, init("alice", Faction::Sanctum)).unwrap();
    let out = s.handle(1, ActionReq::DrawCard).unwrap();
    assert_eq!(out.len(), 1);
}

#[test]
fn empty_deck_draw_changes_nothing() {
    let mut s = server();
    s.handle(1, init("alice", Faction::Sanctum)).unwrap();
    for _ in 0..3 {
        s.handle(1, ActionReq::DrawCard).unwrap();
    }
    let hand = s.game.sanctum_hand.clone();
    assert!(s.game.sanctum_deck.is_empty());
    assert_eq!(s.handle(1, ActionReq::DrawCard).err(), Some(GameError::EmptyDeck));
    assert!(s.game.sanctum_deck.is_empty());
    assert_eq!(s.game.sanctum_hand, hand);
}

#[test]
fn disconnect_frees_the_faction() {
    let mut s = server();
    s.handle(1, init("alice", Faction::Sanctum)).unwrap();
    s.disconnect(1);
    assert_eq!(s.sessions.len(), 1);
    assert!(s.handle(2, init("bob", Faction::Sanctum)).is_ok());
    s.connect(2);
    assert_eq!(s.sessions.len(), 1);
}
