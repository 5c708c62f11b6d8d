use card_duel::card::{CardData, CardState, CardType, Faction};
use card_duel::catalog::Catalog;
use card_duel::instances::{
    create_hand, create_sanctum_state_response, create_thief_state_response, deal_hand,
    instantiate_deck, Instances, Location,
};
use card_duel::protocol::{GameError, PlayerStateResponse};

fn entry(id: &str, faction: Faction) -> CardData {
    CardData {
        id: id.to_string(),
        title: id.to_string(),
        faction,
        text: String::new(),
        image_file: String::new(),
        data: CardType::Ally,
    }
}

fn catalog() -> Catalog {
    let mut c = Catalog::new();
    c.insert(entry("sanc-002", Faction::Sanctum));
    c.insert(entry("thief-001", Faction::Thief));
    c.insert(entry("sanc-001", Faction::Sanctum));
    c
}

fn card_of(store: &Instances, id: u32) -> String {
    store.get_instantiated_card(id).unwrap().id.clone()
}

#[test]
fn ids_start_at_one_and_increase() {
    let mut store = Instances::new();
    let a = store.create_instance(&"x".to_string(), Location::Deck);
    let b = store.create_instance(&"y".to_string(), Location::Hand);
    assert_eq!((a, b), (1, 2));
    store.set_location(1, Location::Trash).unwrap();
    let c = store.create_instance(&"z".to_string(), Location::Board { face_down: true });
    assert_eq!(c, 3);
    assert_eq!(store.count(), 3);
}

#[test]
fn unknown_ids_are_not_found() {
    let mut store = Instances::new();
    store.create_instance(&"x".to_string(), Location::Deck);
    assert_eq!(store.get_instantiated_card(0).err(), Some(GameError::NotFound));
    assert_eq!(store.get_instantiated_card(2).err(), Some(GameError::NotFound));
    assert_eq!(store.set_location(5, Location::Hand), Err(GameError::NotFound));
    store.set_location(1, Location::Hand).unwrap();
    assert_eq!(store.get_instantiated_card(1).unwrap().location, Location::Hand);
}

#[test]
fn projections_hide_or_reveal() {
    let mut store = Instances::new();
    store.create_instance(&"sanc-001".to_string(), Location::Deck);
    store.create_instance(&"sanc-002".to_string(), Location::Deck);
    match store.create_card_state(2, true) {
        CardState::Revealed(i, c) => {
            assert_eq!(i, 2);
            assert_eq!(c, "sanc-002");
        }
        CardState::Hidden(_) => panic!("expected a revealed card"),
    }
    assert!(matches!(store.create_card_state(2, false), CardState::Hidden(2)));
    let states = store.create_card_states(&vec![2, 1], false);
    assert_eq!(states.len(), 2);
    assert_eq!(states[0].get_instance_id(), 2);
    assert_eq!(states[1].get_instance_id(), 1);
    assert!(states.iter().all(|s| s.get_card_id().is_none()));
    let shown = store.create_card_states(&vec![2, 1], true);
    assert_eq!(shown[1].get_card_id(), Some("sanc-001".to_string()));
}

#[test]
fn deck_is_four_rounds_of_faction_cards_in_key_order() {
    let cards = catalog();
    let mut store = Instances::new();
    let deck = instantiate_deck(Faction::Sanctum, &cards, &mut store);
    assert_eq!(deck, vec![1, 2, 3, 4, 5, 6, 7, 8]);
    let ids: Vec<String> = deck.iter().map(|&i| card_of(&store, i)).collect();
    assert_eq!(
        ids,
        vec!["sanc-001", "sanc-002", "sanc-001", "sanc-002", "sanc-001", "sanc-002", "sanc-001", "sanc-002"]
    );
    assert!(deck.iter().all(|&i| store.get_instantiated_card(i).unwrap().location == Location::Deck));
    let thief = instantiate_deck(Faction::Thief, &cards, &mut store);
    assert_eq!(thief, vec![9, 10, 11, 12]);
}

#[test]
fn deck_order_is_the_same_on_every_run() {
    let mut one = Instances::new();
    let mut two = Instances::new();
    let a = instantiate_deck(Faction::Sanctum, &catalog(), &mut one);
    let b = instantiate_deck(Faction::Sanctum, &catalog(), &mut two);
    let ia: Vec<String> = a.iter().map(|&i| card_of(&one, i)).collect();
    let ib: Vec<String> = b.iter().map(|&i| card_of(&two, i)).collect();
    assert_eq!(ia, ib);
}

#[test]
fn dealing_five_takes_the_tail() {
    let mut store = Instances::new();
    let mut deck = instantiate_deck(Faction::Sanctum, &catalog(), &mut store);
    let hand = deal_hand(&mut deck, 5, &mut store).unwrap();
    assert_eq!(hand, vec![8, 7, 6, 5, 4]);
    assert_eq!(deck, vec![1, 2, 3]);
    for &i in hand.iter() {
        assert_eq!(store.get_instantiated_card(i).unwrap().location, Location::Hand);
    }
    for &i in deck.iter() {
        assert_eq!(store.get_instantiated_card(i).unwrap().location, Location::Deck);
    }
    assert_eq!(deal_hand(&mut deck, 5, &mut store), Err(GameError::InsufficientCards));
    assert_eq!(deck, vec![1, 2, 3]);
}

#[test]
fn dealing_unknown_ids_is_not_found() {
    let mut store = Instances::new();
    store.create_instance(&"x".to_string(), Location::Deck);
    let mut deck = vec![1, 40];
    assert_eq!(deal_hand(&mut deck, 2, &mut store), Err(GameError::NotFound));
    assert_eq!(deck, vec![1, 40]);
    assert_eq!(store.get_instantiated_card(1).unwrap().location, Location::Deck);
}

#[test]
fn opening_hand_is_five() {
    let mut store = Instances::new();
    let mut deck = instantiate_deck(Faction::Sanctum, &catalog(), &mut store);
    let hand = create_hand(&mut deck, &mut store).unwrap();
    assert_eq!(hand.len(), 5);
    let mut short = vec![1, 2];
    assert_eq!(create_hand(&mut short, &mut store), Err(GameError::InsufficientCards));
}

#[test]
fn snapshots_project_deck_and_hand() {
    let mut store = Instances::new();
    let mut deck = instantiate_deck(Faction::Sanctum, &catalog(), &mut store);
    let hand = create_hand(&mut deck, &mut store).unwrap();
    let mine = create_sanctum_state_response(true, &store, &deck, &hand);
    assert!(matches!(mine, PlayerStateResponse::Sanctum { .. }));
    let common = mine.get_common();
    assert_eq!(common.stats.mana_pool, 5);
    assert_eq!(common.stats.stamina, 5);
    assert_eq!(common.stats.score, 0);
    assert_eq!(common.deck.len(), 3);
    assert_eq!(common.hand.len(), 5);
    assert!(common.discard.is_empty() && common.score_area.is_empty());
    assert_eq!(common.hand[0].get_card_id(), Some("sanc-002".to_string()));
    let theirs = create_thief_state_response(false, &store, &deck, &hand);
    assert!(matches!(theirs, PlayerStateResponse::Thief { .. }));
    let common = theirs.get_common();
    assert!(common.hand.iter().all(|s| s.get_card_id().is_none()));
    assert_eq!(common.hand[0].get_instance_id(), 8);
}
