use card_duel::board::{Board, PointerButtons};
use card_duel::card::{CardData, CardState, CardType, Faction};
use card_duel::catalog::Catalog;
use card_duel::protocol::{ActionReq, InitReq, Response};
use card_duel::server::{Game, Server};
use card_duel::view::{
    table_targets, CardView, DropTarget, Extent, Point, TargetType, FOCUS_SCALE, MY_DECK, MY_HAND,
    OTHER_DECK, OTHER_HAND, REST_SCALE,
};

fn hand_zone(id: usize, can_drop: bool) -> DropTarget {
    DropTarget {
        id,
        anchor: Point { x: 0, y: 0, z: 0 },
        size: Extent { x: 1_000_000, y: 50_000 },
        target_type: TargetType::Hand,
        can_drop,
    }
}

fn at(b: &Board, instance: u32) -> &CardView {
    b.cards.iter().find(|c| c.card_state.get_instance_id() == instance).unwrap()
}

const PRESS: PointerButtons = PointerButtons { pressed: true, down: true, released: false };
const HOLD: PointerButtons = PointerButtons { pressed: false, down: true, released: false };
const RELEASE: PointerButtons = PointerButtons { pressed: false, down: false, released: true };
const IDLE: PointerButtons = PointerButtons { pressed: false, down: false, released: false };

#[test]
fn row_of_three_is_centred_with_last_leftmost() {
    let mut b = Board::new(vec![hand_zone(MY_HAND, true)]);
    for i in 1..=3u32 {
        let mut v = CardView::new(CardState::Hidden(i));
        v.size = Extent { x: 31_250, y: 25_000 };
        b.add_card_to_target(v, MY_HAND);
    }
    // spacing is twice the half width plus the gap: 0.625 + 0.02
    assert_eq!(at(&b, 3).position.x, -64_500);
    assert_eq!(at(&b, 2).position.x, 0);
    assert_eq!(at(&b, 1).position.x, 64_500);
    assert!(b.cards.iter().all(|c| c.position.z == 0 && c.position.y == 0));
}

#[test]
fn stack_rises_in_list_order_and_is_kept_highest_first() {
    let mut b = Board::new(table_targets());
    b.add_card_to_target(CardView::new(CardState::Hidden(1)), MY_DECK);
    assert_eq!(at(&b, 1).position, Point { x: -200_000, y: 0, z: 150_000 });
    b.add_card_to_target(CardView::new(CardState::Hidden(2)), MY_DECK);
    assert_eq!(at(&b, 1).position.y, 0);
    assert_eq!(at(&b, 2).position.y, 2_000);
    let order: Vec<u32> = b.cards.iter().map(|c| c.card_state.get_instance_id()).collect();
    assert_eq!(order, vec![2, 1]);
    // the recompute walks the list in its current, height-sorted order
    b.add_card_to_target(CardView::new(CardState::Hidden(3)), MY_DECK);
    assert_eq!(at(&b, 2).position.y, 0);
    assert_eq!(at(&b, 1).position.y, 2_000);
    assert_eq!(at(&b, 3).position.y, 4_000);
    let order: Vec<u32> = b.cards.iter().map(|c| c.card_state.get_instance_id()).collect();
    assert_eq!(order, vec![3, 1, 2]);
}

#[test]
fn hover_focuses_and_leaving_restores() {
    let mut b = Board::new(table_targets());
    b.add_card_to_target(CardView::new(CardState::Hidden(1)), MY_DECK);
    let over = Point { x: -200_000, y: 0, z: 150_000 };
    assert!(b.update(over, IDLE).is_none());
    assert_eq!(b.cards[0].zoom_in, FOCUS_SCALE);
    assert!(b.current_focus.is_some());
    b.update(Point { x: 0, y: 0, z: 0 }, IDLE);
    assert_eq!(b.cards[0].zoom_in, REST_SCALE);
    assert!(b.current_focus.is_none());
}

#[test]
fn drop_on_refusing_target_returns_home() {
    let mut b = Board::new(table_targets());
    b.add_card_to_target(CardView::new(CardState::Hidden(1)), MY_DECK);
    let home = b.cards[0].position;
    b.update(home, PRESS);
    assert!(b.current_drag.is_some());
    assert!(b.cards[0].is_grabbed);
    let over_other_hand = Point { x: 0, y: 0, z: -150_000 };
    b.update(over_other_hand, HOLD);
    assert_eq!(b.cards[0].position.z, -150_000);
    assert!(b.update(over_other_hand, RELEASE).is_none());
    assert_eq!(b.cards[0].attached_to_target, Some(MY_DECK));
    assert_eq!(b.cards[0].position, home);
    assert!(b.current_drag.is_none());
    assert!(!b.cards[0].is_grabbed);
}

#[test]
fn deck_to_hand_drop_requests_a_draw_and_waits() {
    let mut b = Board::new(table_targets());
    b.add_card_to_target(CardView::new(CardState::Revealed(4, "sanc-001".to_string())), MY_DECK);
    let home = b.cards[0].position;
    b.update(home, PRESS);
    let hand = Point { x: 0, y: 0, z: 150_000 };
    b.update(hand, HOLD);
    let sent = b.update(hand, RELEASE);
    assert!(matches!(sent, Some(ActionReq::DrawCard)));
    assert_eq!(b.cards[0].attached_to_target, Some(MY_DECK));
    assert!(b.draw_card(CardState::Revealed(4, "sanc-001".to_string())));
    assert_eq!(b.cards[0].attached_to_target, Some(MY_HAND));
    assert_eq!(b.cards[0].position, Point { x: 0, y: 0, z: 150_000 });
}

#[test]
fn draw_of_unknown_instance_changes_nothing() {
    let mut b = Board::new(table_targets());
    b.add_card_to_target(CardView::new(CardState::Hidden(1)), OTHER_DECK);
    assert!(!b.draw_card(CardState::Hidden(2)));
    assert_eq!(b.cards[0].attached_to_target, Some(OTHER_DECK));
}

#[test]
fn hidden_draw_moves_to_opponent_hand() {
    let mut b = Board::new(table_targets());
    b.add_card_to_target(CardView::new(CardState::Hidden(9)), OTHER_DECK);
    assert!(b.draw_card(CardState::Hidden(9)));
    assert_eq!(b.cards[0].attached_to_target, Some(OTHER_HAND));
    assert_eq!(b.cards[0].position, Point { x: 0, y: 0, z: -150_000 });
}

#[test]
fn card_geometry() {
    let mut v = CardView::new(CardState::Hidden(1));
    assert!(v.intersects(Point { x: -15_625, y: 0, z: -25_000 }));
    assert!(!v.intersects(Point { x: 15_625, y: 0, z: 0 }));
    v.zoom_in(3);
    assert_eq!(v.zoom_in, 3);
    let t = hand_zone(MY_HAND, true);
    assert!(v.intersects_area(&t));
    v.position = Point { x: 0, y: 0, z: 75_001 };
    assert!(!v.intersects_area(&t));
    v.position = Point { x: 0, y: 0, z: 75_000 };
    assert!(v.intersects_area(&t));
}

fn entry(id: &str, faction: Faction) -> CardData {
    CardData {
        id: id.to_string(),
        title: id.to_string(),
        faction,
        text: String::new(),
        image_file: String::new(),
        data: CardType::Ally,
    }
}

fn joined(s: &mut Server, conn: u64, name: &str, faction: Faction) -> Board {
    let out = s.handle(conn, ActionReq::Init(InitReq { name: name.to_string(), faction })).unwrap();
    let reply = match &out[0].response {
        Response::Initial(r) => r,
        Response::DrawCard { .. } => panic!("expected the initial state"),
    };
    let mine = reply.my_state.clone().unwrap().get_common();
    let other = reply.other_state.clone().unwrap().get_common();
    let mut b = Board::new(table_targets());
    b.load_initial(&mine, &other);
    b
}

fn match_server() -> Server {
    let mut c = Catalog::new();
    for id in ["sanc-001", "sanc-002"] {
        c.insert(entry(id, Faction::Sanctum));
    }
    for id in ["thief-001", "thief-002"] {
        c.insert(entry(id, Faction::Thief));
    }
    let mut s = Server::new(Game::new(c).unwrap());
    s.connect(1);
    s.connect(2);
    s
}

#[test]
fn joining_lays_out_the_hand_as_a_row() {
    let mut s = match_server();
    let b = joined(&mut s, 1, "alice", Faction::Sanctum);
    let mut hand: Vec<&CardView> = b.cards.iter().filter(|c| c.attached_to_target == Some(MY_HAND)).collect();
    assert_eq!(hand.len(), 5);
    assert!(hand.iter().all(|c| c.card_state.get_card_id().is_some()));
    hand.sort_by_key(|c| c.position.x);
    let xs: Vec<i64> = hand.iter().map(|c| c.position.x).collect();
    assert_eq!(xs, vec![-66_500, -33_250, 0, 33_250, 66_500]);
    assert_eq!(hand[0].card_state.get_instance_id(), 4);
    let theirs: Vec<&CardView> = b.cards.iter().filter(|c| c.attached_to_target == Some(OTHER_HAND)).collect();
    assert_eq!(theirs.len(), 5);
    assert!(theirs.iter().all(|c| c.card_state.get_card_id().is_none()));
    assert_eq!(b.cards.iter().filter(|c| c.attached_to_target == Some(MY_DECK)).count(), 3);
}

#[test]
fn drag_from_deck_to_hand_draws_for_both_players() {
    let mut s = match_server();
    let mut alice = joined(&mut s, 1, "alice", Faction::Sanctum);
    let mut bob = joined(&mut s, 2, "bob", Faction::Thief);
    let deck_top = Point { x: -200_000, y: 0, z: 150_000 };
    alice.update(deck_top, PRESS);
    let grabbed = alice.current_drag.unwrap().selected_card;
    let id = alice.cards[grabbed].card_state.get_instance_id();
    let hand = Point { x: 0, y: 0, z: 150_000 };
    alice.update(hand, HOLD);
    let request = alice.update(hand, RELEASE).unwrap();
    let out = s.handle(1, request).unwrap();
    assert_eq!(out.len(), 2);
    for o in out.iter() {
        let card = match &o.response {
            Response::DrawCard { card } => card.clone(),
            Response::Initial(_) => panic!("expected a draw"),
        };
        assert_eq!(card.get_instance_id(), id);
        if o.to == 1 {
            assert!(alice.draw_card(card));
        } else {
            assert!(bob.draw_card(card));
        }
    }
    let a = at(&alice, id);
    let b = at(&bob, id);
    assert_eq!(a.attached_to_target, Some(MY_HAND));
    assert_eq!(a.card_state.get_card_id(), Some("sanc-001".to_string()));
    assert_eq!(b.attached_to_target, Some(OTHER_HAND));
    assert_eq!(b.card_state.get_card_id(), None);
}

#[test]
fn drag_survives_a_draw_that_reorders_the_cards() {
    let mut targets = table_targets();
    targets[0].anchor.y = 10_000;
    let mut b = Board::new(targets);
    b.add_card_to_target(CardView::new(CardState::Revealed(1, "sanc-001".to_string())), MY_DECK);
    b.add_card_to_target(CardView::new(CardState::Hidden(9)), OTHER_DECK);
    let home = Point { x: -200_000, y: 0, z: 150_000 };
    b.update(home, PRESS);
    let before = b.current_drag.unwrap().selected_card;
    assert_eq!(b.cards[before].card_state.get_instance_id(), 1);
    assert!(b.draw_card(CardState::Hidden(9)));
    assert_eq!(b.cards[0].card_state.get_instance_id(), 9);
    let after = b.current_drag.unwrap().selected_card;
    assert_eq!(b.cards[after].card_state.get_instance_id(), 1);
    b.update(Point { x: -100_000, y: 0, z: 150_000 }, HOLD);
    assert_eq!(at(&b, 1).position.x, -100_000);
    assert_eq!(at(&b, 9).position, Point { x: 0, y: 10_000, z: -150_000 });
}
