use card_duel::card::{other_faction, CardData, CardState, CardType, Faction, Mana};
use card_duel::catalog::{key_less, Catalog};

fn entry(id: &str, faction: Faction) -> CardData {
    CardData {
        id: id.to_string(),
        title: format!("title of {}", id),
        faction,
        text: String::new(),
        image_file: format!("{}.png", id),
        data: CardType::Event { cost: Mana(1) },
    }
}

#[test]
fn card_state_accessors() {
    let r = CardState::Revealed(7, "sanc-001".to_string());
    let h = CardState::Hidden(9);
    assert_eq!(r.get_card_id(), Some("sanc-001".to_string()));
    assert_eq!(h.get_card_id(), None);
    assert_eq!(r.get_instance_id(), 7);
    assert_eq!(h.get_instance_id(), 9);
}

#[test]
fn face_key_is_card_or_back() {
    assert_eq!(CardState::Revealed(1, "thief-002".to_string()).face_key(), "thief-002");
    assert_eq!(CardState::Hidden(1).face_key(), "back");
}

#[test]
fn faction_labels_and_opponents() {
    assert_eq!(Faction::Sanctum.label(), "Sanctum");
    assert_eq!(Faction::Thief.label(), "Thief");
    assert_eq!(other_faction(Faction::Sanctum), Faction::Thief);
    assert_eq!(other_faction(Faction::Thief), Faction::Sanctum);
}

#[test]
fn key_order_is_byte_order() {
    assert!(key_less(&"a".to_string(), &"b".to_string()));
    assert!(key_less(&"ab".to_string(), &"abc".to_string()));
    assert!(!key_less(&"abc".to_string(), &"ab".to_string()));
    assert!(!key_less(&"same".to_string(), &"same".to_string()));
    assert!(key_less(&"Z".to_string(), &"a".to_string()));
    assert!(key_less(&"".to_string(), &"a".to_string()));
}

#[test]
fn catalog_keeps_key_order_and_refuses_duplicates() {
    let mut c = Catalog::new();
    assert!(c.insert(entry("sanc-003", Faction::Sanctum)));
    assert!(c.insert(entry("sanc-001", Faction::Sanctum)));
    assert!(c.insert(entry("thief-001", Faction::Thief)));
    assert!(c.insert(entry("sanc-002", Faction::Sanctum)));
    assert!(!c.insert(entry("sanc-001", Faction::Thief)));
    let ids: Vec<&str> = c.entries.iter().map(|e| e.id.as_str()).collect();
    assert_eq!(ids, vec!["sanc-001", "sanc-002", "sanc-003", "thief-001"]);
    assert_eq!(c.len(), 4);
    assert_eq!(c.get(&"sanc-001".to_string()).unwrap().faction, Faction::Sanctum);
    assert!(c.get(&"none".to_string()).is_none());
}

#[test]
fn catalog_order_does_not_depend_on_insertion_order() {
    let names = ["b", "d", "a", "c"];
    let mut one = Catalog::new();
    for n in names.iter() {
        one.insert(entry(n, Faction::Thief));
    }
    let mut two = Catalog::new();
    for n in names.iter().rev() {
        two.insert(entry(n, Faction::Thief));
    }
    let a: Vec<String> = one.entries.iter().map(|e| e.id.clone()).collect();
    let b: Vec<String> = two.entries.iter().map(|e| e.id.clone()).collect();
    assert_eq!(a, b);
}

#[test]
fn catalog_duplicate_copies_every_entry() {
    let mut c = Catalog::new();
    c.insert(entry("x", Faction::Sanctum));
    c.insert(entry("y", Faction::Thief));
    let d = c.duplicate();
    assert_eq!(d.len(), 2);
    assert_eq!(d.entries[1].id, "y");
    assert_eq!(d.entries[1].image_file, "y.png");
}
