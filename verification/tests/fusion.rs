//! Collection fusion tests: raw entry conversion, the metadata and price
//! fusion steps, the ticket pinning and the cached total.

use mtgoparser::card::{GoatBotsCard, Prices, Rarity, ScryfallCard, XmlCard};
use mtgoparser::collection::{CardDefinitions, Collection, PriceList};

fn entry(id: &str, quantity: &str, name: &str) -> XmlCard {
    XmlCard::new(id.to_string(), quantity.to_string(), name.to_string())
}

fn scryfall(id: u32, tix: Option<&str>) -> ScryfallCard {
    ScryfallCard {
        mtgo_id: id,
        name: "card".to_string(),
        released_at: "2023-01-01".to_string(),
        rarity: "rare".to_string(),
        prices: Prices {
            usd: None,
            usd_foil: None,
            eur: None,
            eur_foil: None,
            tix: tix.map(|s| s.to_string()),
        },
    }
}

#[test]
fn test_new_goatbots_card() {
    let card = GoatBotsCard::new(
        "Island".to_string(),
        "M20".to_string(),
        "Common".to_string(),
        0,
    );
    assert_eq!(card.name, "Island");
    assert_eq!(card.cardset, "M20");
    assert_eq!(card.rarity, "Common");
    assert_eq!(card.foil, 0);
}

#[test]
fn from_xml_cards_parses_numbers() {
    let c = Collection::from_xml_cards(vec![entry("235", "12", "Swamp")]).unwrap();
    assert_eq!(c.unique_cards(), 1);
    let mut c = c;
    assert_eq!(c.total_cards(), 12);
    let cards = c.take_cards();
    assert_eq!(cards[0].id, 235);
    assert_eq!(cards[0].quantity, 12);
    assert_eq!(cards[0].name, "Swamp");
    assert_eq!(cards[0].set, "");
    assert_eq!(cards[0].rarity, Rarity::Unknown);
    assert_eq!(cards[0].goatbots_price, "0");
    assert_eq!(cards[0].scryfall_price, None);
}

#[test]
fn from_xml_cards_rejects_bad_quantity() {
    let r = Collection::from_xml_cards(vec![entry("235", "a dozen", "Swamp")]);
    assert!(r.is_err());
}

#[test]
fn total_cards_is_sum_and_stable() {
    // The total equals the sum of quantities and repeated calls return the
    // cached value.
    let mut c = Collection::from_xml_cards(vec![
        entry("2", "3", "A"),
        entry("5", "4", "B"),
        entry("9", "10", "C"),
    ])
    .unwrap();
    assert_eq!(c.total_cards(), 17);
    assert_eq!(c.total_cards(), 17);
}

#[test]
fn goatbots_fusion_assigns_and_drains() {
    let mut c =
        Collection::from_xml_cards(vec![entry("47483", "2", "Gruul Charm")]).unwrap();
    let mut defs = CardDefinitions::new();
    assert!(defs.insert(
        47483,
        GoatBotsCard::new(
            "Gruul Charm".to_string(),
            "GTC".to_string(),
            "Uncommon".to_string(),
            0,
        ),
    ));
    let mut prices = PriceList::new();
    assert!(prices.insert(47483, "0.37".to_string()));
    c.extract_goatbots_info(&mut defs, &prices);
    // The matched definition was consumed.
    assert_eq!(defs.len(), 0);
    let cards = c.take_cards();
    assert_eq!(cards[0].set, "GTC");
    assert_eq!(cards[0].rarity, Rarity::Uncommon);
    assert!(!cards[0].foil);
    assert_eq!(cards[0].goatbots_price, "0.37");
}

#[test]
fn goatbots_fusion_missing_definition_keeps_defaults() {
    // Missing definition for identifier 42: default set, fallback rarity,
    // foil false, and no error.
    let mut c = Collection::from_xml_cards(vec![entry("42", "1", "Nowhere")]).unwrap();
    let mut defs = CardDefinitions::new();
    let prices = PriceList::new();
    c.extract_goatbots_info(&mut defs, &prices);
    let cards = c.take_cards();
    assert_eq!(cards[0].set, "");
    assert_eq!(cards[0].rarity, Rarity::Unknown);
    assert!(!cards[0].foil);
    assert_eq!(cards[0].goatbots_price, "0");
}

#[test]
fn ticket_card_is_pinned_in_both_price_domains() {
    // Identifier 1 ends with primary price 1 and secondary price 1,
    // independent of feed contents.
    let mut c = Collection::from_xml_cards(vec![entry("1", "453", "Event Ticket")]).unwrap();
    let mut defs = CardDefinitions::new();
    assert!(defs.insert(
        1,
        GoatBotsCard::new(
            "Event Ticket".to_string(),
            "XX".to_string(),
            "Rare".to_string(),
            1,
        ),
    ));
    let mut prices = PriceList::new();
    assert!(prices.insert(1, "99.9".to_string()));
    c.extract_goatbots_info(&mut defs, &prices);
    c.extract_scryfall_info(vec![scryfall(1, Some("50"))]);
    let cards = c.take_cards();
    assert_eq!(cards[0].goatbots_price, "1");
    assert_eq!(cards[0].scryfall_price, Some("1".to_string()));
    // The ticket bypassed the definitions lookup entirely.
    assert_eq!(defs.len(), 1);
}

#[test]
fn scryfall_fusion_prices_every_matching_card() {
    // Each non-foil card receives the tix price keyed by its identifier.
    // Under the cursor-exhaustion behavior of an unfixed scan, only the
    // first card could ever receive a price, and this test would fail.
    let mut c = Collection::from_xml_cards(vec![
        entry("235", "1", "Swamp"),
        entry("25527", "1", "Fury Sliver"),
    ])
    .unwrap();
    c.extract_scryfall_info(vec![scryfall(25527, Some("0.03")), scryfall(235, Some("0.05"))]);
    let cards = c.take_cards();
    let swamp = cards.iter().find(|x| x.id == 235).unwrap();
    let sliver = cards.iter().find(|x| x.id == 25527).unwrap();
    assert_eq!(swamp.scryfall_price, Some("0.05".to_string()));
    assert_eq!(sliver.scryfall_price, Some("0.03".to_string()));
}

#[test]
fn scryfall_fusion_skips_foil_cards() {
    let mut c = Collection::from_xml_cards(vec![entry("348", "1", "Black Lotus")]).unwrap();
    let mut defs = CardDefinitions::new();
    assert!(defs.insert(
        348,
        GoatBotsCard::new(
            "Black Lotus".to_string(),
            "1E".to_string(),
            "Rare".to_string(),
            1,
        ),
    ));
    let prices = PriceList::new();
    c.extract_goatbots_info(&mut defs, &prices);
    c.extract_scryfall_info(vec![scryfall(348, Some("419.99"))]);
    let cards = c.take_cards();
    assert!(cards[0].foil);
    assert_eq!(cards[0].scryfall_price, None);
}

#[test]
fn scryfall_fusion_absent_tix_leaves_card_unchanged() {
    let mut c = Collection::from_xml_cards(vec![entry("235", "1", "Swamp")]).unwrap();
    c.extract_scryfall_info(vec![scryfall(235, None)]);
    let cards = c.take_cards();
    assert_eq!(cards[0].scryfall_price, None);
}

#[test]
fn price_list_rejects_invalid_price_text() {
    let mut prices = PriceList::new();
    assert!(!prices.insert(5, "not,a,price".to_string()));
    assert!(prices.insert(5, "0.003".to_string()));
    assert!(!prices.insert(5, "0.004".to_string()));
    assert_eq!(prices.get(5), Some("0.003".to_string()));
    assert_eq!(prices.get(6), None);
}
