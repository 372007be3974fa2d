//! Row codec tests: the literal encoding examples and the decode side,
//! including the structural error cases.

use mtgoparser::card::{MtgoCard, Rarity};
use mtgoparser::history::{CardHistory, PriceHistoryTracker};

const EXAMPLE_BLACK_LOTUS_CSV_ROW: &str = r#"1,3,"Black Lotus",1E,Rare,false,[3]1.23;3.45"#;

fn example_black_lotus_mtgo_card() -> MtgoCard {
    MtgoCard {
        id: 1,
        quantity: 3,
        name: "Black Lotus".to_string(),
        set: "1E".to_string(),
        rarity: Rarity::Rare,
        foil: false,
        goatbots_price: "1.23".to_string(),
        scryfall_price: Some("3.45".to_string()),
    }
}

const EXAMPLE_ARLINN_THE_PACKS_HOPE_CSV_ROW: &str = r#"94060,40,"Arlinn, the Pack's Hope",MID,Mythic,false,[1004]2.1;-,[900]3;3.04,[1]7.03;10.9,9.93;10,8;8,4.57;4.1,2.57;-,[40]2.57;2"#;

fn tracker(q: Option<u32>, gb: Option<&str>, sc: Option<&str>) -> PriceHistoryTracker {
    PriceHistoryTracker {
        quantity: q,
        goatbots_price: gb.map(|s| s.to_string()),
        scryfall_price: sc.map(|s| s.to_string()),
    }
}

fn example_arlinn_the_packs_hope_card_history() -> CardHistory {
    CardHistory {
        id: 94060,
        quantity: "40".to_string(),
        name: "Arlinn, the Pack's Hope".to_string(),
        set: "MID".to_string(),
        rarity: Rarity::Mythic,
        foil: false,
        // A history with selling a big quantity as price goes up, eventually
        // having a quantity of 0, then when price is low again, buying to a
        // quantity of 40.
        price_history: vec![
            tracker(Some(1004), Some("2.1"), None),
            tracker(Some(900), Some("3"), Some("3.04")),
            tracker(Some(1), Some("7.03"), Some("10.9")),
            tracker(None, Some("9.93"), Some("10")),
            tracker(None, Some("8"), Some("8")),
            tracker(None, Some("4.57"), Some("4.1")),
            tracker(None, Some("2.57"), None),
            tracker(Some(40), Some("2.57"), Some("2")),
        ],
    }
}

#[test]
fn test_to_csv_row() {
    let mtgo_card = example_black_lotus_mtgo_card();
    let card_history = CardHistory::from_mtgo_card(mtgo_card.clone());
    assert_eq!(card_history.id, mtgo_card.id);

    let csv_row = card_history.to_csv_row();
    assert_eq!(csv_row, EXAMPLE_BLACK_LOTUS_CSV_ROW);
}

#[test]
fn test_from_csv_row() {
    let card_history = CardHistory::from_csv_row(EXAMPLE_BLACK_LOTUS_CSV_ROW.to_owned()).unwrap();

    assert_eq!(
        card_history,
        CardHistory::from_mtgo_card(example_black_lotus_mtgo_card())
    );
}

#[test]
fn test_to_csv_row_with_longer_history() {
    let card_history = example_arlinn_the_packs_hope_card_history();
    let csv_row = card_history.to_csv_row();
    assert_eq!(csv_row, EXAMPLE_ARLINN_THE_PACKS_HOPE_CSV_ROW);
}

#[test]
fn test_from_csv_row_with_longer_history() {
    let card_history =
        CardHistory::from_csv_row(EXAMPLE_ARLINN_THE_PACKS_HOPE_CSV_ROW.to_owned()).unwrap();

    assert_eq!(card_history, example_arlinn_the_packs_hope_card_history());
}

#[test]
fn round_trip_name_with_commas() {
    // The display name may hold commas; the decoder rejoins the quoted
    // pieces until the closing quote.
    let h = example_arlinn_the_packs_hope_card_history();
    let decoded = CardHistory::from_csv_row(h.to_csv_row()).unwrap();
    assert_eq!(decoded.name, "Arlinn, the Pack's Hope");
    assert_eq!(decoded, h);
}

#[test]
fn round_trip_absent_prices() {
    // An absent primary price is written as `-` and read back as absent.
    let h = CardHistory {
        id: 7,
        quantity: "0".to_string(),
        name: "Gone".to_string(),
        set: "XYZ".to_string(),
        rarity: Rarity::Common,
        foil: true,
        price_history: vec![tracker(Some(0), None, None), tracker(None, Some("0.5"), None)],
    };
    let decoded = CardHistory::from_csv_row(h.to_csv_row()).unwrap();
    assert_eq!(decoded, h);
}

#[test]
fn decode_unterminated_name_is_recoverable_error() {
    // No closing quote before the end of the row: an error, not a crash.
    let r = CardHistory::from_csv_row(r#"1,3,"Black Lotus,1E,Rare,false"#.to_owned());
    assert!(r.is_err());
}

#[test]
fn decode_missing_field_is_error() {
    let r = CardHistory::from_csv_row(r#"1,3,"Black Lotus""#.to_owned());
    assert!(r.is_err());
}

#[test]
fn decode_bad_number_is_error() {
    let r = CardHistory::from_csv_row(r#"x,3,"Black Lotus",1E,Rare,false"#.to_owned());
    assert!(r.is_err());
}

#[test]
fn decode_bad_price_is_error() {
    let r = CardHistory::from_csv_row(r#"4,3,"Lotus",1E,Rare,false,[3]abc;-"#.to_owned());
    assert!(r.is_err());
}

#[test]
fn unknown_rarity_text_falls_back() {
    let row = r#"4,3,"Lotus",1E,Legendary,false,[3]1;-"#;
    let h = CardHistory::from_csv_row(row.to_owned()).unwrap();
    assert_eq!(h.rarity, Rarity::Unknown);
}

#[test]
fn zero_observation_row_round_trips() {
    let h = CardHistory {
        id: 42,
        quantity: "1".to_string(),
        name: "Empty".to_string(),
        set: "A".to_string(),
        rarity: Rarity::Uncommon,
        foil: false,
        price_history: vec![],
    };
    let decoded = CardHistory::from_csv_row(h.to_csv_row()).unwrap();
    assert_eq!(decoded, h);
}
