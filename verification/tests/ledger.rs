//! Time-series aligner and document tests: the merge scenarios and the
//! ledger document round trip.

use mtgoparser::card::{MtgoCard, Rarity};
use mtgoparser::history::{
    snapshot_ready, CardHistory, CollectionHistory, PriceHistoryTracker,
};

fn card(id: u32, quantity: u32, name: &str, gb: &str, sc: Option<&str>) -> MtgoCard {
    MtgoCard {
        id,
        quantity,
        name: name.to_string(),
        set: "SET".to_string(),
        rarity: Rarity::Rare,
        foil: false,
        goatbots_price: gb.to_string(),
        scryfall_price: sc.map(|s| s.to_string()),
    }
}

fn single_card_history(c: MtgoCard) -> CollectionHistory {
    CollectionHistory::from_card_history(
        vec!["2023-11-05T152700Z".to_string()],
        vec![CardHistory::from_mtgo_card(c)],
    )
}

#[test]
fn merge_ledger_and_observations_grow_by_one() {
    // After every merge: ledger length +1, every tracked card's
    // observation count +1.
    let mut h = CollectionHistory::from_card_history(
        vec!["t1".to_string()],
        vec![
            CardHistory::from_mtgo_card(card(2, 4, "A", "0.5", None)),
            CardHistory::from_mtgo_card(card(9, 1, "B", "2", Some("1.9"))),
        ],
    );
    let snap = vec![card(2, 4, "A", "0.6", None), card(9, 2, "B", "2.5", None)];
    assert!(snapshot_ready(&snap));
    h.add_new_card_data("t2".to_string(), snap);
    assert_eq!(h.timestamps.len(), 2);
    assert_eq!(h.size(), 2);
    for agg in &h.card_histories {
        assert_eq!(agg.card_history.price_history.len(), 2);
    }
}

#[test]
fn merge_disappearance_records_zero_quantity() {
    // Card present in snapshot 1, absent from snapshot 2: the second
    // observation is quantity 0 with both prices absent.
    let mut h = single_card_history(card(5, 3, "X", "1.5", Some("1.2")));
    let snap: Vec<MtgoCard> = vec![];
    h.add_new_card_data("t2".to_string(), snap);
    assert_eq!(h.size(), 1);
    let obs = &h.card_histories[0].card_history.price_history;
    assert_eq!(obs.len(), 2);
    assert_eq!(
        obs[1],
        PriceHistoryTracker { quantity: Some(0), goatbots_price: None, scryfall_price: None }
    );
    assert_eq!(h.card_histories[0].newest_quantity, 0);
}

#[test]
fn merge_appearance_backfills_blank_prefix() {
    // Card appearing only in snapshot 2 of a 2-entry ledger: history of
    // length 2, entry 1 fully absent, entry 2 populated.
    let mut h = single_card_history(card(5, 3, "X", "1.5", None));
    let snap = vec![card(5, 3, "X", "1.5", None), card(8, 2, "Y", "0.9", Some("0.8"))];
    h.add_new_card_data("t2".to_string(), snap);
    assert_eq!(h.size(), 2);
    let y = h
        .card_histories
        .iter()
        .find(|a| a.card_history.id == 8)
        .unwrap();
    assert_eq!(y.card_history.price_history.len(), 2);
    assert_eq!(
        y.card_history.price_history[0],
        PriceHistoryTracker { quantity: None, goatbots_price: None, scryfall_price: None }
    );
    assert_eq!(
        y.card_history.price_history[1],
        PriceHistoryTracker {
            quantity: Some(2),
            goatbots_price: Some("0.9".to_string()),
            scryfall_price: Some("0.8".to_string()),
        }
    );
    assert_eq!(y.newest_quantity, 2);
}

#[test]
fn merge_unchanged_quantity_is_omitted_prices_kept() {
    // Same quantity across two snapshots: the second observation's
    // quantity is absent, both prices still explicitly recorded.
    let mut h = single_card_history(card(5, 3, "X", "1.5", Some("1.4")));
    let snap = vec![card(5, 3, "X", "1.7", Some("1.6"))];
    h.add_new_card_data("t2".to_string(), snap);
    let obs = &h.card_histories[0].card_history.price_history;
    assert_eq!(
        obs[1],
        PriceHistoryTracker {
            quantity: None,
            goatbots_price: Some("1.7".to_string()),
            scryfall_price: Some("1.6".to_string()),
        }
    );
    assert_eq!(h.card_histories[0].newest_quantity, 3);
}

#[test]
fn merge_changed_quantity_is_recorded() {
    let mut h = single_card_history(card(5, 3, "X", "1.5", None));
    let snap = vec![card(5, 7, "X", "1.5", None)];
    h.add_new_card_data("t2".to_string(), snap);
    let obs = &h.card_histories[0].card_history.price_history;
    assert_eq!(obs[1].quantity, Some(7));
    assert_eq!(h.card_histories[0].newest_quantity, 7);
}

#[test]
fn merge_sorts_unsorted_snapshot() {
    let mut h = CollectionHistory::from_card_history(vec![], vec![]);
    let snap = vec![card(9, 1, "B", "2", None), card(2, 4, "A", "0.5", None)];
    assert!(snapshot_ready(&snap));
    h.add_new_card_data("t1".to_string(), snap);
    assert_eq!(h.card_histories[0].card_history.id, 2);
    assert_eq!(h.card_histories[1].card_history.id, 9);
}

#[test]
fn snapshot_ready_rejects_duplicate_identifiers() {
    let snap = vec![card(2, 4, "A", "0.5", None), card(2, 1, "A2", "0.7", None)];
    assert!(!snapshot_ready(&snap));
}

#[test]
fn snapshot_ready_rejects_quoted_name() {
    let snap = vec![card(2, 4, "A \"quoted\" name", "0.5", None)];
    assert!(!snapshot_ready(&snap));
}

#[test]
fn document_round_trip() {
    let mut h = CollectionHistory::from_card_history(
        vec!["2023-11-05T152700Z".to_string()],
        vec![
            CardHistory::from_mtgo_card(card(2, 4, "Ancestral, the Recalled", "0.5", None)),
            CardHistory::from_mtgo_card(card(9, 1, "B", "2", Some("1.9"))),
        ],
    );
    h.add_new_card_data(
        "2023-11-06T083944Z".to_string(),
        vec![card(2, 4, "Ancestral, the Recalled", "0.6", None)],
    );
    let doc = h.to_csv_string();
    let loaded = CollectionHistory::from_csv_string(&doc).unwrap();
    assert_eq!(loaded, h);
}

#[test]
fn document_header_holds_all_timestamps() {
    let mut h = CollectionHistory::from_card_history(
        vec!["t1".to_string(), "t2".to_string()],
        vec![],
    );
    let doc = h.to_csv_string();
    assert_eq!(doc, "t1,t2\n");
}

#[test]
fn document_rows_are_sorted_by_identifier() {
    let mut h = CollectionHistory::from_card_history(vec![], vec![]);
    h.add_new_card_data(
        "t1".to_string(),
        vec![card(9, 1, "B", "2", None), card(2, 4, "A", "0.5", None)],
    );
    let doc = h.to_csv_string();
    let lines: Vec<&str> = doc.lines().collect();
    assert!(lines[1].starts_with("2,"));
    assert!(lines[2].starts_with("9,"));
}

#[test]
fn document_load_rejects_malformed_row() {
    let doc = "t1\nnot a row\n";
    assert!(CollectionHistory::from_csv_string(doc).is_err());
}

#[test]
fn document_load_rejects_misaligned_row() {
    // One timestamp but two observations in the row.
    let doc = "t1\n2,4,\"A\",SET,Rare,false,[4]0.5;-,[4]0.6;-\n";
    assert!(CollectionHistory::from_csv_string(doc).is_err());
}

#[test]
fn document_load_rejects_unsorted_rows() {
    let doc = "t1\n9,1,\"B\",SET,Rare,false,[1]2;-\n2,4,\"A\",SET,Rare,false,[4]0.5;-\n";
    assert!(CollectionHistory::from_csv_string(doc).is_err());
}

#[test]
fn from_card_history_computes_newest_quantity() {
    let mut ph = vec![
        PriceHistoryTracker {
            quantity: Some(4),
            goatbots_price: Some("1".to_string()),
            scryfall_price: None,
        },
        PriceHistoryTracker { quantity: None, goatbots_price: Some("2".to_string()), scryfall_price: None },
    ];
    let h = CardHistory {
        id: 3,
        quantity: "4".to_string(),
        name: "N".to_string(),
        set: "S".to_string(),
        rarity: Rarity::Common,
        foil: false,
        price_history: std::mem::take(&mut ph),
    };
    let ch = CollectionHistory::from_card_history(
        vec!["t1".to_string(), "t2".to_string()],
        vec![h],
    );
    assert_eq!(ch.card_histories[0].newest_quantity, 4);
}
