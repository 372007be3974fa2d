//! Deck manifest parser tests and the user-interface value containers.

use mtgoparser::deck::parse_dek_xml;
use mtgoparser::stats::{CategoryStat, MultiValueStat, RelativeSize, UniqueTotal};

#[test]
fn scryfall_scryfall_parse() {}

#[test]
fn parse_dek_extracts_positional_attributes() {
    let content = "<?xml version=\"1.0\" encoding=\"utf-8\"?>\n\
<Deck xmlns:xsd=\"http://www.w3.org/2001/XMLSchema\">\n\
  <NetDeckID>0</NetDeckID>\n\
  <Cards CatID=\"1\" Quantity=\"453\" Sideboard=\"false\" Name=\"Event Ticket\" Annotation=\"0\" />\n\
  <Cards CatID=\"110465\" Quantity=\"1\" Sideboard=\"false\" Name=\"Tranquil Cove\" Annotation=\"0\" />\n\
</Deck>\n";
    let deck = parse_dek_xml(content).unwrap();
    assert_eq!(deck.len(), 2);
    assert_eq!(deck[0].cat_id, "1");
    assert_eq!(deck[0].quantity, "453");
    assert_eq!(deck[0].name, "Event Ticket");
    assert_eq!(deck[1].cat_id, "110465");
    assert_eq!(deck[1].quantity, "1");
    assert_eq!(deck[1].name, "Tranquil Cove");
}

#[test]
fn parse_dek_ignores_non_self_closing_tags() {
    let content = "<a x=\"1\">text</a><b y=\"2\" z=\"3\" q=\"4\" w=\"5\" />";
    let deck = parse_dek_xml(content).unwrap();
    assert_eq!(deck.len(), 1);
    assert_eq!(deck[0].cat_id, "2");
    assert_eq!(deck[0].quantity, "3");
    assert_eq!(deck[0].name, "5");
}

#[test]
fn parse_dek_unterminated_tag_is_error() {
    assert!(parse_dek_xml("<Cards CatID=\"1\" ").is_err());
}

#[test]
fn parse_dek_unterminated_attribute_is_error() {
    assert!(parse_dek_xml("<Cards CatID=\"1 />").is_err());
}

#[test]
fn parse_dek_short_record_defaults_to_empty() {
    let deck = parse_dek_xml("<Cards CatID=\"7\" />").unwrap();
    assert_eq!(deck.len(), 1);
    assert_eq!(deck[0].cat_id, "7");
    assert_eq!(deck[0].quantity, "");
    assert_eq!(deck[0].name, "");
}

#[test]
fn unique_total_holds_both_counts() {
    let ut = UniqueTotal::new(3, 17);
    assert_eq!(ut.unique(), 3);
    assert_eq!(ut.total(), 17);
}

#[test]
fn multi_value_stat_take_leaves_empty() {
    let mut stat = MultiValueStat::new("Top cards".to_string(), vec!["a".to_string()]);
    stat.add_value("b".to_string());
    assert_eq!(stat.title(), "Top cards");
    assert_eq!(stat.take_values(), vec!["a".to_string(), "b".to_string()]);
    assert_eq!(stat.take_values(), Vec::<String>::new());
    stat.add_value("c".to_string());
    assert_eq!(stat.take_values(), vec!["c".to_string()]);
}

#[test]
fn category_stat_take_leaves_empty() {
    let mut stat = CategoryStat::new("Rarity".to_string(), vec![]);
    stat.add_value_pair("Rare".to_string(), "10".to_string());
    assert_eq!(stat.title(), "Rarity");
    assert_eq!(
        stat.take_value_pairs(),
        vec![("Rare".to_string(), "10".to_string())]
    );
    assert_eq!(stat.take_value_pairs(), Vec::<(String, String)>::new());
}

#[test]
fn relative_size_scales_by_percentages() {
    let rs = RelativeSize::new(50, 25, 200, 100);
    assert_eq!(rs.rel_val_x(100), 50);
    assert_eq!(rs.rel_val_y(100), 25);
    assert_eq!(rs.rel_val_w(100), 200);
    assert_eq!(rs.rel_val_h(100), 100);
    let d = RelativeSize::default();
    assert_eq!(d.rel_val_x(33), 33);
}
