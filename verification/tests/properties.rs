use markymark_index::document::properties::property_value;
use markymark_index::PropertyValueEntry;

#[test]
fn list_values_split_on_commas_and_trim_each_item() {
    match property_value(" a , b,,c ", 1) {
        PropertyValueEntry::List(items) => {
            assert_eq!(items, vec!["a".to_string(), "b".to_string(), String::new(), "c".to_string()])
        }
        other => panic!("unexpected {other:?}"),
    }
}

#[test]
fn page_references_lose_every_bracket_pair_at_either_end() {
    match property_value("[[[[Page]]]]", 2) {
        PropertyValueEntry::PageRef(p) => assert_eq!(p, "Page"),
        other => panic!("unexpected {other:?}"),
    }
    match property_value("[[]]", 2) {
        PropertyValueEntry::PageRef(p) => assert_eq!(p, ""),
        other => panic!("unexpected {other:?}"),
    }
}

#[test]
fn other_value_types_keep_the_text() {
    match property_value("x, y", 0) {
        PropertyValueEntry::String(s) => assert_eq!(s, "x, y"),
        other => panic!("unexpected {other:?}"),
    }
}
