use heapsort::heap::heapsort;
use heapsort::menu::{select_kind, ElementKind};
use heapsort::text::ByteString;

#[test]
fn sorts_strings_end_to_end() {
    // String mode: "banana apple cherry" comes out as
    // [ apple banana cherry ].
    let owned: Vec<ByteString> = "banana apple cherry"
        .split(' ')
        .map(|t| ByteString::from_bytes(t.as_bytes().to_vec()))
        .collect();
    let mut refs: Vec<&ByteString> = owned.iter().collect();
    heapsort(&mut refs);
    let sorted: Vec<&str> = refs
        .into_iter()
        .map(|r| std::str::from_utf8(&r.bytes).unwrap())
        .collect();
    assert_eq!(sorted, vec!["apple", "banana", "cherry"]);
}

#[test]
fn prefix_sorts_before_extension() {
    let owned: Vec<ByteString> = ["apple", "app", "apricot"]
        .iter()
        .map(|t| ByteString::from_bytes(t.as_bytes().to_vec()))
        .collect();
    let mut refs: Vec<&ByteString> = owned.iter().collect();
    heapsort(&mut refs);
    let sorted: Vec<&str> = refs
        .into_iter()
        .map(|r| std::str::from_utf8(&r.bytes).unwrap())
        .collect();
    assert_eq!(sorted, vec!["app", "apple", "apricot"]);
}

#[test]
fn lex_gt_orders_bytes() {
    let apple = ByteString::from_bytes(b"apple".to_vec());
    let banana = ByteString::from_bytes(b"banana".to_vec());
    let app = ByteString::from_bytes(b"app".to_vec());
    assert!(!apple.lex_gt(&banana));
    assert!(banana.lex_gt(&apple));
    assert!(!app.lex_gt(&apple));
    assert!(apple.lex_gt(&app));
    assert!(!apple.lex_gt(&apple));
}

#[test]
fn menu_picks_integer_mode() {
    assert_eq!(select_kind(Some(2)), (ElementKind::Int, false));
}

#[test]
fn menu_picks_float_mode() {
    assert_eq!(select_kind(Some(3)), (ElementKind::Float, false));
}

#[test]
fn menu_advertised_string_option() {
    assert_eq!(select_kind(Some(1)), (ElementKind::Text, false));
    assert_eq!(select_kind(Some(0)), (ElementKind::Text, false));
    assert_eq!(select_kind(Some(4)), (ElementKind::Text, false));
}

#[test]
fn menu_out_of_range_warns_and_defaults() {
    assert_eq!(select_kind(Some(7)), (ElementKind::Int, true));
    assert_eq!(select_kind(Some(-1)), (ElementKind::Int, true));
}

#[test]
fn menu_unreadable_warns_and_defaults() {
    assert_eq!(select_kind(None), (ElementKind::Int, true));
}
