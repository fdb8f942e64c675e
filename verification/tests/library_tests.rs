use rustbrush::library::categories;
use rustbrush::text::TextAlign;

#[test]
fn categories_in_item_order_each_once() {
    assert_eq!(categories(), vec!["Arrows", "Warning Signs", "Symbols", "Borders", "Text Labels"]);
}

#[test]
fn text_alignments_differ() {
    assert_ne!(TextAlign::Left, TextAlign::Center);
    assert_eq!(TextAlign::Right, TextAlign::Right);
}
