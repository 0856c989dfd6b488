use astralane::text::{compare_text, same_text, TextOrder};

#[test]
fn text_order_matches_string_order() {
    let samples = ["", "a", "ab", "b", "B", "é", "z", "ü", "日本"];
    for x in samples {
        for y in samples {
            let expected = x.cmp(y);
            let got = match compare_text(x, y) {
                TextOrder::Less => std::cmp::Ordering::Less,
                TextOrder::Equal => std::cmp::Ordering::Equal,
                TextOrder::Greater => std::cmp::Ordering::Greater,
            };
            assert_eq!(got, expected, "{x:?} vs {y:?}");
            assert_eq!(same_text(x, y), x == y);
        }
    }
}
