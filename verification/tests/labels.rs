use ocel_core::labels::{split_label_word, wrap_label};

fn owned(v: &[&str]) -> Vec<String> {
    v.iter().map(|s| (*s).to_owned()).collect()
}

#[test]
fn short_labels_stay_whole() {
    assert_eq!(wrap_label("Create Order", 24, 4), owned(&["Create Order"]));
}

#[test]
fn words_fill_lines_greedily() {
    assert_eq!(
        wrap_label("Confirm Order and Ship Package Quickly", 18, 4),
        owned(&["Confirm Order and", "Ship Package", "Quickly"])
    );
    assert_eq!(wrap_label("ab\ncd", 24, 4), owned(&["ab", "cd"]));
    assert_eq!(wrap_label("\n", 24, 4), owned(&["\n"]));
}

#[test]
fn long_words_are_cut_by_bytes() {
    assert_eq!(wrap_label("abcdefghij", 4, 4), owned(&["abcd", "efgh", "ij"]));
    assert_eq!(wrap_label("ééé", 3, 4), owned(&["é", "é", "é"]));
    assert_eq!(split_label_word("abcdefghij", 4), owned(&["abcd", "efgh", "ij"]));
    assert_eq!(split_label_word("", 3), owned(&[""]));
}

#[test]
fn extra_lines_are_dropped_and_marked() {
    assert_eq!(wrap_label("a b c d e", 1, 2), owned(&["a", "..."]));
    assert_eq!(wrap_label("alpha beta gamma delta", 6, 2), owned(&["alpha", "bet..."]));
    assert_eq!(wrap_label("x", 5, 0), Vec::<String>::new());
}
