use dart2csharp::eregex::{detail_from, whole_from, BasicElement, Element, TextPart};
use dart2csharp::matcher::find_all;
use dart2csharp::tokens::{Word, WORD_PATTERN};

fn part(start: usize, end: usize, text: &str) -> TextPart {
    TextPart { start, end, text: String::from(text) }
}

#[test]
fn word_at_the_end_of_the_text() {
    assert_eq!(Word::new().find_at("ab", 0), Some((part(0, 2, "ab"), part(0, 2, "ab"))));
    assert_eq!(Word::new().find_at("ab", 1), Some((part(1, 2, "b"), part(1, 2, "b"))));
    assert_eq!(Word::new().find_at("ab", 2), None);
    assert_eq!(Word::new().find_at("ab", 3), None);
    assert_eq!(Word::new().find_at("", 0), None);
}

#[test]
fn no_word() {
    assert_eq!(Word::new().find_at("  ", 0), None);
    assert_eq!(Word::new().find_at("a, b", 1), None);
    assert_eq!(Word::new().find_at("a ,b", 1), None);
}

#[test]
fn word_offsets_count_bytes() {
    assert_eq!(
        Word::new().find_at("\u{e9}t\u{e9} \u{3000}na\u{ef}f", 5),
        Some((part(5, 14, " \u{3000}na\u{ef}f"), part(9, 14, "na\u{ef}f")))
    );
}

#[test]
fn element_of_any_pattern() {
    let number = BasicElement::new(r"#(\d+)");
    assert_eq!(number.find_at("a #12 #3", 0), Some((part(2, 5, "#12"), part(3, 5, "12"))));
    assert_eq!(number.find_at("a #12 #3", 3), Some((part(6, 8, "#3"), part(7, 8, "3"))));
    assert_eq!(number.find_at("a #12 #3", 7), None);
}

#[test]
fn element_without_a_group() {
    assert_eq!(BasicElement::new(r"\d+").find_at("12", 0), None);
    assert_eq!(BasicElement::new(r"a(b)?").find_at("a", 0), None);
    assert_eq!(BasicElement::new(r"(").find_at("(", 0), None);
}

#[test]
fn parts_from_given_matches() {
    let rest = " world ";
    let matches = find_all(WORD_PATTERN, rest);
    assert_eq!(whole_from(rest, 7, &matches), Some(part(7, 13, " world")));
    assert_eq!(detail_from(" world", 7, &find_all(WORD_PATTERN, " world")), Some(part(8, 13, "world")));
    assert_eq!(whole_from(rest, 7, &vec![]), None);
    assert_eq!(detail_from(rest, 7, &vec![]), None);
    assert_eq!(detail_from(rest, 7, &vec![vec![Some((0, 6))]]), None);
    assert_eq!(detail_from(rest, 7, &vec![vec![Some((0, 6)), None]]), None);
    assert_eq!(whole_from(rest, 0, &vec![vec![Some((1, 3)), None], vec![Some((4, 5))]]), Some(part(1, 3, "wo")));
}
