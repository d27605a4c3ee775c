use dart2csharp::eregex::{Element, TextPart};
use dart2csharp::tokens::Word;

#[test]
fn find_word() {
    assert_eq!(
        Word::new().find_at("  hello world ", 0),
        Some((TextPart {
            start: 0,
            end: 7,
            text: String::from("  hello")
        }, (TextPart {
            start: 2,
            end: 7,
            text: String::from("hello")
        })))
    );

    assert_eq!(
        Word::new().find_at("  hello world ", 2),
        Some((TextPart {
            start: 2,
            end: 7,
            text: String::from("hello")
        }, (TextPart {
            start: 2,
            end: 7,
            text: String::from("hello")
        }))));

    assert_eq!(
        Word::new().find_at("  hello world ", 7),
        Some((TextPart {
            start: 7,
            end: 13,
            text: String::from(" world")
        }, (TextPart {
            start: 8,
            end: 13,
            text: String::from("world")
        }))));
}
