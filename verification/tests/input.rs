use polish::exceptions::Exception;
use polish::input::SplitToLexem;
use polish::maths::{Lexem, Sign, TopElement};

fn numeral(text: &str) -> Lexem {
    Lexem::Number(text.chars().collect())
}

#[test]
fn test_split_to_lexem() {
    let s = String::from("3+(4.8-5^2.7)");
    match s.split_to_lexem() {
        Ok(e) => assert_eq!(
            e,
            vec![
                numeral("3"),
                Lexem::Sign(Sign::Add),
                Lexem::Sign(Sign::OBr),
                numeral("4.8"),
                Lexem::Sign(Sign::Sub),
                numeral("5"),
                Lexem::Sign(Sign::Pow),
                numeral("2.7"),
                Lexem::Sign(Sign::CBr),
            ]
        ),
        Err(_) => panic!("Test failed"),
    }
}

#[test]
fn test_split_consecutive_signs_are_legal() {
    // the lexer does not validate sign adjacency: "3+*2" lexes cleanly
    let e = String::from("3+*2").split_to_lexem().unwrap();
    assert_eq!(
        e,
        vec![
            numeral("3"),
            Lexem::Sign(Sign::Add),
            Lexem::Sign(Sign::Mul),
            numeral("2"),
        ]
    );
}

#[test]
fn test_split_left_to_right_reading_order() {
    let e = String::from("1-2-3").split_to_lexem().unwrap();
    assert_eq!(
        e,
        vec![
            numeral("1"),
            Lexem::Sign(Sign::Sub),
            numeral("2"),
            Lexem::Sign(Sign::Sub),
            numeral("3"),
        ]
    );
}

#[test]
fn test_split_unary_minus_is_its_own_character() {
    // '~' marks unary minus; '-' always lexes as binary subtraction
    let e = String::from("~4-5").split_to_lexem().unwrap();
    assert_eq!(
        e,
        vec![
            Lexem::Sign(Sign::Umn),
            numeral("4"),
            Lexem::Sign(Sign::Sub),
            numeral("5"),
        ]
    );
}

#[test]
fn test_split_invalid_character() {
    assert_eq!(
        String::from("1x2").split_to_lexem(),
        Err(Exception::InvalidCharacter)
    );
}

#[test]
fn test_split_malformed_number_two_dots() {
    assert_eq!(
        String::from("1.2.3+4").split_to_lexem(),
        Err(Exception::MalformedNumber)
    );
}

#[test]
fn test_split_malformed_number_lone_dot_at_end() {
    assert_eq!(
        String::from("5+.").split_to_lexem(),
        Err(Exception::MalformedNumber)
    );
}

#[test]
fn test_split_dot_framed_numerals_are_legal() {
    let e = String::from(".5+5.").split_to_lexem().unwrap();
    assert_eq!(
        e,
        vec![numeral(".5"), Lexem::Sign(Sign::Add), numeral("5.")]
    );
}

#[test]
fn test_split_empty_text() {
    let e = String::from("").split_to_lexem().unwrap();
    assert_eq!(e, Vec::<Lexem>::new());
}

#[test]
fn test_split_trailing_numeral() {
    let e = String::from("(8)+16").split_to_lexem().unwrap();
    assert_eq!(
        e,
        vec![
            Lexem::Sign(Sign::OBr),
            numeral("8"),
            Lexem::Sign(Sign::CBr),
            Lexem::Sign(Sign::Add),
            numeral("16"),
        ]
    );
}

#[test]
fn test_top_element() {
    let empty: Vec<Sign> = Vec::new();
    assert_eq!(empty.top(), None);
    let st = vec![Sign::Add, Sign::Mul];
    assert_eq!(st.top(), Some(&Sign::Mul));
}
