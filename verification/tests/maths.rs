use polish::exceptions::Exception;
use polish::input::SplitToLexem;
use polish::maths::{ExpressionToPolishTransformer, Lexem, Sign, ToSign};

fn num(text: &str) -> Lexem {
    Lexem::Number(text.chars().collect())
}

fn sgn(s: Sign) -> Lexem {
    Lexem::Sign(s)
}

fn convert_text(text: &str) -> Result<Vec<Lexem>, Exception> {
    let expr = String::from(text).split_to_lexem()?;
    let opn = ExpressionToPolishTransformer { expression: Some(expr), ..Default::default() };
    opn.convert()
}

#[test]
fn test_lexem_eq() {
    let one = Lexem::Sign(Sign::Add);
    let two = Lexem::Sign(Sign::Add);
    assert_eq!(&one, &two);
    let two = Lexem::Sign(Sign::Pow);
    assert_ne!(&one, &two);
    let two = num("5.7");
    assert_ne!(&one, &two);
}

#[test]
fn test_number_eq_compares_characters() {
    assert_eq!(num("5.7"), num("5.7"));
    assert_ne!(num("5.7"), num("5.8"));
    assert_ne!(num("5"), num("55"));
}

#[test]
fn test_to_sign() {
    let c = '+';
    assert_eq!(c.to_sign().unwrap().unwrap(), Sign::Add);
    let c = '.';
    assert_eq!(c.to_sign().unwrap(), None);
    let c = 's';
    assert!(c.to_sign().is_err());
}

#[test]
fn test_to_sign_full_vocabulary() {
    assert_eq!('-'.to_sign().unwrap().unwrap(), Sign::Sub);
    assert_eq!('*'.to_sign().unwrap().unwrap(), Sign::Mul);
    assert_eq!('/'.to_sign().unwrap().unwrap(), Sign::Div);
    assert_eq!('^'.to_sign().unwrap().unwrap(), Sign::Pow);
    assert_eq!('('.to_sign().unwrap().unwrap(), Sign::OBr);
    assert_eq!(')'.to_sign().unwrap().unwrap(), Sign::CBr);
    assert_eq!('~'.to_sign().unwrap().unwrap(), Sign::Umn);
    assert_eq!('7'.to_sign().unwrap(), None);
    assert_eq!('x'.to_sign(), Err(Exception::InvalidCharacter));
}

#[test]
fn test_conversion() {
    let expr = String::from("~4+(5-5^7)*3-5.8+16*2*~3").split_to_lexem().unwrap();
    let mut opn = ExpressionToPolishTransformer { ..Default::default() };
    //
    opn.expression = Some(expr);
    let pol_expr = opn.convert();
    assert_eq!(
        pol_expr.unwrap(),
        vec![
            num("4"),
            sgn(Sign::Umn),
            num("5"),
            num("5"),
            num("7"),
            sgn(Sign::Pow),
            sgn(Sign::Sub),
            num("3"),
            sgn(Sign::Mul),
            sgn(Sign::Add),
            num("5.8"),
            sgn(Sign::Sub),
            num("16"),
            num("2"),
            sgn(Sign::Mul),
            num("3"),
            sgn(Sign::Umn),
            sgn(Sign::Mul),
            sgn(Sign::Add),
        ]
    );
}

#[test]
fn test_conversion_scenario_brackets_and_pow() {
    // "3+(4.8-5^2.7)" reorders to 3 4.8 5 2.7 ^ - +
    let out = convert_text("3+(4.8-5^2.7)").unwrap();
    assert_eq!(
        out,
        vec![
            num("3"),
            num("4.8"),
            num("5"),
            num("2.7"),
            sgn(Sign::Pow),
            sgn(Sign::Sub),
            sgn(Sign::Add),
        ]
    );
}

#[test]
fn test_conversion_scenario_unary_minus() {
    // "~4+5" reorders to 4 ~ 5 +
    let out = convert_text("~4+5").unwrap();
    assert_eq!(out, vec![num("4"), sgn(Sign::Umn), num("5"), sgn(Sign::Add)]);
}

#[test]
fn test_left_associativity_of_sub() {
    // equal priority groups left: 1-2-3 becomes 1 2 - 3 -
    let out = convert_text("1-2-3").unwrap();
    assert_eq!(
        out,
        vec![num("1"), num("2"), sgn(Sign::Sub), num("3"), sgn(Sign::Sub)]
    );
}

#[test]
fn test_left_associativity_of_pow() {
    // under this table even ^ groups left: 1^2^3 becomes 1 2 ^ 3 ^
    let out = convert_text("1^2^3").unwrap();
    assert_eq!(
        out,
        vec![num("1"), num("2"), sgn(Sign::Pow), num("3"), sgn(Sign::Pow)]
    );
}

#[test]
fn test_mixed_priorities() {
    // 1+2*3 becomes 1 2 3 * +
    let out = convert_text("1+2*3").unwrap();
    assert_eq!(
        out,
        vec![num("1"), num("2"), num("3"), sgn(Sign::Mul), sgn(Sign::Add)]
    );
}

#[test]
fn test_conversion_preserves_tokens() {
    // pure reordering: same numbers, same operators, brackets consumed
    let out = convert_text("3+(4.8-5^2.7)/6").unwrap();
    let numbers = out
        .iter()
        .filter(|lx| matches!(lx, Lexem::Number(_)))
        .count();
    assert_eq!(numbers, 5);
    let mut adds = 0;
    let mut subs = 0;
    let mut divs = 0;
    let mut pows = 0;
    let mut brackets = 0;
    for lx in &out {
        match lx {
            Lexem::Sign(Sign::Add) => adds += 1,
            Lexem::Sign(Sign::Sub) => subs += 1,
            Lexem::Sign(Sign::Div) => divs += 1,
            Lexem::Sign(Sign::Pow) => pows += 1,
            Lexem::Sign(Sign::OBr) | Lexem::Sign(Sign::CBr) => brackets += 1,
            _ => {}
        }
    }
    assert_eq!((adds, subs, divs, pows, brackets), (1, 1, 1, 1, 0));
}

#[test]
fn test_numbers_only_expression_is_unchanged() {
    // nothing to reorder: a sign-free expression converts to itself
    let expr = vec![num("7"), num("8.5")];
    let opn = ExpressionToPolishTransformer {
        expression: Some(vec![num("7"), num("8.5")]),
        ..Default::default()
    };
    assert_eq!(opn.convert().unwrap(), expr);
}

#[test]
fn test_unbalanced_close_bracket() {
    assert_eq!(convert_text("1)"), Err(Exception::UnbalancedParentheses));
    assert_eq!(convert_text("(1+2))"), Err(Exception::UnbalancedParentheses));
}

#[test]
fn test_unbalanced_open_bracket() {
    // an open bracket that never closes is rejected, not flushed to output
    assert_eq!(convert_text("(1+2"), Err(Exception::UnbalancedParentheses));
}

#[test]
fn test_empty_input_error() {
    let opn = ExpressionToPolishTransformer { ..Default::default() };
    assert_eq!(opn.convert(), Err(Exception::EmptyInput));
}

#[test]
fn test_expression_with_zero_lexems_is_not_empty_input() {
    let opn = ExpressionToPolishTransformer {
        expression: Some(Vec::new()),
        ..Default::default()
    };
    assert_eq!(opn.convert().unwrap(), Vec::<Lexem>::new());
}

#[test]
fn test_standard_priority_table() {
    let opn = ExpressionToPolishTransformer { ..Default::default() };
    assert_eq!(opn.priority.get(Sign::OBr), 5);
    assert_eq!(opn.priority.get(Sign::CBr), 5);
    assert_eq!(opn.priority.get(Sign::Umn), 4);
    assert_eq!(opn.priority.get(Sign::Pow), 3);
    assert_eq!(opn.priority.get(Sign::Div), 2);
    assert_eq!(opn.priority.get(Sign::Mul), 2);
    assert_eq!(opn.priority.get(Sign::Add), 1);
    assert_eq!(opn.priority.get(Sign::Sub), 1);
    assert!(opn.expression.is_none());
}
