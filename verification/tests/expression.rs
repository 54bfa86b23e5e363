use ad::expression::shunting_yard::{convert_to_rpn, shunting_yard, Token};

#[test]
pub fn convert_to_rpn_test() {
    assert_eq!(
        convert_to_rpn("1+1"),
        vec![Token::Number(1), Token::Number(1), Token::Operator('+')]
    );
    assert_eq!(
        convert_to_rpn("(1+1)*(3+6)*0"),
        vec![
            Token::Number(1),
            Token::Number(1),
            Token::Operator('+'),
            Token::Number(3),
            Token::Number(6),
            Token::Operator('+'),
            Token::Operator('*'),
            Token::Number(0),
            Token::Operator('*'),
        ]
    );
    assert_eq!(
        convert_to_rpn("1234+5678"),
        vec![Token::Number(1234), Token::Number(5678), Token::Operator('+')]
    )
}

#[test]
pub fn shunting_yard_test() {
    assert_eq!(shunting_yard("1+1"), 2);
    assert_eq!(shunting_yard("2 + 4 * 3"), 14);
    assert_eq!(shunting_yard("(2 + 4) * 3"), 18);
    assert_eq!(shunting_yard("1+2^5"), 33);
}

#[test]
pub fn shunting_yard_more_test() {
    assert_eq!(shunting_yard("7"), 7);
    assert_eq!(shunting_yard("10 / 4"), 2);
    assert_eq!(shunting_yard("2^10"), 1024);
    assert_eq!(shunting_yard("100 - 1 - 1"), 98);
    assert_eq!(shunting_yard("(8)"), 8);
}
