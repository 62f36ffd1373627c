use pirate_solitaire::parser::{
    parse_card, parse_color, parse_number, parse_rank, parse_stack, read_from, ParseError,
};
use pirate_solitaire::state::{
    Beast, Card, CardColor, CardNumber, CardStack, NormalCard, Output, PlaceHolder,
};

fn normal(number: u8, color: CardColor) -> Card {
    Card::Normal(NormalCard { number: CardNumber(number), color })
}

#[test]
fn parse_number_reads_decimal_digits() {
    assert_eq!(parse_number(b"0", 255), Some(0));
    assert_eq!(parse_number(b"7", 255), Some(7));
    assert_eq!(parse_number(b"+42", 255), Some(42));
    assert_eq!(parse_number(b"255", 255), Some(255));
    assert_eq!(parse_number(b"0255", 255), Some(255));
    assert_eq!(parse_number(b"18446744073709551615", u64::MAX), Some(u64::MAX));
}

#[test]
fn parse_number_refuses_what_is_no_number() {
    assert_eq!(parse_number(b"", 255), None);
    assert_eq!(parse_number(b"+", 255), None);
    assert_eq!(parse_number(b"++1", 255), None);
    assert_eq!(parse_number(b"-1", 255), None);
    assert_eq!(parse_number(b"1a", 255), None);
    assert_eq!(parse_number(b" 1", 255), None);
    assert_eq!(parse_number(b"256", 255), None);
    assert_eq!(parse_number(b"2560", 255), None);
    assert_eq!(parse_number(b"18446744073709551616", u64::MAX), None);
    assert_eq!(parse_number(b"99999999999999999999999", u64::MAX), None);
}

#[test]
fn color_is_read_from_its_letter() {
    assert_eq!("t".parse::<CardColor>(), Ok(CardColor::Teal));
    assert_eq!("r".parse::<CardColor>(), Ok(CardColor::Red));
    assert_eq!("b".parse::<CardColor>(), Ok(CardColor::Blue));
    assert_eq!("T".parse::<CardColor>(), Ok(CardColor::Teal));
    assert_eq!("R".parse::<CardColor>(), Ok(CardColor::Red));
    assert_eq!("B".parse::<CardColor>(), Ok(CardColor::Blue));
    assert_eq!(parse_color(b"b"), Ok(CardColor::Blue));
}

#[test]
fn color_of_another_text_is_refused() {
    for text in ["", "x", "tt", "red", " t", "p"] {
        assert_eq!(text.parse::<CardColor>(), Err(ParseError::InvalidCardColor));
    }
}

#[test]
fn rank_is_read_as_a_number() {
    assert_eq!("1".parse::<CardNumber>(), Ok(CardNumber(1)));
    assert_eq!("9".parse::<CardNumber>(), Ok(CardNumber(9)));
    assert_eq!("12".parse::<CardNumber>(), Ok(CardNumber(12)));
    assert_eq!("255".parse::<CardNumber>(), Ok(CardNumber(255)));
    assert_eq!(parse_rank(b"+5"), Ok(CardNumber(5)));
    assert_eq!("256".parse::<CardNumber>(), Err(ParseError::InvalidCardNumber));
    assert_eq!("".parse::<CardNumber>(), Err(ParseError::InvalidCardNumber));
    assert_eq!("x".parse::<CardNumber>(), Err(ParseError::InvalidCardNumber));
}

#[test]
fn card_is_read_from_its_letters() {
    assert_eq!("p".parse::<Card>(), Ok(Card::Pirate));
    assert_eq!("P".parse::<Card>(), Ok(Card::Pirate));
    assert_eq!("w".parse::<Card>(), Ok(Card::Beast(Beast::Whale)));
    assert_eq!("s".parse::<Card>(), Ok(Card::Beast(Beast::Ship)));
    assert_eq!("t".parse::<Card>(), Ok(Card::Beast(Beast::Tentacle)));
    assert_eq!("W".parse::<Card>(), Ok(Card::Beast(Beast::Whale)));
    assert_eq!("1r".parse::<Card>(), Ok(normal(1, CardColor::Red)));
    assert_eq!("9T".parse::<Card>(), Ok(normal(9, CardColor::Teal)));
    assert_eq!("5b".parse::<Card>(), Ok(normal(5, CardColor::Blue)));
    assert_eq!("0b".parse::<Card>(), Ok(normal(0, CardColor::Blue)));
    assert_eq!(parse_card(b"7t"), Ok(normal(7, CardColor::Teal)));
}

#[test]
fn card_of_another_text_is_refused() {
    assert_eq!("".parse::<Card>(), Err(ParseError::InvalidCard));
    assert_eq!("x".parse::<Card>(), Err(ParseError::InvalidCard));
    assert_eq!("r".parse::<Card>(), Err(ParseError::InvalidCard));
    assert_eq!("5".parse::<Card>(), Err(ParseError::InvalidCard));
    assert_eq!("10r".parse::<Card>(), Err(ParseError::InvalidCard));
    assert_eq!("pp".parse::<Card>(), Err(ParseError::InvalidCardNumber));
    assert_eq!("+r".parse::<Card>(), Err(ParseError::InvalidCardNumber));
    assert_eq!("r5".parse::<Card>(), Err(ParseError::InvalidCardNumber));
    assert_eq!("5x".parse::<Card>(), Err(ParseError::InvalidCardColor));
    assert_eq!("55".parse::<Card>(), Err(ParseError::InvalidCardColor));
    assert_eq!("xx".parse::<Card>(), Err(ParseError::InvalidCardNumber));
}

#[test]
fn stack_is_read_from_six_words() {
    assert_eq!(
        "1r 2t 3b p w s".parse::<CardStack>(),
        Ok(CardStack {
            cards: vec![
                normal(1, CardColor::Red),
                normal(2, CardColor::Teal),
                normal(3, CardColor::Blue),
                Card::Pirate,
                Card::Beast(Beast::Whale),
                Card::Beast(Beast::Ship),
            ]
        })
    );
    assert_eq!(
        parse_stack(b"P P P P P T"),
        Ok(CardStack {
            cards: vec![
                Card::Pirate,
                Card::Pirate,
                Card::Pirate,
                Card::Pirate,
                Card::Pirate,
                Card::Beast(Beast::Tentacle),
            ]
        })
    );
}

#[test]
fn stack_ignores_what_follows_the_sixth_word() {
    let six = CardStack { cards: vec![Card::Pirate; 6] };
    assert_eq!("p p p p p p 9r".parse::<CardStack>(), Ok(six.clone()));
    assert_eq!("p p p p p p nonsense  here".parse::<CardStack>(), Ok(six.clone()));
    assert_eq!("p p p p p p ".parse::<CardStack>(), Ok(six));
}

#[test]
fn stack_with_fewer_words_is_refused() {
    assert_eq!("p p p p p".parse::<CardStack>(), Err(ParseError::StackSize));
    assert_eq!("p".parse::<CardStack>(), Err(ParseError::StackSize));
}

#[test]
fn stack_with_a_bad_word_is_refused_for_that_word() {
    assert_eq!("".parse::<CardStack>(), Err(ParseError::InvalidCard));
    assert_eq!("p p  p p p p".parse::<CardStack>(), Err(ParseError::InvalidCard));
    assert_eq!("p p p p p ".parse::<CardStack>(), Err(ParseError::InvalidCard));
    assert_eq!(" p p p p p p".parse::<CardStack>(), Err(ParseError::InvalidCard));
    assert_eq!("p 5x".parse::<CardStack>(), Err(ParseError::InvalidCardColor));
    assert_eq!("p p p p p xr".parse::<CardStack>(), Err(ParseError::InvalidCardNumber));
    assert_eq!("1r\t2r 3r 4r 5r 6r".parse::<CardStack>(), Err(ParseError::InvalidCard));
}

fn lines(texts: &[&str]) -> Vec<String> {
    texts.iter().map(|text| text.to_string()).collect()
}

#[test]
fn board_is_read_from_six_lines() {
    let texts = lines(&[
        "1r 2r 3r 4r 5r 6r",
        "7r 8r 9r 1t 2t 3t",
        "4t 5t 6t 7t 8t 9t",
        "1b 2b 3b 4b 5b 6b",
        "7b 8b 9b p p p",
        "p p p w s t",
        "this line is not read",
    ]);
    let board = read_from(&texts).ok().unwrap();
    assert_eq!(board.board.len(), 6);
    assert_eq!(board.board[0], "1r 2r 3r 4r 5r 6r".parse::<CardStack>().unwrap());
    assert_eq!(board.board[5], "p p p w s t".parse::<CardStack>().unwrap());
    assert_eq!(board.output, Output::default());
    assert_eq!(
        board.placeholders.holes,
        vec![PlaceHolder(None), PlaceHolder(None), PlaceHolder(None)]
    );
    assert_eq!(board.normalize().0.is_valid(), Ok(()));
}

#[test]
fn board_with_fewer_lines_is_refused() {
    assert_eq!(read_from(&lines(&[])).err(), Some(ParseError::NotEnoughStacks));
    assert_eq!(
        read_from(&lines(&["p p p p p p"; 5])).err(),
        Some(ParseError::NotEnoughStacks)
    );
}

#[test]
fn board_with_a_bad_line_is_refused_for_that_line() {
    assert_eq!(
        read_from(&lines(&["p p p p p p", "p p p"])).err(),
        Some(ParseError::StackSize)
    );
    assert_eq!(
        read_from(&lines(&["p p p p p p", "p p p 5x p p", "p"])).err(),
        Some(ParseError::InvalidCardColor)
    );
    assert_eq!(read_from(&lines(&["", "", "", "", "", ""])).err(), Some(ParseError::InvalidCard));
}
