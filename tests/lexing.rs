use bpls_rs::example1::{ExampleLexer, ExampleToken};
use bpls_rs::lex::{Lexer, LexingError, Token, TokenType};

type Item = Result<Token<ExampleToken>, LexingError<char>>;

fn tok(start: usize, end: usize, kind: ExampleToken) -> Item {
    Ok(Token::new((start, end), kind))
}

fn word(text: &str) -> ExampleToken {
    ExampleToken::String(text.to_string())
}

fn bad(input: char, index: usize) -> Item {
    Err(LexingError::UnexpectedInput { input, index })
}

fn lex_all(input: &str) -> Vec<Item> {
    let mut lexer = ExampleLexer::new_from_str(input);
    let mut out = Vec::new();
    while let Some(item) = lexer.next() {
        out.push(item);
        assert!(out.len() <= input.chars().count() + 1);
    }
    out
}

#[test]
fn example_scenario_words_space_number() {
    assert_eq!(
        lex_all("ab 12"),
        vec![
            tok(0, 2, word("ab")),
            tok(2, 3, ExampleToken::Whitespace),
            tok(3, 5, ExampleToken::Number(12)),
            tok(5, 5, ExampleToken::EOI),
        ]
    );
}

#[test]
fn example_scenario_with_error() {
    assert_eq!(
        lex_all("a#b"),
        vec![
            tok(0, 1, word("a")),
            bad('#', 1),
            tok(2, 3, word("b")),
            tok(3, 3, ExampleToken::EOI),
        ]
    );
}

#[test]
fn illegal_character_between_numbers_gives_four_results() {
    assert_eq!(
        lex_all("12#34"),
        vec![
            tok(0, 2, ExampleToken::Number(12)),
            bad('#', 2),
            tok(3, 5, ExampleToken::Number(34)),
            tok(5, 5, ExampleToken::EOI),
        ]
    );
}

#[test]
fn empty_input_gives_only_the_sentinel() {
    assert_eq!(lex_all(""), vec![tok(0, 0, ExampleToken::EOI)]);
}

#[test]
fn sentinel_appears_once_and_last() {
    for input in ["", "a", "a#b", "hello  my name is Taz and i am 28 years old", "##", " 0 "] {
        let items = lex_all(input);
        let eois: Vec<usize> = items
            .iter()
            .enumerate()
            .filter(|(_, it)| matches!(it, Ok(t) if t.token_type == ExampleToken::EOI))
            .map(|(i, _)| i)
            .collect();
        assert_eq!(eois, vec![items.len() - 1], "input {:?}", input);
    }
}

#[test]
fn stream_stays_ended_after_the_sentinel() {
    let mut lexer = ExampleLexer::new_from_str("x");
    assert_eq!(lexer.next(), Some(tok(0, 1, word("x"))));
    assert_eq!(lexer.next(), Some(tok(1, 1, ExampleToken::EOI)));
    for _ in 0..5 {
        assert_eq!(lexer.next(), None);
    }
}

#[test]
fn spans_cover_input_without_gaps() {
    let input = "hello  my name is Taz and i am 28 years old";
    let items = lex_all(input);
    let mut at = 0;
    for item in &items[..items.len() - 1] {
        let t = item.as_ref().unwrap();
        assert_eq!(t.span.0, at);
        assert!(t.span.1 > t.span.0);
        at = t.span.1;
    }
    assert_eq!(at, input.chars().count());
    assert_eq!(items[items.len() - 1], tok(at, at, ExampleToken::EOI));
    assert_eq!(items[1], tok(5, 7, ExampleToken::Whitespace));
    assert_eq!(items[16], tok(31, 33, ExampleToken::Number(28)));
}

#[test]
fn numbers_may_start_with_zero() {
    assert_eq!(
        lex_all("012"),
        vec![tok(0, 3, ExampleToken::Number(12)), tok(3, 3, ExampleToken::EOI)]
    );
    assert_eq!(
        lex_all("0"),
        vec![tok(0, 1, ExampleToken::Number(0)), tok(1, 1, ExampleToken::EOI)]
    );
    assert_eq!(
        lex_all("105"),
        vec![tok(0, 3, ExampleToken::Number(105)), tok(3, 3, ExampleToken::EOI)]
    );
}

#[test]
fn large_numbers_wrap_around() {
    assert_eq!(lex_all("18446744073709551615")[0], tok(0, 20, ExampleToken::Number(u64::MAX)));
    assert_eq!(lex_all("18446744073709551616")[0], tok(0, 20, ExampleToken::Number(0)));
    assert_eq!(lex_all("18446744073709551617")[0], tok(0, 20, ExampleToken::Number(1)));
}

#[test]
fn all_whitespace_kinds_form_one_token() {
    assert_eq!(
        lex_all(" \t\r\nz"),
        vec![tok(0, 4, ExampleToken::Whitespace), tok(4, 5, word("z")), tok(5, 5, ExampleToken::EOI)]
    );
}

#[test]
fn positions_count_characters_not_bytes() {
    assert_eq!(
        lex_all("é ab"),
        vec![
            bad('é', 0),
            tok(1, 2, ExampleToken::Whitespace),
            tok(2, 4, word("ab")),
            tok(4, 4, ExampleToken::EOI),
        ]
    );
}

#[test]
fn word_ends_where_a_digit_begins() {
    assert_eq!(
        lex_all("Taz28"),
        vec![tok(0, 3, word("Taz")), tok(3, 5, ExampleToken::Number(28)), tok(5, 5, ExampleToken::EOI)]
    );
}

#[test]
fn lexer_from_positioned_pairs() {
    let mut lexer = ExampleLexer::new_from_ci(vec![(0, 'a'), (2, 'b'), (7, '#')]);
    assert_eq!(lexer.next(), Some(tok(0, 2, word("ab"))));
    assert_eq!(lexer.next(), Some(bad('#', 7)));
    assert_eq!(lexer.next(), Some(tok(8, 8, ExampleToken::EOI)));
    assert_eq!(lexer.next(), None);
}

#[test]
fn position_tracks_the_current_character() {
    let mut lexer = ExampleLexer::new_from_str("ab 12");
    assert_eq!(lexer.get_pos(), 0);
    lexer.next();
    assert_eq!(lexer.get_pos(), 2);
    lexer.next();
    assert_eq!(lexer.get_pos(), 3);
    lexer.next();
    assert_eq!(lexer.get_pos(), 4);
    lexer.next();
    assert_eq!(lexer.get_pos(), 5);
}

#[test]
fn token_length_and_eoi_designation() {
    let t = Token::new((3, 5), ExampleToken::Number(12));
    assert_eq!(t.span, (3, 5));
    assert_eq!(t.get_length(), 2);
    assert_eq!(Token::new((4, 4), ExampleToken::EOI).get_length(), 0);
    assert_eq!(<ExampleToken as TokenType<char>>::get_eoi(), ExampleToken::EOI);
}
