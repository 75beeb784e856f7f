use bpls_rs::lex::{LexingError, Token};
use bpls_rs::rules::{CharClass, Rule, RuleTable};
use bpls_rs::scanner::{Lexeme, Scanner};

fn class(ranges: &[(char, char)]) -> CharClass {
    CharClass { ranges: ranges.to_vec() }
}

fn pairs(s: &str) -> Vec<(usize, char)> {
    s.chars().enumerate().collect()
}

#[test]
fn char_class_membership() {
    let c = class(&[('a', 'c'), ('x', 'x')]);
    assert!(c.contains('a'));
    assert!(c.contains('b'));
    assert!(c.contains('x'));
    assert!(!c.contains('d'));
    assert!(!class(&[]).contains('a'));
}

#[test]
fn earlier_rule_wins_on_overlap() {
    // Both rules accept 'a'; the first one is always selected.
    let table = RuleTable {
        rules: vec![
            Rule { start: class(&[('a', 'a')]), cont: class(&[('a', 'a')]) },
            Rule { start: class(&[('a', 'z')]), cont: class(&[('a', 'z')]) },
        ],
    };
    assert_eq!(table.dispatch('a'), Some(0));
    assert_eq!(table.dispatch('b'), Some(1));
    assert_eq!(table.dispatch('1'), None);
    for n in [1usize, 2, 10] {
        let input = "a".repeat(n) + "b";
        let mut scanner = Scanner::new(pairs(&input));
        let first = scanner.next(&table).unwrap().unwrap();
        assert_eq!(first.span, (0, n));
        match first.token_type {
            Lexeme::Rule { index, text } => {
                assert_eq!(index, 0);
                assert_eq!(text, vec!['a'; n]);
            }
            Lexeme::Eoi => panic!("expected a token"),
        }
        let second = scanner.next(&table).unwrap().unwrap();
        assert_eq!(second.span, (n, n + 1));
        assert!(matches!(second.token_type, Lexeme::Rule { index: 1, .. }));
    }
}

#[test]
fn start_and_continuation_classes_are_independent() {
    // An identifier: a letter, then letters or digits.
    let table = RuleTable {
        rules: vec![Rule { start: class(&[('a', 'z')]), cont: class(&[('a', 'z'), ('0', '9')]) }],
    };
    let mut scanner = Scanner::new(pairs("x1y2 9"));
    let t = scanner.next(&table).unwrap().unwrap();
    assert_eq!(t, Token::new((0, 4), Lexeme::Rule { index: 0, text: vec!['x', '1', 'y', '2'] }));
    assert_eq!(scanner.next(&table), Some(Err(LexingError::UnexpectedInput { input: ' ', index: 4 })));
    assert_eq!(scanner.next(&table), Some(Err(LexingError::UnexpectedInput { input: '9', index: 5 })));
    assert_eq!(scanner.next(&table), Some(Ok(Token::new((6, 6), Lexeme::Eoi))));
    assert_eq!(scanner.next(&table), None);
    assert_eq!(scanner.get_pos(), 6);
}

#[test]
fn empty_table_rejects_every_character() {
    let table = RuleTable { rules: vec![] };
    let mut scanner = Scanner::new(pairs("ab"));
    assert_eq!(scanner.next(&table), Some(Err(LexingError::UnexpectedInput { input: 'a', index: 0 })));
    assert_eq!(scanner.next(&table), Some(Err(LexingError::UnexpectedInput { input: 'b', index: 1 })));
    assert_eq!(scanner.next(&table), Some(Ok(Token::new((2, 2), Lexeme::Eoi))));
    assert_eq!(scanner.next(&table), None);
}
