//! A lexer for words, whitespace and decimal numbers.

use crate::lex::{Lexer, LexingError, Token, TokenType};
use crate::rules::{CharClass, Rule, RuleTable};
use crate::scanner::{emits, indexed, lemma_token_text, valid_source, Emit, Lexeme, Scanner};
use vstd::prelude::*;

verus! {

/// The tokens of the example language.
#[derive(Debug, Clone, PartialEq, Eq)]
pub enum ExampleToken {
    Whitespace,
    String(String),
    Number(u64),
    EOI,
}

impl TokenType<char> for ExampleToken {
    fn get_eoi() -> (r: Self)
        ensures
            r == ExampleToken::EOI,
    {
        ExampleToken::EOI
    }
}

/// An ASCII letter.
pub open spec fn is_letter(c: char) -> bool {
    ('A' <= c && c <= 'Z') || ('a' <= c && c <= 'z')
}

/// A space, tab, line feed or carriage return.
pub open spec fn is_space(c: char) -> bool {
    c == ' ' || c == '\t' || c == '\n' || c == '\r'
}

/// A decimal digit.
pub open spec fn is_digit(c: char) -> bool {
    '0' <= c && c <= '9'
}

/// The index of the word rule in the example table.
pub const WORD_RULE: usize = 0;

/// The index of the whitespace rule in the example table.
pub const SPACE_RULE: usize = 1;

/// The index of the number rule in the example table.
pub const NUMBER_RULE: usize = 2;

/// The example table: words of letters, runs of whitespace, and numbers that
/// runs of decimal digits, in that order.
pub open spec fn is_example_table(t: &RuleTable) -> bool {
    &&& t.rules@.len() == 3
    &&& forall|c: char| #[trigger] t.rules@[WORD_RULE as int].start.has(c) <==> is_letter(c)
    &&& forall|c: char| #[trigger] t.rules@[WORD_RULE as int].cont.has(c) <==> is_letter(c)
    &&& forall|c: char| #[trigger] t.rules@[SPACE_RULE as int].start.has(c) <==> is_space(c)
    &&& forall|c: char| #[trigger] t.rules@[SPACE_RULE as int].cont.has(c) <==> is_space(c)
    &&& forall|c: char| #[trigger] t.rules@[NUMBER_RULE as int].start.has(c) <==> is_digit(c)
    &&& forall|c: char| #[trigger] t.rules@[NUMBER_RULE as int].cont.has(c) <==> is_digit(c)
}

/// The ASCII letters.
fn letters() -> (cl: CharClass)
    ensures
        cl.ranges@ == seq![('A', 'Z'), ('a', 'z')],
{
    CharClass { ranges: vec![('A', 'Z'), ('a', 'z')] }
}

/// The whitespace characters.
fn spaces() -> (cl: CharClass)
    ensures
        cl.ranges@ == seq![(' ', ' '), ('\t', '\t'), ('\n', '\n'), ('\r', '\r')],
{
    CharClass { ranges: vec![(' ', ' '), ('\t', '\t'), ('\n', '\n'), ('\r', '\r')] }
}

/// Build the example rule table.
pub fn example_table() -> (t: RuleTable)
    ensures
        is_example_table(&t),
{
    let word = Rule { start: letters(), cont: letters() };
    let space = Rule { start: spaces(), cont: spaces() };
    let number = Rule {
        start: CharClass { ranges: vec![('0', '9')] },
        cont: CharClass { ranges: vec![('0', '9')] },
    };
    let t = RuleTable { rules: vec![word, space, number] };
    assert forall|c: char| #[trigger] t.rules@[WORD_RULE as int].start.has(c) <==> is_letter(c) by {
        if is_letter(c) {
            if 'A' <= c && c <= 'Z' {
                assert(t.rules@[0].start.ranges@[0] == ('A', 'Z'));
            } else {
                assert(t.rules@[0].start.ranges@[1] == ('a', 'z'));
            }
        }
    }
    assert forall|c: char| #[trigger] t.rules@[WORD_RULE as int].cont.has(c) <==> is_letter(c) by {
        if is_letter(c) {
            if 'A' <= c && c <= 'Z' {
                assert(t.rules@[0].cont.ranges@[0] == ('A', 'Z'));
            } else {
                assert(t.rules@[0].cont.ranges@[1] == ('a', 'z'));
            }
        }
    }
    assert forall|c: char| #[trigger] t.rules@[SPACE_RULE as int].start.has(c) <==> is_space(c) by {
        let r = t.rules@[1].start.ranges@;
        if c == ' ' {
            assert(r[0] == (' ', ' '));
        } else if c == '\t' {
            assert(r[1] == ('\t', '\t'));
        } else if c == '\n' {
            assert(r[2] == ('\n', '\n'));
        } else if c == '\r' {
            assert(r[3] == ('\r', '\r'));
        }
    }
    assert forall|c: char| #[trigger] t.rules@[SPACE_RULE as int].cont.has(c) <==> is_space(c) by {
        let r = t.rules@[1].cont.ranges@;
        if c == ' ' {
            assert(r[0] == (' ', ' '));
        } else if c == '\t' {
            assert(r[1] == ('\t', '\t'));
        } else if c == '\n' {
            assert(r[2] == ('\n', '\n'));
        } else if c == '\r' {
            assert(r[3] == ('\r', '\r'));
        }
    }
    assert forall|c: char| #[trigger] t.rules@[NUMBER_RULE as int].start.has(c) <==> is_digit(c) by {
        if is_digit(c) {
            assert(t.rules@[2].start.ranges@[0] == ('0', '9'));
        }
    }
    assert forall|c: char| #[trigger] t.rules@[NUMBER_RULE as int].cont.has(c) <==> is_digit(c) by {
        if is_digit(c) {
            assert(t.rules@[2].cont.ranges@[0] == ('0', '9'));
        }
    }
    t
}

/// The value of a decimal digit.
pub open spec fn digit_value(c: char) -> u64 {
    ((c as u32) - ('0' as u32)) as u64
}

/// The value of a string of decimal digits, computed in `u64` arithmetic
/// that wraps around on overflow.
pub open spec fn number_value(text: Seq<char>) -> u64
    decreases text.len(),
{
    if text.len() == 0 {
        0
    } else {
        number_value(text.drop_last()).wrapping_mul(10).wrapping_add(digit_value(text.last()))
    }
}

/// The value of the digits in `text`.
fn number_of(text: &Vec<char>) -> (v: u64)
    requires
        forall|i: int| 0 <= i < text@.len() ==> is_digit(#[trigger] text@[i]),
    ensures
        v == number_value(text@),
{
    let mut v: u64 = 0;
    let mut i: usize = 0;
    while i < text.len()
        invariant
            i <= text@.len(),
            v == number_value(text@.take(i as int)),
            forall|j: int| 0 <= j < text@.len() ==> is_digit(#[trigger] text@[j]),
        decreases text@.len() - i,
    {
        let c = text[i];
        assert(text@.take(i + 1).drop_last() =~= text@.take(i as int));
        v = v.wrapping_mul(10).wrapping_add((c as u32 - '0' as u32) as u64);
        i = i + 1;
    }
    assert(text@.take(i as int) =~= text@);
    v
}

/// Relies on `FromIterator<char>` for `String`: the string holds the
/// characters in order.
#[verifier::external_body]
fn string_of(chars: &Vec<char>) -> (s: String)
    ensures
        s@ == chars@,
{
    chars.iter().collect()
}

/// What the example lexer produces for one scan result.
pub open spec fn token_matches(r: Result<Token<ExampleToken>, LexingError<char>>, e: Emit) -> bool {
    match e {
        Emit::Tok { start, end, rule, text } => match r {
            Ok(t) => t.span == (start as usize, end as usize) && match t.token_type {
                ExampleToken::String(s) => rule == WORD_RULE as nat && s@ == text,
                ExampleToken::Whitespace => rule == SPACE_RULE as nat,
                ExampleToken::Number(v) => rule == NUMBER_RULE as nat && v == number_value(text),
                ExampleToken::EOI => false,
            },
            Err(_) => false,
        },
        Emit::Eoi { start, end } => match r {
            Ok(t) => t.span == (start as usize, end as usize) && t.token_type == ExampleToken::EOI,
            Err(_) => false,
        },
        Emit::Bad { input, index } => r == Err::<Token<ExampleToken>, LexingError<char>>(
            LexingError::UnexpectedInput { input, index: index as usize },
        ),
    }
}

/// A lexer for the example language over a sequence of positioned characters.
pub struct ExampleLexer {
    scanner: Scanner,
    table: RuleTable,
}

impl ExampleLexer {
    /// The underlying scanner.
    pub closed spec fn scan(&self) -> Scanner {
        self.scanner
    }

    /// The rule table the lexer dispatches on.
    pub closed spec fn rules(&self) -> RuleTable {
        self.table
    }

    /// The lexer's invariant.
    pub open spec fn wf(&self) -> bool {
        &&& self.scan().wf()
        &&& self.scan().tracks()
        &&& is_example_table(&self.rules())
    }

    /// Whether the end-of-input token has been produced.
    pub open spec fn finished(&self) -> bool {
        self.scan().finished()
    }

    /// The scan results the lexer has still to produce.
    pub open spec fn remaining(&self) -> Seq<Emit> {
        self.scan().remaining(&self.rules())
    }

    /// Create a lexer over `(position, character)` pairs.
    pub fn new_from_ci(input: Vec<(usize, char)>) -> (r: Self)
        requires
            valid_source(input@),
        ensures
            r.wf(),
            r.scan().source() == input@,
            !r.finished(),
            r.remaining() == emits(&r.rules(), input@, 0),
    {
        ExampleLexer { scanner: Scanner::new(input), table: example_table() }
    }

    /// Create a lexer over the characters of `input`, positioned by index.
    pub fn new_from_str(input: &str) -> (r: Self)
        ensures
            r.wf(),
            r.scan().source() == indexed(input@),
            !r.finished(),
            r.remaining() == emits(&r.rules(), indexed(input@), 0),
    {
        let n = input.unicode_len();
        let mut pairs: Vec<(usize, char)> = Vec::new();
        let mut i: usize = 0;
        while i < n
            invariant
                i <= n,
                n == input@.len(),
                pairs@ == indexed(input@).take(i as int),
            decreases n - i,
        {
            let c = input.get_char(i);
            pairs.push((i, c));
            i = i + 1;
            assert(pairs@ =~= indexed(input@).take(i as int));
        }
        assert(pairs@ =~= indexed(input@));
        Self::new_from_ci(pairs)
    }

    /// Produce the next token or error; after the end-of-input token,
    /// produce nothing, leaving the lexer as it is.
    pub fn next(&mut self) -> (r: Option<Result<Token<ExampleToken>, LexingError<char>>>)
        requires
            old(self).wf(),
        ensures
            final(self).wf(),
            final(self).rules() == old(self).rules(),
            final(self).scan().source() == old(self).scan().source(),
            old(self).finished() ==> r is None && *final(self) == *old(self),
            !old(self).finished() ==> r is Some && token_matches(r->0, old(self).remaining()[0]),
            !old(self).finished() ==> final(self).remaining() == old(self).remaining().drop_first(),
    {
        let ghost src = self.scanner.source();
        let ghost k = self.scanner.index();
        let r = self.scanner.next(&self.table);
        match r {
            None => None,
            Some(Err(e)) => Some(Err(e)),
            Some(Ok(t)) => {
                let Token { span, token_type } = t;
                let kind = match token_type {
                    Lexeme::Eoi => ExampleToken::EOI,
                    Lexeme::Rule { index, text } => {
                        proof {
                            lemma_token_text(&self.table, src, k);
                        }
                        if index == WORD_RULE {
                            ExampleToken::String(string_of(&text))
                        } else if index == SPACE_RULE {
                            ExampleToken::Whitespace
                        } else {
                            ExampleToken::Number(number_of(&text))
                        }
                    },
                };
                Some(Ok(Token::new(span, kind)))
            },
        }
    }
}

impl Lexer<char, ExampleToken> for ExampleLexer {
    open spec fn position(&self) -> nat {
        self.scan().position()
    }

    fn get_pos(&self) -> (r: usize) {
        self.scanner.get_pos()
    }
}

} // verus!
