//! The lookahead scanner: one forward pass over `(position, character)`
//! pairs with two slots of lookahead, dispatching on an ordered rule table.

use crate::lex::{LexingError, Token};
use crate::rules::{CharClass, RuleTable};
use vstd::prelude::*;

verus! {

/// What a rule-table-driven scan produces before a token kind gives it meaning.
#[derive(Debug, PartialEq, Eq)]
pub enum Lexeme {
    /// A token matched by the rule at `index`, with the characters it covers.
    Rule { index: usize, text: Vec<char> },
    /// The end-of-input marker.
    Eoi,
}

/// One result of the scan, as a mathematical value.
pub enum Emit {
    Tok { start: nat, end: nat, rule: nat, text: Seq<char> },
    Eoi { start: nat, end: nat },
    Bad { input: char, index: nat },
}

/// The mathematical value of one scan result.
pub open spec fn emit_of(r: Result<Token<Lexeme>, LexingError<char>>) -> Emit {
    match r {
        Ok(t) => match t.token_type {
            Lexeme::Rule { index, text } => Emit::Tok {
                start: t.span.0 as nat,
                end: t.span.1 as nat,
                rule: index as nat,
                text: text@,
            },
            Lexeme::Eoi => Emit::Eoi { start: t.span.0 as nat, end: t.span.1 as nat },
        },
        Err(LexingError::UnexpectedInput { input, index }) => Emit::Bad { input, index: index as nat },
    }
}

/// Positions strictly increase, and one past the last still fits in `usize`.
pub open spec fn valid_source(src: Seq<(usize, char)>) -> bool {
    &&& forall|i: int| 0 <= i < src.len() - 1 ==> #[trigger] src[i].0 < src[i + 1].0
    &&& src.len() > 0 ==> src.last().0 < usize::MAX
}

/// The characters of `s`, each paired with its index.
pub open spec fn indexed(s: Seq<char>) -> Seq<(usize, char)> {
    Seq::new(s.len(), |i: int| (i as usize, s[i]))
}

/// The characters of `src` from `a` up to `b`.
pub open spec fn chars_of(src: Seq<(usize, char)>, a: int, b: int) -> Seq<char> {
    src.subrange(a, b).map_values(|p: (usize, char)| p.1)
}

/// The index of the first character from `j` on that `cl` does not hold.
pub open spec fn run_end(cl: &CharClass, src: Seq<(usize, char)>, j: int) -> int
    decreases src.len() - j,
{
    if 0 <= j < src.len() && cl.has(src[j].1) {
        run_end(cl, src, j + 1)
    } else {
        j
    }
}

/// Where the end-of-input token stands: one past the last position, or 0
/// for empty input.
pub open spec fn eoi_pos(src: Seq<(usize, char)>) -> nat {
    if src.len() == 0 {
        0
    } else {
        (src.last().0 + 1) as nat
    }
}

/// The index of the character that follows the result beginning at `k`.
pub open spec fn next_index(table: &RuleTable, src: Seq<(usize, char)>, k: int) -> int {
    match table.first_match(src[k].1) {
        Some(r) => run_end(&table.rules@[r as int].cont, src, k + 1),
        None => k + 1,
    }
}

/// The result for the character at index `k`: the token of the first rule
/// that accepts it, running as far as the rule's continuation class reaches,
/// or an error for that single character.
pub open spec fn emit_at(table: &RuleTable, src: Seq<(usize, char)>, k: int) -> Emit {
    match table.first_match(src[k].1) {
        Some(r) => Emit::Tok {
            start: src[k].0 as nat,
            end: (src[k].0 + (next_index(table, src, k) - k)) as nat,
            rule: r,
            text: chars_of(src, k, next_index(table, src, k)),
        },
        None => Emit::Bad { input: src[k].1, index: src[k].0 as nat },
    }
}

/// Every result of a scan that starts at index `k`, the end-of-input token last.
pub open spec fn emits(table: &RuleTable, src: Seq<(usize, char)>, k: int) -> Seq<Emit>
    decreases src.len() - k,
    via emits_decreases
{
    if 0 <= k < src.len() {
        seq![emit_at(table, src, k)] + emits(table, src, next_index(table, src, k))
    } else {
        seq![Emit::Eoi { start: eoi_pos(src), end: eoi_pos(src) }]
    }
}

#[via_fn]
proof fn emits_decreases(table: &RuleTable, src: Seq<(usize, char)>, k: int) {
    if 0 <= k < src.len() {
        lemma_next_index(table, src, k);
    }
}

/// A run ends after its start, within the input, on a character outside the
/// class, and holds only characters of the class.
pub proof fn lemma_run_end(cl: &CharClass, src: Seq<(usize, char)>, j: int)
    requires
        0 <= j <= src.len(),
    ensures
        j <= run_end(cl, src, j) <= src.len(),
        run_end(cl, src, j) < src.len() ==> !cl.has(src[run_end(cl, src, j)].1),
        forall|i: int| j <= i < run_end(cl, src, j) ==> cl.has(#[trigger] src[i].1),
    decreases src.len() - j,
{
    if j < src.len() && cl.has(src[j].1) {
        lemma_run_end(cl, src, j + 1);
    }
}

/// The result at `k` covers at least one character and stays within the input.
pub proof fn lemma_next_index(table: &RuleTable, src: Seq<(usize, char)>, k: int)
    requires
        0 <= k < src.len(),
    ensures
        k < next_index(table, src, k) <= src.len(),
{
    if let Some(r) = table.first_match(src[k].1) {
        lemma_run_end(&table.rules@[r as int].cont, src, k + 1);
    }
}

/// Extending a stretch of characters by one more.
pub proof fn lemma_chars_of_push(src: Seq<(usize, char)>, a: int, b: int)
    requires
        0 <= a <= b < src.len(),
    ensures
        chars_of(src, a, b + 1) == chars_of(src, a, b).push(src[b].1),
{
    assert(chars_of(src, a, b + 1) =~= chars_of(src, a, b).push(src[b].1));
}

/// A token's text begins with a character of its rule's start class and
/// goes on with characters of its continuation class.
pub proof fn lemma_token_text(table: &RuleTable, src: Seq<(usize, char)>, k: int)
    requires
        0 <= k < src.len(),
        table.first_match(src[k].1) is Some,
    ensures
        ({
            let r = table.first_match(src[k].1)->0 as int;
            let text = chars_of(src, k, next_index(table, src, k));
            &&& 0 <= r < table.rules@.len()
            &&& text.len() >= 1
            &&& table.rules@[r].start.has(text[0])
            &&& forall|i: int| 1 <= i < text.len() ==> table.rules@[r].cont.has(#[trigger] text[i])
        }),
{
    let r = table.first_match(src[k].1)->0 as int;
    table.lemma_first_match(src[k].1);
    lemma_run_end(&table.rules@[r].cont, src, k + 1);
    let text = chars_of(src, k, next_index(table, src, k));
    assert forall|i: int| 1 <= i < text.len() implies table.rules@[r].cont.has(#[trigger] text[i]) by {
        assert(text[i] == src[k + i].1);
    }
}

/// Positions grow by at least one per character.
pub proof fn lemma_positions_spread(src: Seq<(usize, char)>, i: int, j: int)
    requires
        valid_source(src),
        0 <= i <= j < src.len(),
    ensures
        src[j].0 >= src[i].0 + (j - i),
    decreases j - i,
{
    if i < j {
        lemma_positions_spread(src, i, j - 1);
    }
}

/// The position the tracker holds at index `k`: that of the current
/// character; after the input, that of the last one (0 for empty input);
/// once the end-of-input token is out, the end-of-input position.
pub open spec fn tracker(src: Seq<(usize, char)>, k: int, done: bool) -> nat {
    if done {
        eoi_pos(src)
    } else if 0 <= k < src.len() {
        src[k].0 as nat
    } else if k >= src.len() && src.len() > 0 {
        src.last().0 as nat
    } else {
        0
    }
}

/// A scanner over a sequence of `(position, character)` pairs, with the
/// character under the cursor (`current`) and the one after it (`peek`).
pub struct Scanner {
    source: Vec<(usize, char)>,
    pulled: usize,
    current: Option<(usize, char)>,
    peek: Option<(usize, char)>,
    at: usize,
    done: bool,
    cursor: Ghost<int>,
}

impl Scanner {
    /// The pairs being scanned.
    pub closed spec fn source(&self) -> Seq<(usize, char)> {
        self.source@
    }

    /// The index of the current character.
    pub closed spec fn index(&self) -> int {
        self.cursor@
    }

    /// Whether the end-of-input token has been produced.
    pub closed spec fn finished(&self) -> bool {
        self.done
    }

    /// The position the tracker holds.
    pub closed spec fn position(&self) -> nat {
        self.at as nat
    }

    /// The tracker holds the position of the current character (see `tracker`).
    pub open spec fn tracks(&self) -> bool {
        self.position() == tracker(self.source(), self.index(), self.finished())
    }

    /// The two lookahead slots and the count of pairs pulled agree with the
    /// cursor, which may stand before the input while the buffer is primed.
    closed spec fn buffer_ok(&self) -> bool {
        let src = self.source@;
        let k = self.cursor@;
        &&& -2 <= k <= src.len()
        &&& self.current == if 0 <= k < src.len() {
            Some(src[k])
        } else {
            None
        }
        &&& self.peek == if 0 <= k + 1 < src.len() {
            Some(src[k + 1])
        } else {
            None
        }
        &&& self.pulled == if k + 2 <= src.len() {
            k + 2
        } else {
            src.len() as int
        }
        &&& self.at == tracker(src, k, self.done)
    }

    /// The scanner's invariant.
    pub closed spec fn wf(&self) -> bool {
        &&& valid_source(self.source@)
        &&& self.buffer_ok()
        &&& 0 <= self.cursor@
        &&& self.done ==> self.cursor@ == self.source@.len()
    }

    /// The results that the scanner has still to produce under `table`.
    pub open spec fn remaining(&self, table: &RuleTable) -> Seq<Emit> {
        if self.finished() {
            seq![]
        } else {
            emits(table, self.source(), self.index())
        }
    }

    /// Create a scanner over `source` and prime both lookahead slots.
    pub fn new(source: Vec<(usize, char)>) -> (r: Self)
        requires
            valid_source(source@),
        ensures
            r.wf(),
            r.tracks(),
            r.source() == source@,
            r.index() == 0,
            !r.finished(),
    {
        let mut r = Scanner {
            source,
            pulled: 0,
            current: None,
            peek: None,
            at: 0,
            done: false,
            cursor: Ghost(-2),
        };
        r.advance();
        r.advance();
        r
    }

    /// Shift `peek` into `current`, move the position tracker to it, and
    /// pull the next pair into `peek`. Once the input is used up this only
    /// leaves both slots empty.
    fn advance(&mut self)
        requires
            valid_source(old(self).source@),
            old(self).buffer_ok(),
            old(self).done ==> old(self).cursor@ == old(self).source@.len(),
        ensures
            final(self).buffer_ok(),
            final(self).source@ == old(self).source@,
            final(self).done == old(self).done,
            final(self).cursor@ == if old(self).cursor@ < old(self).source@.len() {
                old(self).cursor@ + 1
            } else {
                old(self).cursor@
            },
            old(self).cursor@ >= old(self).source@.len() ==> final(self).current is None
                && final(self).peek is None && final(self).at == old(self).at,
    {
        self.current = self.peek;
        if let Some((at, _)) = self.current {
            self.at = at;
        }
        if self.pulled < self.source.len() {
            self.peek = Some(self.source[self.pulled]);
            self.pulled = self.pulled + 1;
        } else {
            self.peek = None;
        }
        self.cursor = Ghost(
            if self.cursor@ < self.source@.len() {
                self.cursor@ + 1
            } else {
                self.cursor@
            },
        );
    }

    /// Take the current character and every following one that `cl` holds,
    /// leaving the cursor on the last character taken.
    fn consume_run(&mut self, cl: &CharClass) -> (text: Vec<char>)
        requires
            old(self).wf(),
            !old(self).done,
            0 <= old(self).cursor@ < old(self).source@.len(),
        ensures
            final(self).wf(),
            !final(self).done,
            final(self).source@ == old(self).source@,
            old(self).cursor@ <= final(self).cursor@ < old(self).source@.len(),
            final(self).cursor@ + 1 == run_end(cl, old(self).source@, old(self).cursor@ + 1),
            text@ == chars_of(old(self).source@, old(self).cursor@, final(self).cursor@ + 1),
    {
        let ghost src = self.source@;
        let ghost k0 = self.cursor@;
        let mut text: Vec<char> = Vec::new();
        let (_, c) = self.current.unwrap();
        text.push(c);
        assert(text@ =~= chars_of(src, k0, k0 + 1));
        loop
            invariant
                self.wf(),
                !self.done,
                self.source@ == src,
                0 <= k0 <= self.cursor@ < src.len(),
                run_end(cl, src, k0 + 1) == run_end(cl, src, self.cursor@ + 1),
                text@ == chars_of(src, k0, self.cursor@ + 1),
            ensures
                self.wf(),
                !self.done,
                self.source@ == src,
                k0 <= self.cursor@ < src.len(),
                self.cursor@ + 1 == run_end(cl, src, k0 + 1),
                text@ == chars_of(src, k0, self.cursor@ + 1),
            decreases src.len() - self.cursor@,
        {
            match self.peek {
                Some((_, c1)) => {
                    if cl.contains(c1) {
                        let ghost k = self.cursor@;
                        proof {
                            lemma_chars_of_push(src, k0, k + 1);
                        }
                        text.push(c1);
                        self.advance();
                    } else {
                        break;
                    }
                },
                None => {
                    break;
                },
            }
        }
        text
    }

    /// Scan the token of rule `ri`, which governs the current character, and
    /// step past it.
    fn scan_token(&mut self, table: &RuleTable, ri: usize) -> (t: Token<Lexeme>)
        requires
            old(self).wf(),
            !old(self).done,
            0 <= old(self).cursor@ < old(self).source@.len(),
            table.first_match(old(self).source@[old(self).cursor@].1) == Some(ri as nat),
        ensures
            final(self).wf(),
            !final(self).done,
            final(self).source@ == old(self).source@,
            final(self).cursor@ == next_index(table, old(self).source@, old(self).cursor@),
            emit_of(Ok(t)) == emit_at(table, old(self).source@, old(self).cursor@),
    {
        let ghost src = self.source@;
        let ghost k0 = self.cursor@;
        proof {
            table.lemma_first_match(src[k0].1);
        }
        let (pos, _) = self.current.unwrap();
        let text = self.consume_run(&table.rules[ri].cont);
        proof {
            lemma_positions_spread(src, k0, self.cursor@);
        }
        let end = pos + text.len();
        self.advance();
        Token::new((pos, end), Lexeme::Rule { index: ri, text })
    }

    proof fn lemma_unfold(&self, table: &RuleTable, src: Seq<(usize, char)>, k: int)
        requires
            0 <= k < src.len(),
        ensures
            emits(table, src, k)[0] == emit_at(table, src, k),
            emits(table, src, k).drop_first() == emits(table, src, next_index(table, src, k)),
    {
        assert(emits(table, src, k).drop_first() =~= emits(table, src, next_index(table, src, k)));
    }

    /// The position tracker: the position of the current character.
    pub fn get_pos(&self) -> (r: usize)
        ensures
            r == self.position(),
    {
        self.at
    }

    /// Produce the next result: a token, an error for a character that no
    /// rule accepts (which is then skipped), the end-of-input token once the
    /// input is used up, and nothing after that.
    pub fn next(&mut self, table: &RuleTable) -> (r: Option<Result<Token<Lexeme>, LexingError<char>>>)
        requires
            old(self).wf(),
        ensures
            final(self).wf(),
            final(self).tracks(),
            final(self).source() == old(self).source(),
            old(self).finished() ==> r is None && *final(self) == *old(self),
            !old(self).finished() ==> r is Some,
            !old(self).finished() ==> emit_of(r->0) == old(self).remaining(table)[0],
            !old(self).finished() ==> final(self).remaining(table) == old(self).remaining(
                table,
            ).drop_first(),
    {
        if self.done {
            return None;
        }
        let ghost src = self.source@;
        let ghost k0 = self.cursor@;
        match self.current {
            Some((pos, c)) => {
                match table.dispatch(c) {
                    Some(ri) => {
                        proof {
                            table.lemma_first_match(c);
                        }
                        let t = self.scan_token(table, ri);
                        let r = Some(Ok(t));
                        proof {
                            self.lemma_unfold(table, src, k0);
                        }
                        r
                    },
                    None => {
                        self.advance();
                        let r = Some(Err(LexingError::UnexpectedInput { input: c, index: pos }));
                        proof {
                            self.lemma_unfold(table, src, k0);
                        }
                        r
                    },
                }
            },
            None => {
                let p = if self.source.len() == 0 {
                    0
                } else {
                    self.at + 1
                };
                self.done = true;
                self.at = p;
                let r = Some(Ok(Token::new((p, p), Lexeme::Eoi)));
                assert(self.remaining(table) =~= old(self).remaining(table).drop_first());
                r
            },
        }
    }
}

} // verus!
