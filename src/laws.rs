//! Properties of every scan, stated over the scan model of `scanner`.

use crate::example1::ExampleLexer;
use crate::rules::RuleTable;
use crate::scanner::{emit_at, emits, eoi_pos, indexed, lemma_next_index, next_index, Emit};
use vstd::prelude::*;

verus! {

/// The results `e` are tokens but the last, which is the end-of-input
/// token; the tokens run edge to edge from `from`, and the last of them
/// ends at `to` (with no tokens, `from == to`).
pub open spec fn tiles(e: Seq<Emit>, from: nat, to: nat) -> bool {
    &&& e.len() >= 1
    &&& forall|i: int| 0 <= i < e.len() - 1 ==> #[trigger] e[i] is Tok
    &&& e.len() == 1 ==> from == to
    &&& e.len() > 1 ==> e[0]->Tok_start == from && e[e.len() - 2]->Tok_end == to
    &&& forall|i: int| 0 <= i < e.len() - 2 ==> (#[trigger] e[i])->Tok_end == e[i + 1]->Tok_start
}

/// Every scan ends with the end-of-input token, and produces it nowhere
/// else; it gives at most one result per character, plus that token.
pub proof fn lemma_single_eoi(table: &RuleTable, src: Seq<(usize, char)>, k: int)
    requires
        0 <= k,
    ensures
        emits(table, src, k).len() >= 1,
        k <= src.len() ==> emits(table, src, k).len() <= src.len() - k + 1,
        emits(table, src, k).last() == (Emit::Eoi { start: eoi_pos(src), end: eoi_pos(src) }),
        forall|i: int|
            0 <= i < emits(table, src, k).len() - 1 ==> !(#[trigger] emits(table, src, k)[i] is Eoi),
    decreases src.len() - k,
{
    if k < src.len() {
        let n = next_index(table, src, k);
        lemma_next_index(table, src, k);
        lemma_single_eoi(table, src, n);
        let e = emits(table, src, k);
        assert forall|i: int| 0 <= i < e.len() - 1 implies !(#[trigger] e[i] is Eoi) by {
            if i > 0 {
                assert(e[i] == emits(table, src, n)[i - 1]);
            }
        }
    }
}

/// The stream of a lexer over the text `s`, from its first result: at most
/// one result per character and then the end-of-input token, which comes
/// once and last; where no character is rejected, the token spans cover
/// `[0, length)` edge to edge.
pub proof fn lemma_lexer_stream(l: &ExampleLexer, s: Seq<char>)
    requires
        l.wf(),
        s.len() <= usize::MAX,
        l.remaining() == emits(&l.rules(), indexed(s), 0),
    ensures
        1 <= l.remaining().len() <= s.len() + 1,
        l.remaining().last() == (Emit::Eoi { start: s.len(), end: s.len() }),
        forall|i: int| 0 <= i < l.remaining().len() - 1 ==> !(#[trigger] l.remaining()[i] is Eoi),
        (forall|i: int| 0 <= i < l.remaining().len() ==> !(#[trigger] l.remaining()[i] is Bad))
            ==> tiles(l.remaining(), 0, s.len()),
{
    lemma_single_eoi(&l.rules(), indexed(s), 0);
    assert(eoi_pos(indexed(s)) == s.len());
    if forall|i: int| 0 <= i < l.remaining().len() ==> !(#[trigger] l.remaining()[i] is Bad) {
        lemma_spans_cover(&l.rules(), s);
    }
}

/// Scanning text positioned by character index: where no character is
/// rejected, the token spans cover `[0, length)` edge to edge, without gaps
/// or overlaps, and the end-of-input token follows them.
pub proof fn lemma_spans_cover(table: &RuleTable, s: Seq<char>)
    requires
        s.len() <= usize::MAX,
        forall|i: int|
            0 <= i < emits(table, indexed(s), 0).len() ==> !(#[trigger] emits(table, indexed(s), 0)[i] is Bad),
    ensures
        tiles(emits(table, indexed(s), 0), 0, s.len()),
        emits(table, indexed(s), 0).last() == (Emit::Eoi { start: s.len(), end: s.len() }),
{
    lemma_tiles_from(table, s, 0);
}

proof fn lemma_tiles_from(table: &RuleTable, s: Seq<char>, k: int)
    requires
        s.len() <= usize::MAX,
        0 <= k <= s.len(),
        forall|i: int|
            0 <= i < emits(table, indexed(s), k).len() ==> !(#[trigger] emits(table, indexed(s), k)[i] is Bad),
    ensures
        tiles(emits(table, indexed(s), k), k as nat, s.len()),
        emits(table, indexed(s), k).last() == (Emit::Eoi { start: s.len(), end: s.len() }),
    decreases s.len() - k,
{
    let src = indexed(s);
    let e = emits(table, src, k);
    if k < s.len() {
        let n = next_index(table, src, k);
        lemma_next_index(table, src, k);
        let rest = emits(table, src, n);
        assert(e[0] == emit_at(table, src, k));
        assert(!(e[0] is Bad));
        assert forall|i: int| 0 <= i < rest.len() implies !(#[trigger] rest[i] is Bad) by {
            assert(rest[i] == e[i + 1]);
        }
        lemma_tiles_from(table, s, n);
        assert forall|i: int| 0 <= i < e.len() - 1 implies #[trigger] e[i] is Tok by {
            if i > 0 {
                assert(e[i] == rest[i - 1]);
            }
        }
        assert forall|i: int| 0 <= i < e.len() - 2 implies (#[trigger] e[i])->Tok_end == e[i
            + 1]->Tok_start by {
            if i > 0 {
                assert(e[i] == rest[i - 1]);
                assert(e[i + 1] == rest[i]);
            }
        }
        assert(e.last() == rest.last());
    } else {
        assert(eoi_pos(src) == s.len());
    }
}

/// A character that no rule accepts gives one error and is skipped: the
/// scan goes on from the next character.
pub proof fn lemma_skip_rejected(table: &RuleTable, src: Seq<(usize, char)>, k: int)
    requires
        0 <= k < src.len(),
        table.first_match(src[k].1) is None,
    ensures
        emits(table, src, k) == seq![Emit::Bad { input: src[k].1, index: src[k].0 as nat }]
            + emits(table, src, k + 1),
{
}

} // verus!
