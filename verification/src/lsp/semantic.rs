//! What an editor is sent: delta-encoded highlighted tokens, diagnostics with
//! their ranges, and the store of open documents that both are derived from.

use vstd::prelude::*;
use crate::assoc::AssocMap;
use crate::lsp::line_index::{law_position_monotonic, position_of, utf16_len, LineIndex};
use crate::lsp::tokenizer::{law_tokens_are_ordered, tokenize, tokens_from, Token};
use crate::order::{
    law_sorted_list_keeps_order, lemma_lex_small, lex_le, order_of, ranks, stable_order, SortKey,
};

verus! {

/// A token on one line.
#[derive(Debug, Clone, Copy, PartialEq, Eq, Structural)]
pub struct Span {
    pub line: u32,
    pub col: u32,
    pub length: u32,
    pub kind: u32,
}

/// A token as the wire format has it: relative to the token before it.
#[derive(Debug, Clone, Copy, PartialEq, Eq, Structural)]
pub struct SemanticToken {
    pub delta_line: u32,
    pub delta_start: u32,
    pub length: u32,
    pub token_type: u32,
    pub token_modifiers_bitset: u32,
}

/// A line number or column as a position on the wire has it.
pub open spec fn wire(n: nat) -> u32 {
    (n % 0x1_0000_0000) as u32
}

/// The span of token `t` in the text `cs`; `None` for a token that does not end
/// on the line it starts on, which the wire format cannot express.
pub open spec fn span_of(cs: Seq<char>, t: Token) -> Option<Span> {
    let a = position_of(cs, t.start as int);
    let b = position_of(cs, t.start + t.len);
    if wire(a.0) == wire(b.0) {
        Some(
            Span {
                line: wire(a.0),
                col: wire(a.1),
                length: wire(((wire(b.1) - wire(a.1)) % 0x1_0000_0000) as nat),
                kind: t.kind,
            },
        )
    } else {
        None
    }
}

/// The spans of those tokens that have one, in the tokens' order.
pub open spec fn spans_of(cs: Seq<char>, tokens: Seq<Token>) -> Seq<Span>
    decreases tokens.len(),
{
    if tokens.len() == 0 {
        Seq::empty()
    } else {
        let rest = spans_of(cs, tokens.drop_last());
        match span_of(cs, tokens.last()) {
            Some(s) => rest.push(s),
            None => rest,
        }
    }
}

/// What spans are ordered by: the line, then the column.
pub open spec fn span_rank(s: Span) -> Seq<int> {
    seq![s.line as int, s.col as int]
}

/// Whether `a` starts no later than `b`.
pub open spec fn starts_by(a: Span, b: Span) -> bool {
    a.line < b.line || (a.line == b.line && a.col <= b.col)
}

/// The spans in the order of their positions, spans at one position in their
/// original order.
pub open spec fn sorted_spans(spans: Seq<Span>) -> Seq<Span> {
    let ord = order_of(spans.map_values(|s: Span| span_rank(s)), spans.len());
    Seq::new(spans.len(), |i: int| spans[ord[i]])
}

/// One span relative to the position of the span before it.
pub open spec fn delta(prev_line: u32, prev_start: u32, s: Span) -> SemanticToken {
    SemanticToken {
        delta_line: (s.line - prev_line) as u32,
        delta_start: if s.line == prev_line {
            (s.col - prev_start) as u32
        } else {
            s.col
        },
        length: s.length,
        token_type: s.kind,
        token_modifiers_bitset: 0,
    }
}

/// The wire encoding of spans in position order.
pub open spec fn delta_encode(spans: Seq<Span>) -> Seq<SemanticToken> {
    Seq::new(
        spans.len(),
        |i: int|
            if i == 0 {
                delta(0, 0, spans[0])
            } else {
                delta(spans[i - 1].line, spans[i - 1].col, spans[i])
            },
    )
}

/// What an editor reads out of the wire encoding: each token's line, column,
/// length and kind, by summing the deltas.
pub open spec fn delta_decode(tokens: Seq<SemanticToken>) -> Seq<(int, int, u32, u32)>
    decreases tokens.len(),
{
    if tokens.len() == 0 {
        Seq::empty()
    } else {
        let rest = delta_decode(tokens.drop_last());
        let (line, col) = if rest.len() == 0 {
            (0int, 0int)
        } else {
            (rest.last().0, rest.last().1)
        };
        let t = tokens.last();
        rest.push(
            (
                line + t.delta_line,
                if t.delta_line == 0 {
                    col + t.delta_start
                } else {
                    t.delta_start as int
                },
                t.length,
                t.token_type,
            ),
        )
    }
}

/// Spans in position order.
pub open spec fn in_position_order(spans: Seq<Span>) -> bool {
    forall|i: int, j: int|
        0 <= i < j < spans.len() ==> starts_by(#[trigger] spans[i], #[trigger] spans[j])
}

/// Sorting puts the spans in position order.
pub proof fn law_sorted_spans_are_in_order(spans: Seq<Span>)
    ensures
        in_position_order(sorted_spans(spans)),
{
    let keys = spans.map_values(|s: Span| span_rank(s));
    crate::order::law_order_of_is_stable(keys, spans.len());
    let ord = order_of(keys, spans.len());
    assert forall|i: int, j: int| 0 <= i < j < spans.len() implies starts_by(
        #[trigger] sorted_spans(spans)[i],
        #[trigger] sorted_spans(spans)[j],
    ) by {
        assert(ord[i] != ord[j]);
        let a = spans[ord[i]];
        let b = spans[ord[j]];
        lemma_lex_small(a.line as int, b.line as int, a.col as int, b.col as int);
    }
}

/// Decoding the deltas gives back the encoded spans.
pub proof fn law_delta_round_trip(spans: Seq<Span>)
    requires
        in_position_order(spans),
    ensures
        delta_decode(delta_encode(spans)) == spans.map_values(
            |s: Span| (s.line as int, s.col as int, s.length, s.kind),
        ),
    decreases spans.len(),
{
    let want = spans.map_values(|s: Span| (s.line as int, s.col as int, s.length, s.kind));
    if spans.len() > 0 {
        let p = spans.drop_last();
        assert(in_position_order(p)) by {
            assert forall|i: int, j: int| 0 <= i < j < p.len() implies starts_by(
                #[trigger] p[i],
                #[trigger] p[j],
            ) by {
                assert(starts_by(spans[i], spans[j]));
            }
        }
        law_delta_round_trip(p);
        assert(delta_encode(spans).drop_last() =~= delta_encode(p));
        if p.len() > 0 {
            let n = spans.len() as int;
            assert(starts_by(spans[n - 2], spans[n - 1]));
            assert(delta_decode(delta_encode(p)).last() == (
                p.last().line as int,
                p.last().col as int,
                p.last().length,
                p.last().kind,
            ));
        }
    }
    assert(delta_decode(delta_encode(spans)) =~= want);
}

/// The tokens of a text that fits the wire's numbers are met in position
/// order, so sorting their spans changes nothing.
pub proof fn law_tokenized_spans_need_no_sorting(cs: Seq<char>)
    requires
        cs.len() < 0x8000_0000,
    ensures
        sorted_spans(spans_of(cs, tokens_from(cs, 0))) == spans_of(cs, tokens_from(cs, 0)),
{
    let tokens = tokens_from(cs, 0);
    law_tokens_are_ordered(cs, 0);
    lemma_spans_in_order(cs, tokens);
    let spans = spans_of(cs, tokens);
    let keys = spans.map_values(|s: Span| span_rank(s));
    assert forall|i: int, j: int| 0 <= i < j < spans.len() implies lex_le(
        #[trigger] keys[i],
        #[trigger] keys[j],
    ) by {
        let a = spans[i];
        let b = spans[j];
        assert(starts_by(a, b));
        lemma_lex_small(a.line as int, b.line as int, a.col as int, b.col as int);
    }
    law_sorted_list_keeps_order(keys, spans.len());
    assert(sorted_spans(spans) =~= spans);
}

proof fn lemma_small_positions(cs: Seq<char>, i: int)
    requires
        cs.len() < 0x8000_0000,
        0 <= i,
    ensures
        position_of(cs, i).0 < 0x1_0000_0000,
        position_of(cs, i).1 < 0x1_0000_0000,
{
    let p = crate::lsp::line_index::clamp_to(cs, i);
    crate::text::lemma_line_start_prefix(cs, cs.len() as int, p);
    lemma_newlines_bound(cs.take(p));
    lemma_utf16_bound(cs.subrange(crate::text::line_start_of(cs, p), p));
}

proof fn lemma_newlines_bound(cs: Seq<char>)
    ensures
        crate::text::newlines(cs) <= cs.len(),
    decreases cs.len(),
{
    if cs.len() > 0 {
        lemma_newlines_bound(cs.drop_last());
    }
}

proof fn lemma_utf16_bound(cs: Seq<char>)
    ensures
        utf16_len(cs) <= 2 * cs.len(),
    decreases cs.len(),
{
    if cs.len() > 0 {
        lemma_utf16_bound(cs.drop_last());
    }
}

proof fn lemma_spans_in_order(cs: Seq<char>, tokens: Seq<Token>)
    requires
        cs.len() < 0x8000_0000,
        forall|i: int, j: int|
            0 <= i < j < tokens.len() ==> (#[trigger] tokens[i]).start <= (
            #[trigger] tokens[j]).start,
    ensures
        in_position_order(spans_of(cs, tokens)),
        tokens.len() > 0 ==> forall|k: int|
            0 <= k < spans_of(cs, tokens).len() ==> ({
                let s = #[trigger] spans_of(cs, tokens)[k];
                let p = position_of(cs, tokens.last().start as int);
                s.line < p.0 || (s.line == p.0 && s.col <= p.1)
            }),
    decreases tokens.len(),
{
    if tokens.len() > 0 {
        let rest = tokens.drop_last();
        lemma_spans_in_order(cs, rest);
        let t = tokens.last();
        let p = position_of(cs, t.start as int);
        lemma_small_positions(cs, t.start as int);
        let rs = spans_of(cs, rest);
        let ss = spans_of(cs, tokens);
        assert forall|k: int| 0 <= k < rs.len() implies ({
            let s = #[trigger] rs[k];
            s.line < p.0 || (s.line == p.0 && s.col <= p.1)
        }) by {
            let u = rest.last();
            assert(tokens[tokens.len() - 2].start <= tokens[tokens.len() - 1].start);
            law_position_monotonic(cs, u.start as int, t.start as int);
            lemma_small_positions(cs, u.start as int);
        }
        assert forall|k: int| 0 <= k < ss.len() implies ({
            let s = #[trigger] ss[k];
            s.line < p.0 || (s.line == p.0 && s.col <= p.1)
        }) by {
            if k < rs.len() {
                assert(ss[k] == rs[k]);
            }
        }
        assert forall|i: int, j: int| 0 <= i < j < ss.len() implies starts_by(
            #[trigger] ss[i],
            #[trigger] ss[j],
        ) by {
            assert(ss[i] == rs[i]);
            if j < rs.len() {
                assert(ss[j] == rs[j]);
            }
        }
    }
}

/// The wire encoding of `tokens`, whose positions `line_index` knows. Tokens
/// that span several lines are left out; the others come in position order.
pub fn encode_tokens(tokens: &Vec<Token>, line_index: &LineIndex) -> (r: Vec<SemanticToken>)
    requires
        forall|i: int|
            0 <= i < tokens@.len() ==> (#[trigger] tokens@[i]).start + tokens@[i].len <= usize::MAX,
    ensures
        r@ == delta_encode(sorted_spans(spans_of(line_index.text(), tokens@))),
{
    let ghost cs = line_index.text();
    let mut spans: Vec<Span> = Vec::new();
    let mut keys: Vec<(u32, u32)> = Vec::new();
    let mut i: usize = 0;
    assert(tokens@.take(0) =~= Seq::empty());
    assert(ranks(keys@) =~= spans@.map_values(|s: Span| span_rank(s)));
    while i < tokens.len()
        invariant
            0 <= i <= tokens@.len(),
            cs == line_index.text(),
            forall|k: int|
                0 <= k < tokens@.len() ==> (#[trigger] tokens@[k]).start + tokens@[k].len
                    <= usize::MAX,
            spans@ == spans_of(cs, tokens@.take(i as int)),
            ranks(keys@) == spans@.map_values(|s: Span| span_rank(s)),
            keys@.len() == spans@.len(),
        decreases tokens@.len() - i,
    {
        let t: Token = tokens[i];
        let (line, col) = line_index.position(t.start);
        let (end_line, end_col) = line_index.position(t.start + t.len);
        proof {
            assert(tokens@.take(i + 1).drop_last() =~= tokens@.take(i as int));
            assert(tokens@.take(i + 1).last() == t);
        }
        if end_line == line {
            let s = Span { line, col, length: end_col.wrapping_sub(col), kind: t.kind };
            let ghost old_ranks = ranks(keys@);
            spans.push(s);
            keys.push((line, col));
            assert(ranks(keys@) =~= old_ranks.push((line, col).rank()));
            assert((line, col).rank() == span_rank(s));
            assert(ranks(keys@) =~= spans@.map_values(|s: Span| span_rank(s)));
        }
        i = i + 1;
    }
    assert(tokens@.take(tokens@.len() as int) =~= tokens@);
    let ord: Vec<usize> = stable_order(&keys);
    let ghost sorted = sorted_spans(spans@);
    proof {
        law_sorted_spans_are_in_order(spans@);
    }
    let mut result: Vec<SemanticToken> = Vec::new();
    let mut prev_line: u32 = 0;
    let mut prev_start: u32 = 0;
    let mut k: usize = 0;
    while k < ord.len()
        invariant
            0 <= k <= ord@.len(),
            ord@.len() == spans@.len(),
            ranks(keys@) == spans@.map_values(|s: Span| span_rank(s)),
            forall|i: int| 0 <= i < ord@.len() ==> (#[trigger] ord@[i]) < spans@.len(),
            ord@.map_values(|x: usize| x as int) == order_of(ranks(keys@), keys@.len()),
            keys@.len() == spans@.len(),
            sorted == sorted_spans(spans@),
            in_position_order(sorted),
            result@ == delta_encode(sorted).take(k as int),
            k == 0 ==> prev_line == 0 && prev_start == 0,
            k > 0 ==> prev_line == sorted[k - 1].line && prev_start == sorted[k - 1].col,
        decreases ord@.len() - k,
    {
        let s: Span = spans[ord[k]];
        proof {
            assert(ord@.map_values(|x: usize| x as int)[k as int] == ord@[k as int]);
            assert(sorted[k as int] == s);
            if k > 0 {
                assert(starts_by(sorted[k - 1], sorted[k as int]));
            }
        }
        let delta_line: u32 = s.line - prev_line;
        let delta_start: u32 = if delta_line == 0 {
            s.col - prev_start
        } else {
            s.col
        };
        result.push(
            SemanticToken {
                delta_line,
                delta_start,
                length: s.length,
                token_type: s.kind,
                token_modifiers_bitset: 0,
            },
        );
        prev_line = s.line;
        prev_start = s.col;
        k = k + 1;
        assert(result@ =~= delta_encode(sorted).take(k as int));
    }
    assert(delta_encode(sorted).take(k as int) =~= delta_encode(sorted));
    result
}

/// The highlighting of a whole text.
pub open spec fn highlight(cs: Seq<char>) -> Seq<SemanticToken> {
    delta_encode(sorted_spans(spans_of(cs, tokens_from(cs, 0))))
}

/// The highlighting of `text`, as sent to an editor.
pub fn semantic_tokens(text: &str) -> (r: Vec<SemanticToken>)
    ensures
        r@ == highlight(text@),
{
    let tokens: Vec<Token> = tokenize(text);
    let line_index = LineIndex::new(text);
    encode_tokens(&tokens, &line_index)
}

// ---- diagnostics ----

/// A parse error: the characters it speaks of and what it says.
#[derive(Debug, Clone)]
pub struct ParseError {
    pub start: usize,
    pub end: usize,
    pub message: String,
}

/// A parse error with its range in editor positions.
#[derive(Debug, Clone)]
pub struct Diagnostic {
    pub start_line: u32,
    pub start_col: u32,
    pub end_line: u32,
    pub end_col: u32,
    pub message: String,
}

/// `d` reports `e`: its range begins at the error's start and covers at least
/// one character.
pub open spec fn reports(cs: Seq<char>, e: ParseError, d: Diagnostic) -> bool {
    let a = position_of(cs, e.start as int);
    let b = position_of(
        cs,
        if e.end > e.start + 1 {
            e.end as int
        } else {
            e.start + 1
        },
    );
    &&& d.start_line == wire(a.0) && d.start_col == wire(a.1)
    &&& d.end_line == wire(b.0) && d.end_col == wire(b.1)
    &&& d.message@ == e.message@
}

/// One diagnostic per parse error of `text`, in the errors' order; none for a
/// text without errors.
pub fn diagnostics(text: &str, errors: &Vec<ParseError>) -> (r: Vec<Diagnostic>)
    requires
        forall|i: int| 0 <= i < errors@.len() ==> (#[trigger] errors@[i]).start < usize::MAX,
    ensures
        r@.len() == errors@.len(),
        forall|i: int| 0 <= i < r@.len() ==> reports(text@, errors@[i], #[trigger] r@[i]),
{
    let line_index = LineIndex::new(text);
    let mut out: Vec<Diagnostic> = Vec::new();
    let mut i: usize = 0;
    while i < errors.len()
        invariant
            0 <= i <= errors@.len(),
            out@.len() == i,
            line_index.text() == text@,
            forall|k: int| 0 <= k < errors@.len() ==> (#[trigger] errors@[k]).start < usize::MAX,
            forall|k: int| 0 <= k < i ==> reports(text@, errors@[k], #[trigger] out@[k]),
        decreases errors@.len() - i,
    {
        let start: usize = errors[i].start;
        let end: usize = errors[i].end;
        let last: usize = if end > start + 1 {
            end
        } else {
            start + 1
        };
        let (start_line, start_col) = line_index.position(start);
        let (end_line, end_col) = line_index.position(last);
        let message: String = errors[i].message.clone();
        out.push(Diagnostic { start_line, start_col, end_line, end_col, message });
        i = i + 1;
    }
    out
}

// ---- open documents ----

/// The text of every open document, by its URI.
pub struct Documents {
    texts: AssocMap<String>,
}

impl Documents {
    /// The open documents and their texts.
    pub closed spec fn view(&self) -> Map<Seq<char>, Seq<char>> {
        self.texts.view().map_values(|t: String| t@)
    }

    /// No document is open.
    pub fn new() -> (r: Self)
        ensures
            r.view() == Map::<Seq<char>, Seq<char>>::empty(),
    {
        let r = Documents { texts: AssocMap::new() };
        assert(r.view() =~= Map::<Seq<char>, Seq<char>>::empty());
        r
    }

    /// Records `text` as the text of `uri`.
    pub fn did_open(&mut self, uri: &str, text: &str)
        ensures
            final(self).view() == old(self).view().insert(uri@, text@),
    {
        let owned: String = text.to_owned();
        let ghost m = self.texts.view();
        self.texts.insert(uri, owned);
        assert(self.view() =~= m.map_values(|t: String| t@).insert(uri@, text@));
    }

    /// Records the last of `changes`, each a whole document text, as the text
    /// of `uri`; without one nothing changes. Tells whether there was one.
    pub fn did_change(&mut self, uri: &str, changes: &Vec<String>) -> (r: bool)
        ensures
            r == (changes@.len() > 0),
            final(self).view() == if changes@.len() > 0 {
                old(self).view().insert(uri@, changes@.last()@)
            } else {
                old(self).view()
            },
    {
        if changes.len() == 0 {
            return false;
        }
        self.did_open(uri, changes[changes.len() - 1].as_str());
        true
    }

    /// Forgets `uri`.
    pub fn did_close(&mut self, uri: &str)
        ensures
            final(self).view() == old(self).view().remove(uri@),
    {
        let ghost m = self.texts.view();
        self.texts.remove(uri);
        assert(self.view() =~= m.map_values(|t: String| t@).remove(uri@));
    }

    /// The highlighting of an open document; `None` for one that is not open.
    pub fn semantic_tokens_full(&self, uri: &str) -> (r: Option<Vec<SemanticToken>>)
        ensures
            r is Some <==> self.view().dom().contains(uri@),
            r matches Some(tokens) ==> tokens@ == highlight(self.view()[uri@]),
    {
        match self.texts.get(uri) {
            Some(text) => Some(semantic_tokens(text.as_str())),
            None => None,
        }
    }
}

} // verus!
