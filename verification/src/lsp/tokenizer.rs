//! A standalone lexer for `.nowui` syntax highlighting.
//!
//! A single best-effort pass over the raw text, good enough for coloring and
//! no second source of truth for the grammar. Known simplifications:
//!   * `${...}` interpolation inside a backtick string is not highlighted
//!     specially: the whole backtick span is one string token.
//!   * No punctuation or operator tokens.
//!   * The `variant:key` compound style token (`hover:bg-blue-600`) is told
//!     apart from a `{key: value}` binding's colon by what follows the colon:
//!     a letter or `_` extends the token, anything else ends it.
//!
//! The model is [`tokens_from`]: the lexeme that starts at a position is a
//! function of the text from there on, and the token list is what is met when
//! the text is walked from lexeme to lexeme.

use vstd::prelude::*;
use crate::text::{
    ascii_digit, ascii_letter, ascii_upper, chars_of, is_digit, is_letter, is_upper, str_eq,
    string_of_range,
};

verus! {

pub const COMMENT: u32 = 0;

pub const KEYWORD: u32 = 1;

pub const STRING: u32 = 2;

pub const NUMBER: u32 = 3;

/// A widget kind or a layout name.
pub const TYPE: u32 = 4;

/// A dotted state or loop-variable path.
pub const VARIABLE: u32 = 5;

/// A style key, binding key, argument name or bare loop variable.
pub const PROPERTY: u32 = 6;

/// A `#` import path.
pub const NAMESPACE: u32 = 7;

/// One highlighted span, in characters (not bytes).
#[derive(Debug, Clone, Copy, PartialEq, Eq, Structural)]
pub struct Token {
    /// Char-index (not byte-index) the token starts at.
    pub start: usize,
    pub len: usize,
    pub kind: u32,
}

/// The editor-protocol name of each token kind, in legend order.
pub open spec fn token_type_names() -> Seq<Seq<char>> {
    seq![
        "comment"@,
        "keyword"@,
        "string"@,
        "number"@,
        "type"@,
        "variable"@,
        "property"@,
        "namespace"@,
    ]
}

/// The legend a server advertises: the index into this list is a token's `kind`.
pub fn token_types() -> (r: Vec<&'static str>)
    ensures
        r@.len() == token_type_names().len(),
        forall|i: int| 0 <= i < r@.len() ==> (#[trigger] r@[i])@ == token_type_names()[i],
{
    vec!["comment", "keyword", "string", "number", "type", "variable", "property", "namespace"]
}

// ---- the lexical model ----

/// Starts an identifier, or a segment of one.
pub open spec fn ident_start(c: char) -> bool {
    is_letter(c) || c == '_'
}

/// May stand inside an identifier: compact scale classes such as `w-1/2` and
/// `py-3.5` are one identifier.
pub open spec fn ident_continue(c: char) -> bool {
    is_letter(c) || is_digit(c) || c == '-' || c == '_' || c == '.' || c == '/'
}

/// The sets of characters that a lexeme runs over.
#[derive(Clone, Copy)]
pub enum Run {
    /// Anything but one character.
    Until(char),
    /// Decimal digits.
    Digits,
    /// Identifier characters.
    Ident,
}

/// Whether `c` belongs to the run `p`.
pub open spec fn in_run(p: Run, c: char) -> bool {
    match p {
        Run::Until(stop) => c != stop,
        Run::Digits => is_digit(c),
        Run::Ident => ident_continue(c),
    }
}

/// The first position at or after `i` whose character is outside the run `p`
/// (the end of the text if there is none).
pub open spec fn run_end(cs: Seq<char>, i: int, p: Run) -> int
    decreases cs.len() - i,
{
    if i < cs.len() && in_run(p, cs[i]) {
        run_end(cs, i + 1, p)
    } else {
        i
    }
}

/// A comment or an import runs to the end of its line.
pub open spec fn line_end(cs: Seq<char>, i: int) -> int {
    run_end(cs, i, Run::Until('\n'))
}

/// A string runs past its closing `quote`, or to the end of the text.
pub open spec fn quoted_end(cs: Seq<char>, i: int, quote: char) -> int {
    let e = run_end(cs, i + 1, Run::Until(quote));
    if e < cs.len() {
        e + 1
    } else {
        e
    }
}

/// Digits, then possibly a point with more digits.
pub open spec fn number_end(cs: Seq<char>, i: int) -> int {
    let e = run_end(cs, i, Run::Digits);
    if e + 1 < cs.len() && cs[e] == '.' && is_digit(cs[e + 1]) {
        run_end(cs, e + 1, Run::Digits)
    } else {
        e
    }
}

/// Whether the `:` of a `variant:key` compound stands at `i`.
pub open spec fn variant_colon(cs: Seq<char>, i: int) -> bool {
    i + 1 < cs.len() && cs[i] == ':' && ident_start(cs[i + 1])
}

/// The end of the `:key` parts that follow an identifier ending at `i`.
pub open spec fn variants_end(cs: Seq<char>, i: int) -> int
    decreases cs.len() - i,
    via variants_end_decreases
{
    if variant_colon(cs, i) {
        variants_end(cs, run_end(cs, i + 1, Run::Ident))
    } else {
        i
    }
}

#[via_fn]
proof fn variants_end_decreases(cs: Seq<char>, i: int) {
    if variant_colon(cs, i) {
        lemma_run_end_bounds(cs, i + 1, Run::Ident);
    }
}

/// An identifier with its `:key` parts.
pub open spec fn ident_end(cs: Seq<char>, i: int) -> int {
    variants_end(cs, run_end(cs, i + 1, Run::Ident))
}

/// The reserved words.
pub open spec fn is_keyword(s: Seq<char>) -> bool {
    s == "if"@ || s == "else"@ || s == "for"@ || s == "in"@ || s == "true"@ || s == "false"@ || s
        == "layout"@
}

/// A letter or `_` right after some `.`: a dotted path, as opposed to the
/// decimal point of a compact class such as `py-3.5`.
pub open spec fn is_path(s: Seq<char>) -> bool {
    exists|k: int| 0 <= k && k + 1 < s.len() && #[trigger] s[k] == '.' && ident_start(s[k + 1])
}

/// The kind of an identifier, by its text alone.
pub open spec fn ident_kind(s: Seq<char>) -> u32 {
    if is_keyword(s) {
        KEYWORD
    } else if s.len() > 0 && is_upper(s[0]) {
        TYPE
    } else if is_path(s) {
        VARIABLE
    } else {
        PROPERTY
    }
}

/// The lexeme that starts at `i`: where it ends, and its kind; `None` where the
/// character at `i` starts none (white space, punctuation, operators).
pub open spec fn lexeme(cs: Seq<char>, i: int) -> Option<(int, u32)> {
    let c = cs[i];
    if c == '/' && i + 1 < cs.len() && cs[i + 1] == '/' {
        Some((line_end(cs, i), COMMENT))
    } else if c == '`' || c == '"' {
        Some((quoted_end(cs, i, c), STRING))
    } else if c == '#' {
        Some((line_end(cs, i), NAMESPACE))
    } else if is_digit(c) {
        Some((number_end(cs, i), NUMBER))
    } else if ident_start(c) {
        Some((ident_end(cs, i), ident_kind(cs.subrange(i, ident_end(cs, i)))))
    } else {
        None
    }
}

/// The tokens of the text from position `i` on.
pub open spec fn tokens_from(cs: Seq<char>, i: int) -> Seq<Token>
    decreases cs.len() - i,
    via tokens_from_decreases
{
    if 0 <= i < cs.len() {
        match lexeme(cs, i) {
            Some((end, kind)) => seq![
                Token { start: i as usize, len: (end - i) as usize, kind },
            ] + tokens_from(cs, end),
            None => tokens_from(cs, i + 1),
        }
    } else {
        Seq::empty()
    }
}

#[via_fn]
proof fn tokens_from_decreases(cs: Seq<char>, i: int) {
    if 0 <= i < cs.len() {
        lemma_lexeme_bounds(cs, i);
    }
}

// ---- lemmas ----

pub proof fn lemma_run_end_bounds(cs: Seq<char>, i: int, p: Run)
    requires
        i <= cs.len(),
    ensures
        i <= run_end(cs, i, p) <= cs.len(),
        forall|k: int| i <= k < run_end(cs, i, p) ==> in_run(p, #[trigger] cs[k]),
        run_end(cs, i, p) < cs.len() ==> !in_run(p, cs[run_end(cs, i, p)]),
    decreases cs.len() - i,
{
    if i < cs.len() && in_run(p, cs[i]) {
        lemma_run_end_bounds(cs, i + 1, p);
    }
}

/// `variants_end` stays in range and steps over no line break.
proof fn lemma_variants_end_bounds(cs: Seq<char>, i: int)
    requires
        0 <= i <= cs.len(),
    ensures
        i <= variants_end(cs, i) <= cs.len(),
        forall|k: int| i <= k < variants_end(cs, i) ==> #[trigger] cs[k] != '\n',
    decreases cs.len() - i,
{
    if variant_colon(cs, i) {
        let p = Run::Ident;
        lemma_run_end_bounds(cs, i + 1, p);
        let e = run_end(cs, i + 1, p);
        assert(forall|k: int| i + 1 <= k < e ==> in_run(p, #[trigger] cs[k]));
        lemma_variants_end_bounds(cs, e);
    }
}

/// A lexeme is never empty, stays inside the text, and only a string steps
/// over a line break.
pub proof fn lemma_lexeme_bounds(cs: Seq<char>, i: int)
    requires
        0 <= i < cs.len(),
    ensures
        lexeme(cs, i) matches Some((end, kind)) ==> {
            &&& i < end <= cs.len()
            &&& kind <= NAMESPACE
            &&& kind != STRING ==> forall|k: int| i <= k < end ==> #[trigger] cs[k] != '\n'
        },
{
    let nl = Run::Until('\n');
    let dg = Run::Digits;
    let id = Run::Ident;
    let c = cs[i];
    lemma_run_end_bounds(cs, i, nl);
    lemma_run_end_bounds(cs, i + 1, nl);
    lemma_run_end_bounds(cs, i + 1, Run::Until(c));
    lemma_run_end_bounds(cs, i, dg);
    lemma_run_end_bounds(cs, i + 1, dg);
    let e = run_end(cs, i, dg);
    assert(forall|k: int| i <= k < e ==> in_run(dg, #[trigger] cs[k]));
    if e + 1 < cs.len() {
        lemma_run_end_bounds(cs, e + 1, dg);
        assert(forall|k: int| e + 1 <= k < run_end(cs, e + 1, dg) ==> in_run(dg, #[trigger] cs[k]));
    }
    lemma_run_end_bounds(cs, i + 1, id);
    let f = run_end(cs, i + 1, id);
    assert(forall|k: int| i + 1 <= k < f ==> in_run(id, #[trigger] cs[k]));
    lemma_variants_end_bounds(cs, f);
}

// ---- executable scanners ----

/// Whether `c` may stand inside a style or binding identifier.
pub fn is_ident_continue(c: char) -> (r: bool)
    ensures
        r == ident_continue(c),
{
    ascii_letter(c) || ascii_digit(c) || c == '-' || c == '_' || c == '.' || c == '/'
}

fn runs_over(p: Run, c: char) -> (r: bool)
    ensures
        r == in_run(p, c),
{
    match p {
        Run::Until(stop) => c != stop,
        Run::Digits => ascii_digit(c),
        Run::Ident => is_ident_continue(c),
    }
}

fn scan(cs: &Vec<char>, i: usize, p: Run) -> (r: usize)
    requires
        i <= cs@.len(),
    ensures
        r == run_end(cs@, i as int, p),
        i <= r <= cs@.len(),
{
    let mut j: usize = i;
    while j < cs.len() && runs_over(p, cs[j])
        invariant
            i <= j <= cs@.len(),
            run_end(cs@, j as int, p) == run_end(cs@, i as int, p),
        decreases cs@.len() - j,
    {
        j = j + 1;
    }
    j
}

fn scan_variants(cs: &Vec<char>, i: usize) -> (r: usize)
    requires
        i <= cs@.len(),
    ensures
        r == variants_end(cs@, i as int),
        i <= r <= cs@.len(),
{
    let mut j: usize = i;
    while j < cs.len() && j + 1 < cs.len() && cs[j] == ':' && (ascii_letter(cs[j + 1]) || cs[j + 1]
        == '_')
        invariant
            i <= j <= cs@.len(),
            variants_end(cs@, j as int) == variants_end(cs@, i as int),
        decreases cs@.len() - j,
    {
        assert(variant_colon(cs@, j as int));
        j = scan(cs, j + 1, Run::Ident);
    }
    j
}

/// The kind of the identifier `text`.
pub fn classify_ident(text: &str) -> (r: u32)
    ensures
        r == ident_kind(text@),
{
    if str_eq(text, "if") || str_eq(text, "else") || str_eq(text, "for") || str_eq(text, "in")
        || str_eq(text, "true") || str_eq(text, "false") || str_eq(text, "layout") {
        return KEYWORD;
    }
    let cs: Vec<char> = chars_of(text);
    if cs.len() > 0 && ascii_upper(cs[0]) {
        return TYPE;
    }
    let mut k: usize = 0;
    while k < cs.len()
        invariant
            0 <= k <= cs@.len(),
            cs@ == text@,
            !is_keyword(text@),
            !(text@.len() > 0 && is_upper(text@[0])),
            forall|m: int|
                0 <= m < k && m + 1 < text@.len() && #[trigger] text@[m] == '.' ==> !ident_start(
                    text@[m + 1],
                ),
        decreases cs@.len() - k,
    {
        if cs[k] == '.' && k + 1 < cs.len() && (ascii_letter(cs[k + 1]) || cs[k + 1] == '_') {
            assert(text@[k as int] == '.' && ident_start(text@[k + 1]));
            return VARIABLE;
        }
        k = k + 1;
    }
    PROPERTY
}

/// The tokens of `source`, in source order.
pub fn tokenize(source: &str) -> (r: Vec<Token>)
    ensures
        r@ == tokens_from(source@, 0),
        forall|k: int|
            0 <= k < r@.len() ==> (#[trigger] r@[k]).start + r@[k].len <= source@.len()
                <= usize::MAX,
{
    let chars: Vec<char> = chars_of(source);
    let mut tokens: Vec<Token> = Vec::new();
    let mut i: usize = 0;
    while i < chars.len()
        invariant
            0 <= i <= chars@.len(),
            chars@ == source@,
            tokens@ + tokens_from(chars@, i as int) == tokens_from(chars@, 0),
        decreases chars@.len() - i,
    {
        let c: char = chars[i];
        let start: usize = i;
        let ghost before = tokens@;
        proof {
            lemma_lexeme_bounds(chars@, i as int);
        }
        if c == '/' && i + 1 < chars.len() && chars[i + 1] == '/' {
            i = scan(&chars, i, Run::Until('\n'));
            tokens.push(Token { start, len: i - start, kind: COMMENT });
        } else if c == '`' || c == '"' {
            i = scan(&chars, i + 1, Run::Until(c));
            if i < chars.len() {
                i = i + 1;
            }
            tokens.push(Token { start, len: i - start, kind: STRING });
        } else if c == '#' {
            i = scan(&chars, i, Run::Until('\n'));
            tokens.push(Token { start, len: i - start, kind: NAMESPACE });
        } else if ascii_digit(c) {
            i = scan(&chars, i, Run::Digits);
            if i < chars.len() && chars[i] == '.' && i + 1 < chars.len() && ascii_digit(
                chars[i + 1],
            ) {
                i = scan(&chars, i + 1, Run::Digits);
            }
            tokens.push(Token { start, len: i - start, kind: NUMBER });
        } else if ascii_letter(c) || c == '_' {
            i = scan(&chars, i + 1, Run::Ident);
            i = scan_variants(&chars, i);
            let text: String = string_of_range(&chars, start, i);
            let kind: u32 = classify_ident(text.as_str());
            tokens.push(Token { start, len: i - start, kind });
        } else {
            i = i + 1;
        }
        proof {
            match lexeme(chars@, start as int) {
                Some((end, kind)) => {
                    assert(end == i);
                    let t = Token { start, len: (i - start) as usize, kind };
                    assert(tokens@ == before.push(t));
                    assert(tokens@ + tokens_from(chars@, i as int) =~= before + (seq![t]
                        + tokens_from(chars@, i as int)));
                },
                None => {},
            }
        }
    }
    proof {
        assert(tokens@ + Seq::<Token>::empty() =~= tokens@);
        law_tokens_are_ordered(chars@, 0);
    }
    tokens
}

// ---- laws ----

/// Every token is non-empty, of one of the legend's kinds, and inside the
/// text; tokens come in source order and do not overlap.
pub proof fn law_tokens_are_ordered(cs: Seq<char>, i: int)
    requires
        0 <= i,
        cs.len() <= usize::MAX,
    ensures
        forall|k: int|
            0 <= k < tokens_from(cs, i).len() ==> {
                let t = #[trigger] tokens_from(cs, i)[k];
                &&& i <= t.start
                &&& 0 < t.len
                &&& t.start + t.len <= cs.len()
                &&& t.kind < token_type_names().len()
            },
        forall|k: int, m: int|
            0 <= k < m < tokens_from(cs, i).len() ==> (#[trigger] tokens_from(cs, i)[k]).start
                + tokens_from(cs, i)[k].len <= (#[trigger] tokens_from(cs, i)[m]).start,
    decreases cs.len() - i,
{
    if i < cs.len() {
        lemma_lexeme_bounds(cs, i);
        match lexeme(cs, i) {
            Some((end, kind)) => {
                law_tokens_are_ordered(cs, end);
                let rest = tokens_from(cs, end);
                let t = Token { start: i as usize, len: (end - i) as usize, kind };
                assert(tokens_from(cs, i) =~= seq![t] + rest);
                assert forall|k: int| 0 <= k < tokens_from(cs, i).len() implies ({
                    let t = #[trigger] tokens_from(cs, i)[k];
                    &&& i <= t.start
                    &&& 0 < t.len
                    &&& t.start + t.len <= cs.len()
                    &&& t.kind < token_type_names().len()
                }) by {
                    if k > 0 {
                        assert(tokens_from(cs, i)[k] == rest[k - 1]);
                    }
                }
                assert forall|k: int, m: int|
                    0 <= k < m < tokens_from(cs, i).len() implies (#[trigger] tokens_from(
                    cs,
                    i,
                )[k]).start + tokens_from(cs, i)[k].len <= (#[trigger] tokens_from(
                    cs,
                    i,
                )[m]).start by {
                    assert(tokens_from(cs, i)[m] == rest[m - 1]);
                    if k > 0 {
                        assert(tokens_from(cs, i)[k] == rest[k - 1]);
                    }
                }
            },
            None => {
                law_tokens_are_ordered(cs, i + 1);
                assert(tokens_from(cs, i) == tokens_from(cs, i + 1));
            },
        }
    } else {
        assert(tokens_from(cs, i).len() == 0);
    }
}

/// Only string tokens contain a line break: comments, imports, numbers and
/// identifiers all end on the line they start on.
pub proof fn law_only_strings_cross_lines(cs: Seq<char>, i: int)
    requires
        0 <= i,
        cs.len() <= usize::MAX,
    ensures
        forall|k: int, p: int|
            0 <= k < tokens_from(cs, i).len() && (#[trigger] tokens_from(cs, i)[k]).start <= p
                < tokens_from(cs, i)[k].start + tokens_from(cs, i)[k].len && #[trigger] cs[p]
                == '\n' ==> tokens_from(cs, i)[k].kind == STRING,
    decreases cs.len() - i,
{
    if i < cs.len() {
        lemma_lexeme_bounds(cs, i);
        match lexeme(cs, i) {
            Some((end, kind)) => {
                law_only_strings_cross_lines(cs, end);
                let rest = tokens_from(cs, end);
                let t = Token { start: i as usize, len: (end - i) as usize, kind };
                assert(tokens_from(cs, i) =~= seq![t] + rest);
                assert forall|k: int, p: int|
                    0 <= k < tokens_from(cs, i).len() && (#[trigger] tokens_from(cs, i)[k]).start
                        <= p < tokens_from(cs, i)[k].start + tokens_from(cs, i)[k].len
                        && #[trigger] cs[p] == '\n' implies tokens_from(cs, i)[k].kind
                    == STRING by {
                    if k > 0 {
                        assert(tokens_from(cs, i)[k] == rest[k - 1]);
                    }
                }
            },
            None => {
                law_only_strings_cross_lines(cs, i + 1);
                assert(tokens_from(cs, i) == tokens_from(cs, i + 1));
            },
        }
    } else {
        assert(tokens_from(cs, i).len() == 0);
    }
}

/// A position that lies in no token starts no lexeme: nothing that could be
/// highlighted is passed over.
pub proof fn law_gaps_hold_no_lexeme(cs: Seq<char>, i: int, p: int)
    requires
        0 <= i <= p < cs.len() <= usize::MAX,
        forall|k: int|
            0 <= k < tokens_from(cs, i).len() ==> !((#[trigger] tokens_from(cs, i)[k]).start <= p
                < tokens_from(cs, i)[k].start + tokens_from(cs, i)[k].len),
    ensures
        lexeme(cs, p) is None,
    decreases cs.len() - i,
{
    lemma_lexeme_bounds(cs, i);
    match lexeme(cs, i) {
        Some((end, kind)) => {
            let rest = tokens_from(cs, end);
            let t = Token { start: i as usize, len: (end - i) as usize, kind };
            assert(tokens_from(cs, i) =~= seq![t] + rest);
            assert(tokens_from(cs, i)[0] == t);
            assert(p >= end);
            assert forall|k: int| 0 <= k < rest.len() implies !((#[trigger] rest[k]).start <= p
                < rest[k].start + rest[k].len) by {
                assert(tokens_from(cs, i)[k + 1] == rest[k]);
            }
            law_gaps_hold_no_lexeme(cs, end, p);
        },
        None => {
            if i < p {
                law_gaps_hold_no_lexeme(cs, i + 1, p);
            }
        },
    }
}

} // verus!
