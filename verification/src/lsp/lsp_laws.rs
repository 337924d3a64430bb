//! What tokens look like, and what positions are.

use vstd::prelude::*;
use vstd::string::*;
use crate::lsp::line_index::position_of;
use crate::lsp::tokenizer::{
    ident_end, lemma_lexeme_bounds, lemma_run_end_bounds, lexeme, number_end, run_end,
    tokens_from, Run,
};
use crate::text::{is_digit, is_letter, is_upper, lemma_line_start_prefix, line_start_of};

verus! {

// ---- tokens ----

/// No character from `a` up to `b` is `c`.
pub open spec fn free_of(cs: Seq<char>, a: int, b: int, c: char) -> bool {
    forall|i: int| a <= i < b ==> #[trigger] cs[i] != c
}

/// From `a` on the text runs to the end of its line, `b`.
pub open spec fn runs_to_line_end(cs: Seq<char>, a: int, b: int) -> bool {
    free_of(cs, a, b, '\n') && (b == cs.len() || cs[b] == '\n')
}

/// A string from `a` up to `b`: it ends behind the next quote like the one it starts with, or
/// with the text.
pub open spec fn is_string(cs: Seq<char>, a: int, b: int) -> bool {
    let q = cs[a];
    &&& q == '`' || q == '"'
    &&& (b >= a + 2 && cs[b - 1] == q && free_of(cs, a + 1, b - 1, q)) || (b == cs.len()
        && free_of(cs, a + 1, b, q))
}

/// The characters of a number.
pub open spec fn is_number(cs: Seq<char>, a: int, b: int) -> bool {
    &&& is_digit(cs[a])
    &&& is_digit(cs[b - 1])
    &&& forall|i: int| a <= i < b ==> is_digit(#[trigger] cs[i]) || cs[i] == '.'
    &&& b < cs.len() ==> !is_digit(cs[b])
}

/// A letter or an underscore.
pub open spec fn starts_a_name(c: char) -> bool {
    is_letter(c) || c == '_'
}

/// The words that are reserved.
pub open spec fn is_reserved(s: Seq<char>) -> bool {
    ||| s == "if"@
    ||| s == "else"@
    ||| s == "for"@
    ||| s == "in"@
    ||| s == "true"@
    ||| s == "false"@
    ||| s == "layout"@
}

/// A token is what its kind says: a comment or an import to the end of its line, a string, a
/// number, or a name. A name is a keyword if it is reserved, else a type if it starts with a
/// capital, else a variable or a property.
pub open spec fn looks_right(cs: Seq<char>, a: int, b: int, kind: u32) -> bool {
    if kind == 0 {
        a + 1 < cs.len() && cs[a] == '/' && cs[a + 1] == '/' && runs_to_line_end(cs, a, b)
    } else if kind == 7 {
        cs[a] == '#' && runs_to_line_end(cs, a, b)
    } else if kind == 2 {
        is_string(cs, a, b)
    } else if kind == 3 {
        is_number(cs, a, b)
    } else {
        let s = cs.subrange(a, b);
        &&& starts_a_name(cs[a])
        &&& kind == 1 <==> is_reserved(s)
        &&& kind == 4 <==> !is_reserved(s) && is_upper(cs[a])
        &&& kind == 5 || kind == 6 <==> !is_reserved(s) && !is_upper(cs[a])
    }
}

proof fn lemma_lexeme_looks_right(cs: Seq<char>, i: int)
    requires
        0 <= i < cs.len(),
    ensures
        lexeme(cs, i) matches Some((end, kind)) ==> looks_right(cs, i, end, kind),
{
    let c = cs[i];
    lemma_run_end_bounds(cs, i, Run::Until('\n'));
    if c == '`' || c == '"' {
        lemma_run_end_bounds(cs, i + 1, Run::Until(c));
    }
    lemma_run_end_bounds(cs, i, Run::Digits);
    let e = run_end(cs, i, Run::Digits);
    if e + 1 < cs.len() {
        lemma_run_end_bounds(cs, e + 1, Run::Digits);
    }
    if is_digit(c) && !(c == '/' && i + 1 < cs.len() && cs[i + 1] == '/') {
        let b = number_end(cs, i);
        assert(e > i);
        assert(is_digit(cs[e - 1]));
        if e + 1 < cs.len() && cs[e] == '.' && is_digit(cs[e + 1]) {
            assert(b > e + 1);
            assert(is_digit(cs[b - 1]));
        }
    }
    if starts_a_name(c) {
        lemma_lexeme_bounds(cs, i);
        let s = cs.subrange(i, ident_end(cs, i));
        assert(s[0] == c);
    }
}

/// Every token looks as its kind says.
pub proof fn law_tokens_look_right(cs: Seq<char>, i: int, k: int)
    requires
        0 <= i,
        cs.len() <= usize::MAX,
        0 <= k < tokens_from(cs, i).len(),
    ensures
        ({
            let t = tokens_from(cs, i)[k];
            looks_right(cs, t.start as int, t.start + t.len, t.kind)
        }),
    decreases cs.len() - i,
{
    if i < cs.len() {
        lemma_lexeme_bounds(cs, i);
        lemma_lexeme_looks_right(cs, i);
        match lexeme(cs, i) {
            Some((end, kind)) => {
                if k > 0 {
                    law_tokens_look_right(cs, end, k - 1);
                }
            },
            None => {
                law_tokens_look_right(cs, i + 1, k);
            },
        }
    }
}

/// Where tokens start: at a quote, a `#`, a digit, a letter or an underscore, and at two
/// slashes; nowhere else.
pub proof fn law_what_starts_a_token(cs: Seq<char>, i: int)
    requires
        0 <= i < cs.len(),
    ensures
        lexeme(cs, i) is Some <==> {
            let c = cs[i];
            ||| c == '`' || c == '"' || c == '#' || is_digit(c) || starts_a_name(c)
            ||| c == '/' && i + 1 < cs.len() && cs[i + 1] == '/'
        },
{
}

// ---- positions ----

/// A position is on the line after as many line breaks as stand before it. Each character
/// takes as many columns as UTF-16 has code units for it, and a line break starts the next
/// line.
pub proof fn law_positions_advance(cs: Seq<char>, i: int)
    requires
        0 <= i < cs.len(),
    ensures
        position_of(cs, 0) == (0nat, 0nat),
        ({
            let (line, col) = position_of(cs, i);
            let c = cs[i];
            position_of(cs, i + 1) == if c == '\n' {
                (line + 1, 0nat)
            } else if (c as u32) < 0x10000 {
                (line, col + 1)
            } else {
                (line, col + 2)
            }
        }),
{
    let s = line_start_of(cs, i);
    assert(cs.take(0) =~= Seq::<char>::empty());
    assert(cs.take(i + 1).drop_last() =~= cs.take(i));
    assert(cs.take(i + 1).last() == cs[i]);
    lemma_line_start_prefix(cs, cs.len() as int, i);
    lemma_line_start_prefix(cs, cs.len() as int, i + 1);
    assert(cs.subrange(line_start_of(cs, 0), 0) =~= Seq::<char>::empty());
    if cs[i] != '\n' {
        assert(line_start_of(cs, i + 1) == s);
        assert(cs.subrange(s, i + 1).drop_last() =~= cs.subrange(s, i));
        assert(cs.subrange(s, i + 1).last() == cs[i]);
    } else {
        assert(cs.subrange(i + 1, i + 1) =~= Seq::<char>::empty());
    }
}

} // verus!
