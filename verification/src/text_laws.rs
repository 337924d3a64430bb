//! What reading and cutting texts up comes to.
use vstd::prelude::*;

use crate::text::{
    all_digits, decimal, digit_char, digits_value, first_match, int_text, is_digit, is_whitespace,
    lemma_decimal, lemma_next_sep, lemma_next_space, lemma_pieces_cons, lemma_pieces_one,
    line_start_of, matches_at, newlines, next_sep, next_space, pad_zeros, parse_int, parse_nat,
    pieces, text_lines_from, trimmed_suffix, word_list, words_from,
};

verus! {

// ---- numbers ----

/// Digits count by tens: one more digit at the end makes the value ten times as
/// large, and adds its own.
pub proof fn law_digits_count_by_tens(cs: Seq<char>, c: char)
    requires
        is_digit(c),
    ensures
        digits_value(Seq::<char>::empty()) == 0,
        digits_value(cs.push(c)) == 10 * digits_value(cs) + (c as int - '0' as int),
{
    assert(cs.push(c).drop_last() =~= cs);
}

/// A number is written with decimal digits, the first of them no zero unless it is
/// the only one, and reads back as itself, with the sign that it has.
pub proof fn law_number_reads_back(n: int)
    requires
        i32::MIN <= n <= i32::MAX,
    ensures
        parse_int(int_text(n)) == Some(n),
        n >= 0 ==> all_digits(int_text(n)),
        n < 0 <==> int_text(n)[0] == '-',
        n > 0 ==> int_text(n)[0] != '0',
{
    if n < 0 {
        let t = decimal((-n) as nat);
        lemma_decimal((-n) as nat);
        assert(int_text(n).skip(1) =~= t);
    } else {
        let t = decimal(n as nat);
        lemma_decimal(n as nat);
        assert(is_digit(t[0]));
        if n > 0 {
            lemma_first_digit(n as nat);
        }
    }
}

proof fn lemma_first_digit(n: nat)
    requires
        n > 0,
    ensures
        decimal(n)[0] != '0',
    decreases n,
{
    lemma_decimal(n);
    if n >= 10 {
        lemma_first_digit(n / 10);
        lemma_decimal(n / 10);
        assert(decimal(n)[0] == decimal(n / 10)[0]);
    } else {
        assert(digit_char(n as int) as int == 48 + n);
    }
}

/// A sign in front of digits is the sign of the number, a number too large is none,
/// and neither is a text with anything but digits behind its sign.
pub proof fn law_signed_numbers(cs: Seq<char>, max: nat)
    ensures
        cs.len() > 0 && all_digits(cs) ==> {
            let n = digits_value(cs) as int;
            &&& parse_int(cs) == if n < 0x8000_0000 {
                Some(n)
            } else {
                None::<int>
            }
            &&& parse_int(seq!['+'] + cs) == parse_int(cs)
            &&& parse_int(seq!['-'] + cs) == if n <= 0x8000_0000 {
                Some(-n)
            } else {
                None::<int>
            }
            &&& parse_nat(cs, max) == if n <= max {
                Some(n as nat)
            } else {
                None::<nat>
            }
            &&& parse_nat(seq!['+'] + cs, max) == parse_nat(cs, max)
        },
        forall|k: int|
            0 <= k < cs.len() && !is_digit(#[trigger] cs[k]) && !(k == 0 && (cs[k] == '+' || cs[k]
                == '-')) ==> parse_int(cs) is None,
        forall|k: int|
            0 <= k < cs.len() && !is_digit(#[trigger] cs[k]) && !(k == 0 && cs[k] == '+')
                ==> parse_nat(cs, max) is None,
        cs.len() == 0 ==> parse_int(cs) is None && parse_nat(cs, max) is None,
{
    assert((seq!['+'] + cs).skip(1) =~= cs);
    assert((seq!['-'] + cs).skip(1) =~= cs);
    if cs.len() > 0 {
        assert(all_digits(cs) ==> is_digit(cs[0]));
    }
    assert forall|k: int|
        0 <= k < cs.len() && !is_digit(#[trigger] cs[k]) && !(k == 0 && (cs[k] == '+' || cs[k]
            == '-')) implies parse_int(cs) is None by {
        if k > 0 {
            assert(cs.skip(1)[k - 1] == cs[k]);
        }
    }
    assert forall|k: int|
        0 <= k < cs.len() && !is_digit(#[trigger] cs[k]) && !(k == 0 && cs[k]
            == '+') implies parse_nat(cs, max) is None by {
        if k > 0 {
            assert(cs.skip(1)[k - 1] == cs[k]);
        }
    }
}

/// A padded text is as wide as asked for, ends as it did, and has zeros in front.
pub proof fn law_padding_goes_in_front(cs: Seq<char>, width: nat)
    ensures
        ({
            let t = pad_zeros(cs, width);
            let more = t.len() - cs.len();
            &&& t.len() == if cs.len() < width {
                width
            } else {
                cs.len()
            }
            &&& t.skip(more) == cs
            &&& forall|k: int| 0 <= k < more ==> #[trigger] t[k] == '0'
        }),
    decreases width,
{
    let t = pad_zeros(cs, width);
    if cs.len() < width {
        let r = pad_zeros(cs, (width - 1) as nat);
        law_padding_goes_in_front(cs, (width - 1) as nat);
        let more = t.len() - cs.len();
        assert(t.skip(more) =~= r.skip(more - 1));
        assert forall|k: int| 0 <= k < more implies #[trigger] t[k] == '0' by {
            if k > 0 {
                assert(t[k] == r[k - 1]);
            }
        }
    } else {
        assert(t.skip(0) =~= cs);
    }
}

// ---- searching ----

/// Whether the characters of `pat` stand in `cs` one after the other from `i` on.
pub open spec fn stands_from(cs: Seq<char>, i: int, pat: Seq<char>) -> bool {
    &&& 0 <= i && i + pat.len() <= cs.len()
    &&& forall|k: int| 0 <= k < pat.len() ==> cs[i + k] == #[trigger] pat[k]
}

proof fn lemma_stands(cs: Seq<char>, i: int, pat: Seq<char>)
    ensures
        matches_at(cs, i, pat) == stands_from(cs, i, pat),
{
    if 0 <= i && i + pat.len() <= cs.len() {
        let s = cs.subrange(i, i + pat.len());
        if stands_from(cs, i, pat) {
            assert(s =~= pat);
        }
        if matches_at(cs, i, pat) {
            assert forall|k: int| 0 <= k < pat.len() implies cs[i + k] == #[trigger] pat[k] by {
                assert(s[k] == cs[i + k]);
            }
        }
    }
}

/// A search finds a text where it stands for the first time, and finds nothing only
/// if it stands nowhere.
pub proof fn law_search_finds_the_first(cs: Seq<char>, i: int, pat: Seq<char>)
    requires
        0 <= i,
    ensures
        first_match(cs, i, pat) matches Some(p) ==> i <= p && stands_from(cs, p, pat) && (forall|
            q: int,
        |
            i <= q < p ==> !#[trigger] stands_from(cs, q, pat)),
        first_match(cs, i, pat) is None ==> (forall|q: int|
            i <= q ==> !#[trigger] stands_from(cs, q, pat)),
    decreases cs.len() + 1 - i,
{
    lemma_stands(cs, i, pat);
    if i <= cs.len() && !matches_at(cs, i, pat) {
        law_search_finds_the_first(cs, i + 1, pat);
    }
}

/// `n` times `cs`, one after the other.
pub open spec fn repeated(cs: Seq<char>, n: nat) -> Seq<char>
    decreases n,
{
    if n == 0 {
        Seq::empty()
    } else {
        repeated(cs, (n - 1) as nat) + cs
    }
}

/// Cutting a suffix off takes every copy of it from the end and nothing else.
pub proof fn law_suffix_is_cut_off(cs: Seq<char>, suffix: Seq<char>) -> (n: nat)
    requires
        suffix.len() > 0,
    ensures
        ({
            let t = trimmed_suffix(cs, suffix);
            &&& t + repeated(suffix, n) == cs
            &&& !stands_from(t, t.len() - suffix.len(), suffix)
        }),
    decreases cs.len(),
{
    let at = cs.len() - suffix.len();
    lemma_stands(cs, at, suffix);
    if matches_at(cs, at, suffix) {
        let front = cs.take(at);
        let m = law_suffix_is_cut_off(front, suffix);
        let t = trimmed_suffix(cs, suffix);
        assert(cs =~= front + suffix) by {
            assert(cs.subrange(at, at + suffix.len()) =~= suffix);
            assert(cs =~= front + cs.subrange(at, at + suffix.len()));
        }
        assert(t + repeated(suffix, m + 1) =~= (t + repeated(suffix, m)) + suffix);
        m + 1
    } else {
        assert(trimmed_suffix(cs, suffix) + repeated(suffix, 0) =~= cs);
        0
    }
}

// ---- cutting up ----

/// A text without separators is one piece; otherwise what stands before the first
/// one is the first piece, and the rest is cut up in the same way.
pub proof fn law_pieces_stand_between_separators(a: Seq<char>, b: Seq<char>, sep: char)
    requires
        !a.contains(sep),
    ensures
        pieces(a, sep) == seq![a],
        pieces(a + seq![sep] + b, sep) == seq![a] + pieces(b, sep),
{
    assert forall|k: int| 0 <= k < a.len() implies #[trigger] a[k] != sep by {
        assert(a.contains(a[k]));
    }
    lemma_pieces_one(a, sep);
    lemma_pieces_cons(a, b, sep);
}

/// A word of `cs`: a longest stretch of it without white space.
pub open spec fn is_word(cs: Seq<char>, a: int, b: int) -> bool {
    &&& 0 <= a < b <= cs.len()
    &&& forall|k: int| a <= k < b ==> !is_whitespace(#[trigger] cs[k])
    &&& a == 0 || is_whitespace(cs[a - 1])
    &&& b == cs.len() || is_whitespace(cs[b])
}

/// Whether `w` is what stands at a word of `cs`.
pub open spec fn is_word_text(cs: Seq<char>, w: Seq<char>) -> bool {
    exists|a: int, b: int| #[trigger] is_word(cs, a, b) && cs.subrange(a, b) == w
}

proof fn lemma_space_run(cs: Seq<char>, i: int, ws: bool)
    requires
        0 <= i <= cs.len(),
    ensures
        forall|k: int|
            i <= k < next_space(cs, i, ws) ==> is_whitespace(#[trigger] cs[k]) != ws,
    decreases cs.len() - i,
{
    if i < cs.len() && is_whitespace(cs[i]) != ws {
        lemma_space_run(cs, i + 1, ws);
    }
}

/// The words of a text are its longest stretches without white space: each of them
/// is listed, and nothing else is.
pub proof fn law_words_are_the_longest_stretches(cs: Seq<char>)
    ensures
        forall|a: int, b: int| #[trigger]
            is_word(cs, a, b) ==> word_list(cs).contains(cs.subrange(a, b)),
        forall|n: int|
            0 <= n < word_list(cs).len() ==> is_word_text(cs, #[trigger] word_list(cs)[n]),
{
    lemma_words(cs, 0);
}

proof fn lemma_words(cs: Seq<char>, i: int)
    requires
        0 <= i <= cs.len(),
        i == 0 || i == cs.len() || is_whitespace(cs[i]) || is_whitespace(cs[i - 1]),
    ensures
        forall|a: int, b: int| #[trigger]
            is_word(cs, a, b) && i <= a ==> words_from(cs, i).contains(cs.subrange(a, b)),
        forall|n: int|
            0 <= n < words_from(cs, i).len() ==> is_word_text(cs, #[trigger] words_from(cs, i)[n]),
    decreases cs.len() - i,
{
    let a = next_space(cs, i, false);
    lemma_next_space(cs, i, false);
    lemma_space_run(cs, i, false);
    let ws = words_from(cs, i);
    if a < cs.len() {
        let b = next_space(cs, a, true);
        lemma_next_space(cs, a, true);
        lemma_space_run(cs, a, true);
        assert(b > a);
        let rest = words_from(cs, b);
        assert(ws == seq![cs.subrange(a, b)] + rest);
        if i < a {
            assert(is_whitespace(cs[a - 1]));
        }
        assert(is_word(cs, a, b));
        lemma_words(cs, b);
        assert forall|p: int, q: int| #[trigger] is_word(cs, p, q) && i <= p implies ws.contains(
            cs.subrange(p, q),
        ) by {
            if p < a {
                assert(is_whitespace(cs[p]));
            } else if p < b {
                if p > a {
                    assert(!is_whitespace(cs[p - 1]));
                }
                if q < b {
                    assert(!is_whitespace(cs[q]));
                } else if q > b {
                    assert(!is_whitespace(cs[b]));
                }
                assert(ws[0] == cs.subrange(p, q));
            } else {
                let k = choose|k: int| 0 <= k < rest.len() && rest[k] == cs.subrange(p, q);
                assert(ws[k + 1] == rest[k]);
            }
        }
        assert forall|n: int| 0 <= n < ws.len() implies is_word_text(cs, #[trigger] ws[n]) by {
            if n > 0 {
                assert(ws[n] == rest[n - 1]);
            }
        }
    } else {
        assert forall|p: int, q: int| #[trigger] is_word(cs, p, q) && i <= p implies ws.contains(
            cs.subrange(p, q),
        ) by {
            assert(is_whitespace(cs[p]));
        }
    }
}

/// The lines, each with a line break behind it.
pub open spec fn with_breaks(lines: Seq<Seq<char>>) -> Seq<char>
    decreases lines.len(),
{
    if lines.len() == 0 {
        Seq::empty()
    } else {
        lines[0] + seq!['\n'] + with_breaks(lines.drop_first())
    }
}

/// The lines of a text hold no line break, and with line breaks behind them they
/// make up the text again, a last line that had none getting one.
pub proof fn law_lines_make_up_the_text(cs: Seq<char>)
    requires
        !cs.contains('\r'),
    ensures
        forall|n: int|
            0 <= n < text_lines_from(cs, 0).len() ==> !(#[trigger] text_lines_from(
                cs,
                0,
            )[n]).contains('\n'),
        with_breaks(text_lines_from(cs, 0)) == if cs.len() == 0 || cs.last() == '\n' {
            cs
        } else {
            cs.push('\n')
        },
{
    lemma_lines(cs, 0);
    assert(cs.skip(0) =~= cs);
}

proof fn lemma_lines(cs: Seq<char>, i: int)
    requires
        0 <= i <= cs.len(),
        !cs.contains('\r'),
    ensures
        forall|n: int|
            0 <= n < text_lines_from(cs, i).len() ==> !(#[trigger] text_lines_from(
                cs,
                i,
            )[n]).contains('\n'),
        with_breaks(text_lines_from(cs, i)) == if i == cs.len() || cs.last() == '\n' {
            cs.skip(i)
        } else {
            cs.skip(i).push('\n')
        },
    decreases cs.len() - i,
{
    let ls = text_lines_from(cs, i);
    if i < cs.len() {
        let e = next_sep(cs, i, '\n');
        lemma_next_sep(cs, i, '\n');
        let line = cs.subrange(i, e);
        assert(!line.contains('\n')) by {
            if line.contains('\n') {
                let k = choose|k: int| 0 <= k < line.len() && line[k] == '\n';
                assert(cs[i + k] == '\n');
            }
        }
        if e < cs.len() {
            if e > i {
                assert(cs.contains(cs[e - 1]));
            }
            let rest = text_lines_from(cs, e + 1);
            assert(ls == seq![line] + rest);
            lemma_lines(cs, e + 1);
            assert(ls.drop_first() =~= rest);
            assert(cs.skip(i) =~= line + seq!['\n'] + cs.skip(e + 1));
            assert(with_breaks(ls) == line + seq!['\n'] + with_breaks(rest));
            if e + 1 < cs.len() && cs.last() != '\n' {
                assert(cs.skip(i).push('\n') =~= line + seq!['\n'] + cs.skip(e + 1).push('\n'));
            }
            assert forall|n: int| 0 <= n < ls.len() implies !(#[trigger] ls[n]).contains('\n') by {
                if n > 0 {
                    assert(ls[n] == rest[n - 1]);
                }
            }
        } else {
            assert(ls == seq![line]);
            assert(ls.drop_first() =~= Seq::<Seq<char>>::empty());
            assert(with_breaks(ls.drop_first()) == Seq::<char>::empty());
            assert(cs.last() != '\n');
            assert(with_breaks(ls) =~= cs.skip(i).push('\n'));
        }
    } else {
        assert(with_breaks(ls) =~= cs.skip(i));
    }
}

/// A carriage return before a line break belongs to the break, not to the line.
pub proof fn law_carriage_return_ends_a_line(line: Seq<char>, rest: Seq<char>)
    requires
        !line.contains('\n'),
        line.len() == 0 || line.last() != '\r',
    ensures
        ({
            let plain = line + seq!['\n'] + rest;
            let returned = line + seq!['\r', '\n'] + rest;
            text_lines_from(plain, 0)[0] == line && text_lines_from(returned, 0)[0] == line
        }),
{
    let plain = line + seq!['\n'] + rest;
    let returned = line + seq!['\r', '\n'] + rest;
    assert forall|k: int| 0 <= k < line.len() implies #[trigger] line[k] != '\n' by {
        assert(line.contains(line[k]));
    }
    lemma_next_sep(plain, 0, '\n');
    lemma_next_sep(returned, 0, '\n');
    let e = next_sep(plain, 0, '\n');
    assert(e == line.len()) by {
        if e < line.len() {
            assert(plain[e] == line[e]);
        } else {
            assert(plain[line.len() as int] == '\n');
        }
    }
    let f = next_sep(returned, 0, '\n');
    assert(f == line.len() + 1) by {
        if f < line.len() {
            assert(returned[f] == line[f]);
        } else {
            assert(returned[line.len() as int] == '\r');
            assert(returned[line.len() as int + 1] == '\n');
        }
    }
    assert(plain.subrange(0, e) =~= line);
    assert(returned.subrange(0, f - 1) =~= line);
    if line.len() > 0 {
        assert(plain[e - 1] == line.last());
    }
}

/// The line breaks of two texts add up, and a line begins at the start of the text
/// or right after a line break, with no other between it and the position.
pub proof fn law_line_breaks(cs: Seq<char>, c: char, i: int)
    requires
        0 <= i <= cs.len(),
    ensures
        newlines(Seq::<char>::empty()) == 0,
        newlines(cs.push(c)) == newlines(cs) + if c == '\n' {
            1int
        } else {
            0
        },
        0 <= line_start_of(cs, i) <= i,
        line_start_of(cs, i) == 0 || cs[line_start_of(cs, i) - 1] == '\n',
        forall|k: int| line_start_of(cs, i) <= k < i ==> #[trigger] cs[k] != '\n',
    decreases i,
{
    assert(cs.push(c).drop_last() =~= cs);
    if i > 0 && cs[i - 1] != '\n' {
        law_line_breaks(cs, c, i - 1);
    }
}

} // verus!
